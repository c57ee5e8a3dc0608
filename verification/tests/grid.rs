use netwalk::{Grid, Vec2};

#[test]
fn general_functionality() {
    let grid = Grid::from_data(2, 2, vec![1, 2, 3, 4]);
    assert_eq!(grid.rows(), 2);
    assert_eq!(grid.cols(), 2);
    assert!(grid.contains_coord(Vec2 { x: 0, y: 0 }));
    assert!(!grid.contains_coord(Vec2 { x: 1, y: 2 }));
    assert_eq!(grid.get(Vec2::default()), Some(&1));

    let mut grid = Grid::<u32>::with_size(2, 2, 0);
    assert_eq!(grid.get(Vec2::default()), Some(&0));
    *grid.get_mut(Vec2 { x: 0, y: 0 }).unwrap() = 4;
    assert_eq!(grid.get(Vec2::default()), Some(&4));
}

#[test]
fn index_operator() {
    let mut grid = Grid::from_data(2, 2, vec![1, 2, 3, 4]);
    assert_eq!(*grid.get((0, 0).into()).unwrap(), 1);
    assert_eq!(*grid.get((1, 0).into()).unwrap(), 2);
    assert_eq!(*grid.get((0, 1).into()).unwrap(), 3);
    assert_eq!(*grid.get((1, 1).into()).unwrap(), 4);

    grid.set((0, 0).into(), 5);
    assert_eq!(*grid.get((0, 0).into()).unwrap(), 5);
}

#[test]
fn iterator() {
    let grid = Grid::from_data(2, 2, vec![0, 1, 2, 3]);
    let mut it = grid.iter();
    assert_eq!(it.next(), Some(&0));
    assert_eq!(it.next(), Some(&1));
    assert_eq!(it.next(), Some(&2));
    assert_eq!(it.next(), Some(&3));
    assert_eq!(it.next(), None);
}

#[test]
fn mutable_iterator() {
    let mut grid = Grid::from_data(2, 2, vec![0, 1, 2, 3]);
    let mut it = grid.iter_mut();
    while let Some(coord) = it.next() {
        let doubled = *grid.get(coord).unwrap() * 2;
        grid.set(coord, doubled);
    }
    assert_eq!(grid.get(Vec2::new(0, 0)), Some(&0));
    assert_eq!(grid.get(Vec2::new(1, 0)), Some(&2));
    assert_eq!(grid.get(Vec2::new(0, 1)), Some(&4));
    assert_eq!(grid.get(Vec2::new(1, 1)), Some(&6));
}

#[test]
fn indexed_iterator() {
    let grid = Grid::from_data(2, 2, vec![0, 1, 2, 3]);
    let mut it = grid.indexed_iter();
    assert_eq!(it.next(), Some((Vec2::new(0, 0), &0)));
    assert_eq!(it.next(), Some((Vec2::new(1, 0), &1)));
    assert_eq!(it.next(), Some((Vec2::new(0, 1), &2)));
    assert_eq!(it.next(), Some((Vec2::new(1, 1), &3)));
    assert_eq!(it.next(), None);
}

#[test]
fn mutable_indexed_iterator() {
    let mut grid = Grid::from_data(2, 2, vec![0, 1, 2, 3]);
    let mut it = grid.indexed_iter_mut();
    while let Some(coord) = it.next() {
        grid.set(coord, 8);
    }
    assert_eq!(grid.get(Vec2::new(0, 0)), Some(&8));
    assert_eq!(grid.get(Vec2::new(1, 0)), Some(&8));
    assert_eq!(grid.get(Vec2::new(0, 1)), Some(&8));
    assert_eq!(grid.get(Vec2::new(1, 1)), Some(&8));
}

#[test]
fn neighbors_iterator() {
    let grid = Grid::from_data(2, 2, vec![0, 1, 2, 3]);
    let mut it = grid.neighbors(Vec2 { x: 0, y: 0 });
    // Note this depends on the iteration order of Direction.
    assert_eq!(it.next(), Some((Vec2::new(1, 0), &1))); // right
    assert_eq!(it.next(), Some((Vec2::new(0, 1), &2))); // down
    assert_eq!(it.next(), None);
}

#[test]
fn wrapping_access() {
    let grid = Grid::from_data(2, 2, vec![1, 2, 3, 4]);
    assert_eq!(*grid.wrapping_get(Vec2::new(-1, 0)), 2);
    assert_eq!(*grid.wrapping_get(Vec2::new(2, 0)), 1);
    assert_eq!(*grid.wrapping_get(Vec2::new(0, -1)), 3);
    assert_eq!(*grid.wrapping_get(Vec2::new(0, 3)), 3);
    assert_eq!(grid.normalized_coord(Vec2::new(-1, -1)), Vec2::new(1, 1));
    assert_eq!(grid.normalized_coord(Vec2::new(5, 4)), Vec2::new(1, 0));
}
