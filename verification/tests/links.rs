use netwalk::direction::Direction;
use netwalk::tile::{Kind, Orientation, Tile};
use netwalk::{Feature, Links};

#[test]
fn l_tile() {
    // An L-tile rotated a quarter turn counter-clockwise.
    let mut links = Links::default();
    links.set(Direction::Up, true);
    links.set(Direction::Left, true);
    let (kind, orientation) = links.kind_orientation();
    assert_eq!(kind, Kind::Corner);
    assert_eq!(orientation, Orientation::Ccw90);
}

fn pattern(east: bool, north: bool, west: bool, south: bool) -> Links {
    let mut links = Links::default();
    links.set(Direction::Right, east);
    links.set(Direction::Up, north);
    links.set(Direction::Left, west);
    links.set(Direction::Down, south);
    links
}

#[test]
fn all_link_patterns() {
    let cases = [
        (pattern(true, false, false, false), Kind::DeadEnd, Orientation::Basic),
        (pattern(false, true, false, false), Kind::DeadEnd, Orientation::Ccw90),
        (pattern(false, false, true, false), Kind::DeadEnd, Orientation::Ccw180),
        (pattern(false, false, false, true), Kind::DeadEnd, Orientation::Ccw270),
        (pattern(true, false, true, false), Kind::Straight, Orientation::Basic),
        (pattern(false, true, false, true), Kind::Straight, Orientation::Ccw90),
        (pattern(true, true, false, false), Kind::Corner, Orientation::Basic),
        (pattern(false, true, true, false), Kind::Corner, Orientation::Ccw90),
        (pattern(false, false, true, true), Kind::Corner, Orientation::Ccw180),
        (pattern(true, false, false, true), Kind::Corner, Orientation::Ccw270),
        (pattern(true, true, true, false), Kind::TIntersection, Orientation::Basic),
        (pattern(false, true, true, true), Kind::TIntersection, Orientation::Ccw90),
        (pattern(true, false, true, true), Kind::TIntersection, Orientation::Ccw180),
        (pattern(true, true, false, true), Kind::TIntersection, Orientation::Ccw270),
        (pattern(true, true, true, true), Kind::CrossIntersection, Orientation::Basic),
    ];
    for (links, kind, orientation) in cases {
        assert_eq!(links.kind_orientation(), (kind, orientation));
        // Decoding and re-reading the stubs reproduces the bit pattern.
        let tile = Tile::from_links(links);
        assert_eq!(tile.has_link(Direction::Right), links.get(Direction::Right));
        assert_eq!(tile.has_link(Direction::Up), links.get(Direction::Up));
        assert_eq!(tile.has_link(Direction::Left), links.get(Direction::Left));
        assert_eq!(tile.has_link(Direction::Down), links.get(Direction::Down));
    }
}

#[test]
fn dead_ends_become_drains() {
    let tile = Tile::from_links(pattern(false, true, false, false));
    assert_eq!(tile.kind(), Kind::DeadEnd);
    assert_eq!(tile.feature(), Feature::Drain);
    assert!(!tile.powered());

    let tile = Tile::from_links(pattern(true, true, false, false));
    assert_eq!(tile.feature(), Feature::Empty);
}

#[test]
fn rotation_cycle() {
    let mut tile = Tile::from_links(pattern(true, true, false, false));
    let start = tile;
    tile.rotate();
    assert_eq!(tile.orientation(), Orientation::Ccw90);
    assert_ne!(tile, start);
    tile.rotate();
    tile.rotate();
    tile.rotate();
    assert_eq!(tile, start);
}
