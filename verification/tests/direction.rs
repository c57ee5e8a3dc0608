use netwalk::direction::{Direction, DirectionError};
use netwalk::Vec2;

#[test]
fn iteration() {
    let mut iter = Direction::iter();
    assert_eq!(iter.next(), Some(Direction::Right));
    assert_eq!(iter.next(), Some(Direction::Up));
    assert_eq!(iter.next(), Some(Direction::Left));
    assert_eq!(iter.next(), Some(Direction::Down));
    assert_eq!(iter.next(), None);
}

#[test]
fn conversion() {
    let v = Vec2::new(0, -1);
    assert_eq!(Direction::try_from(v), Ok(Direction::Up));
    assert_eq!(Direction::Up.to_vec2(), v);

    let v = Vec2::new(0, 1);
    assert_eq!(Direction::try_from(v), Ok(Direction::Down));
    assert_eq!(Direction::Down.to_vec2(), v);

    let v = Vec2::new(-1, 0);
    assert_eq!(Direction::try_from(v), Ok(Direction::Left));
    assert_eq!(Direction::Left.to_vec2(), v);

    let v = Vec2::new(1, 0);
    assert_eq!(Direction::try_from(v), Ok(Direction::Right));
    assert_eq!(Direction::Right.to_vec2(), v);

    let v = Vec2::new(-1, 1);
    assert_eq!(
        Direction::try_from(v),
        Err(DirectionError::InvalidDirection(v))
    );
}

#[test]
fn opposite() {
    assert_eq!(Direction::Up.opposite(), Direction::Down);
    assert_eq!(Direction::Down.opposite(), Direction::Up);
    assert_eq!(Direction::Left.opposite(), Direction::Right);
    assert_eq!(Direction::Right.opposite(), Direction::Left);
}
