use netwalk::Vec2;

#[test]
fn creation() {
    let v = Vec2::new(1, 2);
    assert_eq!(v.x, 1);
    assert_eq!(v.y, 2);

    let v = Vec2::splat(3);
    assert_eq!(v.x, 3);
    assert_eq!(v.y, 3);

    let v: Vec2 = (4, 5).into();
    assert_eq!(v.x, 4);
    assert_eq!(v.y, 5);

    let data = &(4, 5);
    let v = Vec2::from(data);
    assert_eq!(v.x, 4);
    assert_eq!(v.y, 5);
}

#[test]
fn operators() {
    let a = Vec2::new(1, 2);
    let b = Vec2::new(3, 4);
    let c = a.add(b);
    assert_eq!(c.x, 4);
    assert_eq!(c.y, 6);

    let c = a.sub(b);
    assert_eq!(c.x, -2);
    assert_eq!(c.y, -2);

    let c = a.mul(2);
    assert_eq!(c.x, 2);
    assert_eq!(c.y, 4);
}
