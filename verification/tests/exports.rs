use build_bridge::exports::{is_magic_number, some_function, Point, MAGIC_NUMBER};

#[test]
fn some_function_is_forty_two() {
    assert_eq!(some_function(), 42);
}

#[test]
fn magic_number_is_recognised() {
    assert!(is_magic_number(0xABCD_EFAB));
    assert!(is_magic_number(MAGIC_NUMBER));
    assert!(!is_magic_number(0));
    assert!(!is_magic_number(0xABCD_EFAC));
}

#[test]
fn point_add_sums_each_coordinate() {
    let mut p = Point { x: 1, y: 2 };
    p.add(&Point { x: 10, y: 20 });
    assert_eq!(p.x, 11);
    assert_eq!(p.y, 22);
}

#[test]
fn point_add_wraps_around() {
    let mut p = Point { x: u64::MAX, y: u64::MAX - 1 };
    p.add(&Point { x: 1, y: 3 });
    assert_eq!(p.x, 0);
    assert_eq!(p.y, 1);
}

#[test]
fn add_point_adds_when_both_are_there() {
    let mut p = Point { x: 1, y: 2 };
    let q = Point { x: 40, y: u64::MAX };
    assert!(build_bridge::exports::add_point(Some(&mut p), Some(&q)));
    assert_eq!(p.x, 41);
    assert_eq!(p.y, 1);
}

#[test]
fn add_point_leaves_the_point_when_one_is_missing() {
    let mut p = Point { x: 1, y: 2 };
    let q = Point { x: 40, y: 50 };
    assert!(!build_bridge::exports::add_point(Some(&mut p), None));
    assert!(!build_bridge::exports::add_point(None, Some(&q)));
    assert!(!build_bridge::exports::add_point(None, None));
    assert_eq!(p.x, 1);
    assert_eq!(p.y, 2);
}
