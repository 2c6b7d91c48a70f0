use navsim::geometry::{Point3, COORD_LIMIT};
use navsim::path::{route_in_bounds, Path};

#[test]
fn empty_route_gives_no_path() {
    assert!(Path::from_waypoints(vec![]).is_none());
}

#[test]
fn path_is_walked_front_to_back() {
    let a = Point3::new(1, 0, 0);
    let b = Point3::new(2, 0, 0);
    let c = Point3::new(3, 0, 0);
    let mut p = Path::from_waypoints(vec![a, b, c]).unwrap();
    assert_eq!(p.current, a);
    assert_eq!(p.remaining_len(), 2);
    assert!(p.advance());
    assert_eq!(p.current, b);
    assert!(p.advance());
    assert_eq!(p.current, c);
    assert_eq!(p.remaining_len(), 0);
    assert!(!p.advance());
    assert_eq!(p.current, c);
}

#[test]
fn route_bounds_are_checked() {
    assert!(route_in_bounds(&vec![]));
    assert!(route_in_bounds(&vec![Point3::new(0, 0, COORD_LIMIT)]));
    assert!(!route_in_bounds(&vec![Point3::new(0, 0, 0), Point3::new(0, -COORD_LIMIT - 1, 0)]));
}
