use sokoban_solver::lists::{BoxVec, MovePath};
use sokoban_solver::point::Point;

#[test]
fn point_list_keeps_points_in_order() {
    let pts = vec![Point::new(1, 2), Point::new(3, 4), Point::new(1, 2)];
    let v = BoxVec::from_slice(&pts);
    assert_eq!(v.to_vec(), pts);
}

#[test]
fn point_list_grows_past_its_inline_room() {
    let mut pts = Vec::new();
    for i in 0..50 {
        pts.push(Point::new(i, 2 * i));
    }
    let v = BoxVec::from_slice(&pts);
    assert_eq!(v.to_vec(), pts);
}

#[test]
fn empty_point_list() {
    let v = BoxVec::from_slice(&[]);
    assert!(v.to_vec().is_empty());
}

#[test]
fn move_path_keeps_codes_in_order() {
    let mut codes = Vec::new();
    for i in 0..300u32 {
        codes.push((i % 4) as u8);
    }
    let p = MovePath::from_slice(&codes);
    assert_eq!(p.to_vec(), codes);
}
