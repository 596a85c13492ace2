use sokoban_solver::point::Point;

#[test]
fn point_new_keeps_coordinates() {
    let p = Point::new(3, -4);
    assert_eq!(p.row, 3);
    assert_eq!(p.col, -4);
}

#[test]
fn pack_puts_row_above_column() {
    assert_eq!(Point::new(1, 2).pack(), 0x0001_0002);
    assert_eq!(Point::new(0, 0).pack(), 0);
    assert_eq!(Point::new(300, 7).pack(), 300 * 65536 + 7);
}

#[test]
fn pack_reads_negative_coordinates_as_sixteen_bits() {
    assert_eq!(Point::new(-1, -2).pack(), 0xFFFF_FFFE);
    assert_eq!(Point::new(-32768, 32767).pack(), 0x8000_7FFF);
    assert_eq!(Point::new(0, -1).pack(), 0x0000_FFFF);
}

#[test]
fn unpack_splits_the_word() {
    assert_eq!(Point::unpack(0x0001_0002), Point::new(1, 2));
    assert_eq!(Point::unpack(0x8000_7FFF), Point::new(-32768, 32767));
    assert_eq!(Point::unpack(0xFFFF_FFFF), Point::new(-1, -1));
}

#[test]
fn unpack_undoes_pack() {
    for &(row, col) in [(0i16, 0i16), (5, 9), (-7, 12), (32767, -32768), (-1, -1), (123, -456)].iter() {
        let p = Point::new(row, col);
        assert_eq!(Point::unpack(p.pack()), p);
    }
}

#[test]
fn step_moves_one_cell_in_each_direction() {
    let p = Point::new(3, 4);
    assert_eq!(p.step(0), Point::new(2, 4));
    assert_eq!(p.step(1), Point::new(4, 4));
    assert_eq!(p.step(2), Point::new(3, 3));
    assert_eq!(p.step(3), Point::new(3, 5));
}

#[test]
fn distance_is_manhattan() {
    assert_eq!(Point::new(1, 1).distance(Point::new(4, -2)), 6);
    assert_eq!(Point::new(4, -2).distance(Point::new(1, 1)), 6);
    assert_eq!(Point::new(2, 2).distance(Point::new(2, 2)), 0);
    assert_eq!(Point::new(0, 0).distance(Point::new(32766, 32766)), 65532);
}
