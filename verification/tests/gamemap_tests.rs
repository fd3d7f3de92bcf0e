use oil_dig::gamemap::{Coord, Field};
use std::cmp::Ordering;

#[test]
fn coord_new_keeps_members() {
    let c = Coord::new(3, -7);
    assert_eq!(c.x, 3);
    assert_eq!(c.y, -7);
}

#[test]
fn coord_add_and_sub() {
    let a = Coord::new(1, 2);
    let b = Coord::new(3, -5);
    assert_eq!(a + b, Coord::new(4, -3));
    assert_eq!((a + b) - b, a);
    assert_eq!(a - b, Coord::new(-2, 7));
}

#[test]
fn coord_compare_by_column_then_row() {
    let a = Coord::new(1, 9);
    let b = Coord::new(2, 0);
    let c = Coord::new(1, 3);
    assert_eq!(a.compare(&b), Ordering::Less);
    assert_eq!(b.compare(&a), Ordering::Greater);
    assert_eq!(c.compare(&a), Ordering::Less);
    assert_eq!(a.compare(&a), Ordering::Equal);
    // the derived order agrees
    assert_eq!(a.cmp(&b), Ordering::Less);
    assert_eq!(c.cmp(&a), Ordering::Less);
}

#[test]
fn field_new_fills_every_cell() {
    let f = Field::new(7u8, 3, 4);
    assert_eq!(f.height(), 3);
    assert_eq!(f.width(), 4);
    for y in 0..3 {
        for x in 0..4 {
            assert_eq!(f.index_xy((x, y)), 7);
        }
    }
}

#[test]
fn field_id_ok_bounds() {
    let f = Field::new(0u8, 3, 4);
    assert!(f.id_ok(&Coord::new(0, 0)));
    assert!(f.id_ok(&Coord::new(3, 2)));
    assert!(!f.id_ok(&Coord::new(4, 2)));
    assert!(!f.id_ok(&Coord::new(3, 3)));
    assert!(!f.id_ok(&Coord::new(-1, 0)));
    assert!(!f.id_ok(&Coord::new(0, -1)));
}

#[test]
fn field_write_then_read() {
    let mut f = Field::new(0i32, 3, 4);
    f.set(Coord::new(2, 1), 5);
    assert_eq!(f.index(Coord::new(2, 1)), 5);
    assert_eq!(f.index_xy((2, 1)), 5);
    assert_eq!(f.index(Coord::new(1, 2)), 0);
    f.set_xy((3, 2), 9);
    assert_eq!(f.index(Coord::new(3, 2)), 9);
    assert_eq!(f.index(Coord::new(2, 1)), 5);
}

#[test]
fn field_write_leaves_other_cells() {
    let mut f = Field::new(1u8, 2, 2);
    f.set(Coord::new(1, 0), 4);
    assert_eq!(f.index_xy((1, 0)), 4);
    assert_eq!(f.index_xy((0, 0)), 1);
    assert_eq!(f.index_xy((0, 1)), 1);
    assert_eq!(f.index_xy((1, 1)), 1);
}

#[test]
fn coord_partial_cmp_by_column_then_row() {
    let a = Coord::new(1, 9);
    let b = Coord::new(2, 0);
    let c = Coord::new(1, 3);
    assert_eq!(a.partial_cmp(&b), Some(Ordering::Less));
    assert_eq!(b.partial_cmp(&a), Some(Ordering::Greater));
    assert_eq!(a.partial_cmp(&c), Some(Ordering::Greater));
    assert_eq!(c.partial_cmp(&c), Some(Ordering::Equal));
    assert!(c < a && a < b && !(b < a));
    assert_eq!(a.partial_cmp(&b), Some(a.cmp(&b)));
}
