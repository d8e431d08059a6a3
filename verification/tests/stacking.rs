use hoi25::hexagon_pos::HexagonPos;
use hoi25::stacking::{DivisionsAtProvince, PrevPos};

fn p(x: i32, y: i32) -> HexagonPos {
    HexagonPos::new(x, y)
}

#[test]
fn new_markers_stack_up() {
    let mut d = DivisionsAtProvince::new();
    assert_eq!(d.take_slot(p(0, 0)), 0);
    assert_eq!(d.take_slot(p(0, 0)), 1);
    assert_eq!(d.take_slot(p(1, 0)), 0);
    assert_eq!(d.take_slot(p(0, 0)), 2);
    d.reset(p(0, 0));
    assert_eq!(d.take_slot(p(0, 0)), 0);
}

#[test]
fn restack_numbers_divisions_per_province() {
    let mut d = DivisionsAtProvince::new();
    d.take_slot(p(0, 0));
    d.take_slot(p(0, 0));
    d.take_slot(p(5, 5));
    let positions = vec![p(0, 0), p(1, 0), p(5, 5), p(1, 0), p(0, 0), p(1, 0)];
    let slots = d.restack(&vec![p(0, 0), p(1, 0)], &positions);
    assert_eq!(slots, vec![Some(0), Some(0), None, Some(1), Some(1), Some(2)]);
    assert_eq!(d.0[&p(0, 0).key()], 2);
    assert_eq!(d.0[&p(1, 0).key()], 3);
    assert_eq!(d.0[&p(5, 5).key()], 1);
}

#[test]
fn previous_position_follows() {
    let mut prev = PrevPos::new(p(1, 1));
    assert_eq!((prev.actual, prev.prev), (p(1, 1), p(1, 1)));
    prev.update(p(2, 1));
    assert_eq!((prev.actual, prev.prev), (p(2, 1), p(1, 1)));
    prev.update(p(3, 1));
    assert_eq!((prev.actual, prev.prev), (p(3, 1), p(2, 1)));
}
