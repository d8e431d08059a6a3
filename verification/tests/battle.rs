use hoi25::battle::{defenders_at, retreat_destination};
use hoi25::hexagon_pos::HexagonPos;
use hoi25::world::WorldMap;

fn p(x: i32, y: i32) -> HexagonPos {
    HexagonPos::new(x, y)
}

#[test]
fn defenders_are_the_divisions_at_the_destination() {
    let positions = vec![p(1, 0), p(2, 0), p(1, 0), p(3, 3)];
    assert_eq!(defenders_at(p(1, 0), &positions), vec![0, 2]);
    assert_eq!(defenders_at(p(9, 9), &positions), Vec::<usize>::new());
}

#[test]
fn retreat_to_first_own_neighbour() {
    let c = p(2, 3);
    let ns = c.neighbours();
    let mut m = WorldMap::new();
    m.insert(c, 0, Some(2));
    m.insert(ns[0], 1, Some(2));
    m.insert(ns[1], 2, None);
    m.insert(ns[3], 3, Some(1));
    m.insert(ns[4], 4, Some(1));
    assert_eq!(retreat_destination(&m, c, 1), Some(ns[3]));
    assert_eq!(retreat_destination(&m, c, 2), Some(ns[0]));
    assert_eq!(retreat_destination(&m, c, 5), None);
}
