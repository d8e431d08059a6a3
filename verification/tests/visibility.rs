use hoi25::hexagon_pos::HexagonPos;
use hoi25::visibility::{division_visibility, needs_visibility_update};
use hoi25::world::WorldMap;

fn p(x: i32, y: i32) -> HexagonPos {
    HexagonPos::new(x, y)
}

#[test]
fn own_country_first_then_neighbours_in_order() {
    let mut m = WorldMap::new();
    let c = p(2, 3);
    let ns = c.neighbours();
    m.insert(c, 0, Some(1));
    m.insert(ns[0], 1, Some(7));
    m.insert(ns[1], 2, Some(1));
    m.insert(ns[2], 3, None);
    m.insert(ns[3], 4, Some(9));
    m.insert(ns[4], 5, Some(7));
    let vis = division_visibility(&m, c, 5);
    assert_eq!(vis.0.items.to_vec(), vec![5, 7, 1, 9]);
    assert!(vis.is_visible(Some(9)));
    assert!(vis.is_visible(Some(5)));
    assert!(!vis.is_visible(Some(3)));
    assert!(!vis.is_visible(None));
}

#[test]
fn alone_a_division_is_seen_by_its_owner() {
    let m = WorldMap::new();
    let vis = division_visibility(&m, p(0, 0), 4);
    assert_eq!(vis.0.items.to_vec(), vec![4]);
}

#[test]
fn update_after_move_or_neighbour_change() {
    let pos = p(2, 3);
    assert!(needs_visibility_update(true, &vec![], pos));
    assert!(!needs_visibility_update(false, &vec![], pos));
    assert!(needs_visibility_update(false, &vec![p(3, 3)], pos));
    assert!(!needs_visibility_update(false, &vec![pos], pos));
    assert!(!needs_visibility_update(false, &vec![p(9, 9), p(2, 5)], pos));
}
