use hoi25::borders::{update_borders, Border};
use hoi25::hexagon_pos::HexagonPos;
use hoi25::world::WorldMap;

fn p(x: i32, y: i32) -> HexagonPos {
    HexagonPos::new(x, y)
}

#[test]
fn border_knows_its_sides() {
    let b = Border::new(p(0, 0), p(1, 0));
    assert_eq!(b.between, [p(0, 0), p(1, 0)]);
    assert!(b.touches(p(0, 0)));
    assert!(b.touches(p(1, 0)));
    assert!(!b.touches(p(0, 1)));
}

#[test]
fn borders_drawn_towards_other_owners() {
    let c = p(2, 3);
    let ns = c.neighbours();
    let mut m = WorldMap::new();
    m.insert(c, 0, Some(1));
    m.insert(ns[0], 1, Some(1));
    m.insert(ns[1], 2, Some(2));
    m.insert(ns[3], 3, None);
    m.insert(ns[5], 4, Some(3));
    let mut borders = vec![
        Border::new(ns[0], c),
        Border::new(p(10, 10), p(10, 11)),
        Border::new(c, ns[2]),
    ];
    update_borders(&mut borders, &m, c);
    let sides: Vec<_> = borders.iter().map(|b| b.between).collect();
    assert_eq!(
        sides,
        vec![[p(10, 10), p(10, 11)], [c, ns[1]], [c, ns[3]], [c, ns[5]]]
    );
}

#[test]
fn unowned_next_to_unowned_has_no_border() {
    let c = p(0, 0);
    let ns = c.neighbours();
    let mut m = WorldMap::new();
    m.insert(c, 0, None);
    m.insert(ns[2], 1, None);
    m.insert(ns[4], 2, Some(8));
    let mut borders = Vec::new();
    update_borders(&mut borders, &m, c);
    let sides: Vec<_> = borders.iter().map(|b| b.between).collect();
    assert_eq!(sides, vec![[c, ns[4]]]);
}
