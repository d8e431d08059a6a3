use hoi25::hexagon_pos::HexagonPos;
use hoi25::world::WorldMap;

fn p(x: i32, y: i32) -> HexagonPos {
    HexagonPos::new(x, y)
}

#[test]
fn empty_map_has_nothing() {
    let m = WorldMap::new();
    assert_eq!(m.len(), 0);
    assert!(!m.contains_key(p(0, 0)));
    assert_eq!(m.get(p(0, 0)), None);
    assert_eq!(m.find(p(0, 0)), None);
}

#[test]
fn insert_then_find() {
    let mut m = WorldMap::new();
    m.insert(p(1, 2), 10, Some(100));
    m.insert(p(-1, 2), 11, None);
    assert_eq!(m.len(), 2);
    assert_eq!(m.find(p(1, 2)), Some(0));
    assert_eq!(m.find(p(-1, 2)), Some(1));
    assert_eq!(m.get(p(-1, 2)), Some(11));
    assert!(m.contains_key(p(1, 2)));
    assert!(!m.contains_key(p(2, 1)));
    assert_eq!(m.province(0).owner, Some(100));
    assert_eq!(m.province(1).owner, None);
}

#[test]
fn insert_again_replaces() {
    let mut m = WorldMap::new();
    m.insert(p(1, 2), 10, Some(100));
    m.insert(p(1, 2), 12, Some(200));
    assert_eq!(m.len(), 1);
    assert_eq!(m.get(p(1, 2)), Some(12));
    assert_eq!(m.province(0).owner, Some(200));
}

#[test]
fn capture_changes_owner_only() {
    let mut m = WorldMap::new();
    m.insert(p(0, 0), 10, Some(100));
    m.insert(p(0, 1), 11, Some(100));
    m.capture(p(0, 1), 200);
    assert_eq!(m.province(1).owner, Some(200));
    assert_eq!(m.province(1).entity, 11);
    assert_eq!(m.province(0).owner, Some(100));
    m.capture(p(0, 1), 200);
    assert_eq!(m.province(1).owner, Some(200));
    m.set_owner(p(0, 0), None);
    assert_eq!(m.province(0).owner, None);
}
