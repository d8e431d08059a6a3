use hoi25::economy::{gain_money, MONEY_PER_HOUR};
use hoi25::hexagon_pos::HexagonPos;
use hoi25::world::WorldMap;
use std::collections::HashMap;

#[test]
fn every_owned_province_yields_to_its_owner() {
    let mut m = WorldMap::new();
    m.insert(HexagonPos::new(0, 0), 0, Some(1));
    m.insert(HexagonPos::new(1, 0), 1, Some(1));
    m.insert(HexagonPos::new(2, 0), 2, Some(2));
    m.insert(HexagonPos::new(3, 0), 3, None);
    let mut money = HashMap::new();
    money.insert(1u64, 10usize);
    money.insert(2u64, 0usize);
    money.insert(3u64, 5usize);
    gain_money(&m, &mut money);
    assert_eq!(MONEY_PER_HOUR, 1);
    assert_eq!(money[&1], 12);
    assert_eq!(money[&2], 1);
    assert_eq!(money[&3], 5);
    assert_eq!(money.len(), 3);
    gain_money(&m, &mut money);
    assert_eq!(money[&1], 14);
}
