use hoi25::hexagon_pos::HexagonPos;
use hoi25::map_file::{format_hexagon_key, parse_hexagon_key, parse_i32};

#[test]
fn parse_i32_like_std() {
    for s in ["0", "7", "-7", "+7", "007", "-0", "2147483647", "-2147483648", "", "+", "-", "1a", " 1", "1 ", "2147483648", "-2147483649", "99999999999", "--1", "+-1"] {
        assert_eq!(parse_i32(s.as_bytes()), s.parse::<i32>().ok(), "{s}");
    }
}

#[test]
fn key_turns_row_upside_down() {
    assert_eq!(parse_hexagon_key(b"3,4"), Some(HexagonPos::new(3, -4)));
    assert_eq!(parse_hexagon_key(b"-12,+5"), Some(HexagonPos::new(-12, -5)));
    assert_eq!(parse_hexagon_key(b"0,-9"), Some(HexagonPos::new(0, 9)));
}

#[test]
fn malformed_keys() {
    assert_eq!(parse_hexagon_key(b"34"), None);
    assert_eq!(parse_hexagon_key(b""), None);
    assert_eq!(parse_hexagon_key(b",4"), None);
    assert_eq!(parse_hexagon_key(b"3,"), None);
    assert_eq!(parse_hexagon_key(b"3,4,5"), None);
    assert_eq!(parse_hexagon_key(b"x,4"), None);
    assert_eq!(parse_hexagon_key(b"3,-2147483648"), None);
    assert_eq!(parse_hexagon_key(b"3,2147483648"), None);
    assert_eq!(parse_hexagon_key(b"-2147483648,2147483647"), Some(HexagonPos::new(i32::MIN, -i32::MAX)));
}

#[test]
fn key_text() {
    assert_eq!(format_hexagon_key(HexagonPos::new(3, 4)), b"3,4".to_vec());
    assert_eq!(format_hexagon_key(HexagonPos::new(-30, 0)), b"-30,0".to_vec());
    assert_eq!(
        format_hexagon_key(HexagonPos::new(i32::MIN, i32::MAX)),
        b"-2147483648,2147483647".to_vec()
    );
}

#[test]
fn key_round_trip() {
    for (x, y) in [(0, 0), (3, 4), (-5, 17), (i32::MIN, i32::MAX), (i32::MAX, -i32::MAX), (120, -1)] {
        let text = format_hexagon_key(HexagonPos::new(x, y));
        assert_eq!(text, format!("{},{}", x, y).into_bytes());
        assert_eq!(parse_hexagon_key(&text), Some(HexagonPos::new(x, -y)));
    }
    assert_eq!(parse_hexagon_key(&format_hexagon_key(HexagonPos::new(1, i32::MIN))), None);
}
