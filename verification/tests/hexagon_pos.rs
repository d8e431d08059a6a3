use hoi25::hexagon_pos::HexagonPos;

fn p(x: i32, y: i32) -> HexagonPos {
    HexagonPos::new(x, y)
}

#[test]
fn new_keeps_coordinates() {
    let h = HexagonPos::new(-7, 12);
    assert_eq!(h.x, -7);
    assert_eq!(h.y, 12);
}

#[test]
fn neighbours_of_even_column() {
    assert_eq!(
        p(2, 3).neighbours(),
        [p(2, 2), p(3, 2), p(3, 3), p(2, 4), p(1, 3), p(1, 2)]
    );
}

#[test]
fn neighbours_of_odd_column() {
    assert_eq!(
        p(3, 3).neighbours(),
        [p(3, 2), p(4, 3), p(4, 4), p(3, 4), p(2, 4), p(2, 3)]
    );
}

#[test]
fn neighbours_of_negative_odd_column() {
    assert_eq!(
        p(-1, 0).neighbours(),
        [p(-1, -1), p(0, 0), p(0, 1), p(-1, 1), p(-2, 1), p(-2, 0)]
    );
}

#[test]
fn neighbourhood_is_symmetric() {
    for c in [p(0, 0), p(5, -3), p(-4, 7), p(-3, -3)] {
        let ns = c.neighbours();
        for n in ns {
            assert!(n.neighbours().contains(&c));
            assert_ne!(n, c);
        }
        for i in 0..6 {
            for j in 0..6 {
                if i != j {
                    assert_ne!(ns[i], ns[j]);
                }
            }
        }
    }
}

#[test]
fn add_is_componentwise() {
    assert_eq!(p(3, -4) + p(-1, 10), p(2, 6));
}

#[test]
fn manhattan_dist_values() {
    assert_eq!(p(0, 0).manhattan_dist(p(3, -4)), 7);
    assert_eq!(p(3, -4).manhattan_dist(p(0, 0)), 7);
    assert_eq!(p(5, 5).manhattan_dist(p(5, 5)), 0);
    assert_eq!(
        p(i32::MIN, i32::MIN).manhattan_dist(p(i32::MAX, i32::MAX)),
        2 * (u32::MAX as u64)
    );
}

#[test]
fn keys_tell_cells_apart() {
    assert_eq!(p(0, 0).key(), 0x8000_0000_8000_0000);
    assert_ne!(p(1, 0).key(), p(0, 1).key());
    assert_ne!(p(-1, 0).key(), p(0, -1).key());
    assert_eq!(p(i32::MIN, i32::MIN).key(), 0);
    assert_eq!(p(i32::MAX, i32::MAX).key(), u64::MAX);
}
