use hoi25::hexagon_pos::HexagonPos;
use hoi25::movement::{end_moving, process_moving, MoveOutcome, MovingOrder, Path, Step};

fn p(x: i32, y: i32) -> HexagonPos {
    HexagonPos::new(x, y)
}

#[test]
fn blocked_division_stays() {
    let mut path = Path { provs: vec![p(2, 0), p(1, 0)], progress: 0 };
    let mut pos = p(0, 0);
    let out = process_moving(&mut path, &mut pos, true);
    assert_eq!(out, MoveOutcome { moved: None, finished: false });
    assert_eq!(pos, p(0, 0));
    assert_eq!(path.provs, vec![p(2, 0), p(1, 0)]);
    assert_eq!(path.progress, 0);
}

#[test]
fn step_takes_the_last_entry() {
    let mut path = Path { provs: vec![p(2, 0), p(1, 0)], progress: 0 };
    let mut pos = p(0, 0);
    let out = process_moving(&mut path, &mut pos, false);
    assert_eq!(out, MoveOutcome { moved: Some(Step { from: p(0, 0), to: p(1, 0) }), finished: false });
    assert_eq!(pos, p(1, 0));
    assert_eq!(path.provs, vec![p(2, 0)]);
    assert!(!end_moving(&path));
    let out = process_moving(&mut path, &mut pos, false);
    assert_eq!(out, MoveOutcome { moved: Some(Step { from: p(1, 0), to: p(2, 0) }), finished: true });
    assert!(end_moving(&path));
}

#[test]
fn progress_beyond_the_distance_only_counts() {
    let mut path = Path { provs: vec![p(1, 0)], progress: 3 };
    let mut pos = p(0, 0);
    let out = process_moving(&mut path, &mut pos, false);
    assert_eq!(out, MoveOutcome { moved: None, finished: false });
    assert_eq!(path.progress, 4);
    assert_eq!(pos, p(0, 0));
}

#[test]
fn moving_order_holds_destination() {
    let o = MovingOrder { to: p(4, -2) };
    assert_eq!(o.to, p(4, -2));
}
