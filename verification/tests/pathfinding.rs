use hoi25::hexagon_pos::HexagonPos;
use hoi25::movement::{process_moving, Path, PROV_DISTANCE};
use hoi25::pathfinding::calculate_path;
use hoi25::world::WorldMap;

fn p(x: i32, y: i32) -> HexagonPos {
    HexagonPos::new(x, y)
}

fn map_of(cells: &[HexagonPos]) -> WorldMap {
    let mut m = WorldMap::new();
    for (i, c) in cells.iter().enumerate() {
        m.insert(*c, i as u64, Some(1));
    }
    m
}

fn check_way(m: &WorldMap, from: HexagonPos, to: HexagonPos, path: &[HexagonPos]) {
    assert_eq!(path[0], to);
    assert!(from.neighbours().contains(path.last().unwrap()));
    for w in path.windows(2) {
        assert!(w[1].neighbours().contains(&w[0]));
    }
    for c in path {
        assert!(m.contains_key(*c));
        assert_ne!(*c, from);
    }
}

#[test]
fn straight_row() {
    let cells: Vec<_> = (0..6).map(|x| p(x, 0)).collect();
    let m = map_of(&cells);
    let path = calculate_path(&m, p(0, 0), p(5, 0)).unwrap();
    assert_eq!(path, vec![p(5, 0), p(4, 0), p(3, 0), p(2, 0), p(1, 0)]);
    check_way(&m, p(0, 0), p(5, 0), &path);
}

#[test]
fn neighbour_is_one_step() {
    let m = map_of(&[p(0, 0), p(1, 0)]);
    assert_eq!(calculate_path(&m, p(0, 0), p(1, 0)), Some(vec![p(1, 0)]));
}

#[test]
fn no_way_to_self() {
    let cells: Vec<_> = (0..3).map(|x| p(x, 0)).collect();
    let m = map_of(&cells);
    assert_eq!(calculate_path(&m, p(1, 0), p(1, 0)), None);
}

#[test]
fn no_way_across_a_gap() {
    let m = map_of(&[p(0, 0), p(1, 0), p(3, 0), p(4, 0)]);
    assert_eq!(calculate_path(&m, p(0, 0), p(4, 0)), None);
}

#[test]
fn no_way_outside_the_map() {
    let cells: Vec<_> = (0..3).map(|x| p(x, 0)).collect();
    let m = map_of(&cells);
    assert_eq!(calculate_path(&m, p(0, 0), p(9, 9)), None);
}

#[test]
fn start_outside_the_map() {
    let m = map_of(&[p(1, 0), p(2, 0), p(3, 0)]);
    let path = calculate_path(&m, p(0, 0), p(3, 0)).unwrap();
    check_way(&m, p(0, 0), p(3, 0), &path);
    assert_eq!(path.len(), 3);
}

#[test]
fn way_around_an_obstacle() {
    // a 5x5 block with the middle column missing except at the bottom row
    let mut cells = Vec::new();
    for x in 0..5 {
        for y in 0..5 {
            if x != 2 || y == 4 {
                cells.push(p(x, y));
            }
        }
    }
    let m = map_of(&cells);
    let path = calculate_path(&m, p(0, 0), p(4, 0)).unwrap();
    check_way(&m, p(0, 0), p(4, 0), &path);
    assert!(path.contains(&p(2, 4)));
    let mut sorted = path.clone();
    sorted.sort_by_key(|c| (c.x, c.y));
    sorted.dedup();
    assert_eq!(sorted.len(), path.len());
}

#[test]
fn a_division_following_its_way_arrives() {
    let mut cells = Vec::new();
    for x in -3..4 {
        for y in -3..4 {
            cells.push(p(x, y));
        }
    }
    let m = map_of(&cells);
    let from = p(-3, 2);
    let to = p(3, -3);
    let provs = calculate_path(&m, from, to).unwrap();
    let steps = provs.len();
    let mut path = Path { provs, progress: 0 };
    let mut pos = from;
    let mut taken = 0;
    loop {
        let before = pos;
        let outcome = process_moving(&mut path, &mut pos, false);
        let step = outcome.moved.unwrap();
        assert_eq!(step.from, before);
        assert_eq!(step.to, pos);
        assert!(before.neighbours().contains(&pos));
        taken += 1;
        if outcome.finished {
            break;
        }
    }
    assert_eq!(PROV_DISTANCE, 1);
    assert_eq!(taken, steps);
    assert_eq!(pos, to);
    assert!(path.provs.is_empty());
}
