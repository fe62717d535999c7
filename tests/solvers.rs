use fun_with_mazes::{astar, flood, solve, Alg, Dir, Field, Maze, Outcome, ANY, LEFT, UP};

fn rows(lines: &[&str]) -> Vec<Vec<u8>> {
    lines.iter().map(|l| l.as_bytes().to_vec()).collect()
}

fn both(width: usize, height: usize, lines: &[&str]) -> (Option<Outcome>, Option<Outcome>) {
    let r = rows(lines);
    (
        solve(width, height, &r, Alg::Flood),
        solve(width, height, &r, Alg::AStar),
    )
}

fn seeded(width: usize, height: usize, lines: &[&str]) -> Maze {
    let mut m = Maze::from_input(width, height, &rows(lines)).unwrap();
    assert!(m.set_field(0, 1, Field::Calculated(Dir::from_bits(ANY), 0)));
    m
}

#[test]
fn from_input_reads_fields() {
    let m = Maze::from_input(3, 2, &rows(&["101", "011"])).unwrap();
    assert_eq!(m.width_of(), 3);
    assert_eq!(m.len(), 6);
    assert_eq!(m.field(0, 0), Field::Empty);
    assert_eq!(m.field(1, 0), Field::Wall);
    assert_eq!(m.field(0, 1), Field::Wall);
    assert_eq!(m.field(2, 1), Field::Empty);
}

#[test]
fn from_input_ignores_trailing_characters() {
    let m = Maze::from_input(2, 2, &rows(&["10xyz", "01"])).unwrap();
    assert_eq!(m.len(), 4);
    assert_eq!(m.field(0, 0), Field::Empty);
    assert_eq!(m.field(1, 1), Field::Empty);
}

#[test]
fn from_input_rejects_malformed() {
    assert!(Maze::from_input(3, 2, &rows(&["101", "021"])).is_none());
    assert!(Maze::from_input(3, 2, &rows(&["101", "01"])).is_none());
    assert!(Maze::from_input(3, 2, &rows(&["101"])).is_none());
    assert!(Maze::from_input(0, 2, &rows(&["", ""])).is_none());
    assert!(Maze::from_input(3, 0, &rows(&[])).is_none());
}

#[test]
fn outside_is_wall() {
    let m = Maze::from_input(2, 2, &rows(&["11", "11"])).unwrap();
    assert_eq!(m.field(2, 0), Field::Wall);
    assert_eq!(m.field(0, 2), Field::Wall);
    assert_eq!(m.field(usize::MAX, usize::MAX), Field::Wall);
    assert_eq!(m.field(usize::MAX, 0), Field::Wall);
}

#[test]
fn set_field_outside_changes_nothing() {
    let mut m = Maze::from_input(2, 2, &rows(&["11", "11"])).unwrap();
    assert!(!m.set_field(2, 0, Field::Wall));
    assert_eq!(m.field(0, 1), Field::Empty);
    assert!(m.set_field(1, 1, Field::Wall));
    assert_eq!(m.field(1, 1), Field::Wall);
}

#[test]
fn corridor_with_walled_exit_is_invalid() {
    // The exit (4, 1) of `00000/01110/00000` is a '0'.
    assert_eq!(
        both(5, 3, &["00000", "01110", "00000"]),
        (Some(Outcome::Invalid), Some(Outcome::Invalid))
    );
}

#[test]
fn straight_corridor_costs_no_turn() {
    assert_eq!(
        both(5, 3, &["00000", "11111", "00000"]),
        (Some(Outcome::Cost(0)), Some(Outcome::Cost(0)))
    );
}

#[test]
fn l_shaped_corridor_costs_one_turn() {
    assert_eq!(
        both(3, 5, &["000", "111", "001", "001", "000"]),
        (Some(Outcome::Cost(1)), Some(Outcome::Cost(1)))
    );
}

#[test]
fn two_turns() {
    assert_eq!(
        both(4, 5, &["0000", "1100", "0100", "0111", "0000"]),
        (Some(Outcome::Cost(2)), Some(Outcome::Cost(2)))
    );
}

#[test]
fn exit_on_wall_is_invalid() {
    assert_eq!(
        both(4, 4, &["0000", "1110", "0110", "0000"]),
        (Some(Outcome::Invalid), Some(Outcome::Invalid))
    );
}

#[test]
fn partitioned_exit_is_unreachable() {
    assert_eq!(
        both(4, 4, &["0000", "1101", "1101", "0000"]),
        (Some(Outcome::Unreachable), Some(Outcome::Unreachable))
    );
}

#[test]
fn malformed_input_gives_none() {
    assert_eq!(both(3, 3, &["000", "1a1", "000"]), (None, None));
    assert_eq!(both(3, 1, &["111"]), (None, None));
}

#[test]
fn entry_equal_to_exit() {
    // Width 1, height 3: the exit (0, 1) is the entry, seeded with cost 0.
    assert_eq!(
        both(1, 3, &["0", "0", "0"]),
        (Some(Outcome::Cost(0)), Some(Outcome::Cost(0)))
    );
}

#[test]
fn equal_routes_merge_directions() {
    let lines = ["111", "111", "111", "111"];
    // An exit outside the maze is never reached: both solvers run until closed.
    for m in [
        flood(seeded(3, 4, &lines), 100, 100),
        astar(seeded(3, 4, &lines), 100, 100),
    ] {
        assert_eq!(m.field(1, 2), Field::Calculated(Dir::from_bits(UP | LEFT), 1));
        assert_eq!(m.field(2, 2), Field::Calculated(Dir::from_bits(UP | LEFT), 1));
        assert_eq!(m.field(1, 1), Field::Calculated(Dir::from_bits(LEFT), 0));
    }
}

#[test]
fn closed_grid_is_unchanged() {
    let lines = ["111", "101", "111", "111"];
    let once = flood(seeded(3, 4, &lines), 100, 100);
    let cells: Vec<Field> = (0..4)
        .flat_map(|y| (0..3).map(move |x| (x, y)))
        .map(|(x, y)| once.field(x, y))
        .collect();
    let again_flood = flood(once, 100, 100);
    let again_astar = astar(flood(seeded(3, 4, &lines), 100, 100), 100, 100);
    for (i, c) in cells.iter().enumerate() {
        assert_eq!(again_flood.field(i % 3, i / 3), *c);
        assert_eq!(again_astar.field(i % 3, i / 3), *c);
    }
}

#[test]
fn flood_iteration_never_raises_cost() {
    let lines = ["1111", "1011", "1101", "1111"];
    let mut m = seeded(4, 4, &lines);
    let mut out = Vec::new();
    let mut updates = Vec::new();
    for _ in 0..6 {
        fun_with_mazes::iteration(&m, &mut out, &mut updates);
        let mut next = Maze::from_input(4, 4, &rows(&lines)).unwrap();
        for (i, f) in out.iter().enumerate() {
            let before = m.field(i % 4, i / 4);
            if let (Field::Calculated(_, old), Field::Calculated(_, new)) = (before, *f) {
                assert!(new <= old);
            }
            if let Field::Calculated(_, _) = before {
                assert!(matches!(f, Field::Calculated(_, _)));
            }
            assert!(next.set_field(i % 4, i / 4, *f));
        }
        m = next;
    }
}

fn lcg(state: &mut u64) -> u64 {
    *state = state.wrapping_mul(6364136223846793005).wrapping_add(1442695040888963407);
    *state >> 33
}

#[test]
fn solvers_agree_on_random_mazes() {
    let mut state = 7u64;
    for _ in 0..200 {
        let (w, h) = (7usize, 6usize);
        let mut lines: Vec<String> = Vec::new();
        for y in 0..h {
            let mut line = String::new();
            for x in 0..w {
                let open = (x == w - 1 && y == h - 2) || lcg(&mut state) % 100 < 65;
                line.push(if open { '1' } else { '0' });
            }
            lines.push(line);
        }
        let refs: Vec<&str> = lines.iter().map(|s| s.as_str()).collect();
        let (f, a) = both(w, h, &refs);
        assert_eq!(f, a, "maze {:?}", lines);
    }
}

#[test]
fn rerun_after_early_stop_goes_on() {
    // The flood stops once the exit (3, 2) has cost 2; field (3, 3) beyond it
    // is still open, so the grid is not closed and a second run reaches it.
    let lines = ["0000", "1110", "0111", "0001"];
    let first = flood(seeded(4, 4, &lines), 3, 2);
    assert_eq!(first.field(3, 2), Field::Calculated(Dir::from_bits(LEFT), 2));
    assert_eq!(first.field(3, 3), Field::Empty);
    let again = flood(first, 3, 2);
    assert_eq!(again.field(3, 3), Field::Calculated(Dir::from_bits(UP), 3));
}
