use a_star::engine::astar;
use a_star::engine::astar_bounded;
use a_star::engine::SearchOutcome;
use a_star::engine::SearchProblem;
use a_star::knight::{abs_sub, KnightProblem, Pos};

/// The eight knight offsets, matching the library's successor function.
const OFFSETS: [(i32, i32); 8] = [
    (1, 2),
    (1, -2),
    (-1, 2),
    (-1, -2),
    (2, 1),
    (2, -1),
    (-2, 1),
    (-2, -1),
];

fn is_knight_move(a: Pos, b: Pos) -> bool {
    OFFSETS.iter().any(|&(dx, dy)| b == Pos(a.0 + dx, a.1 + dy))
}

#[test]
fn abs_sub_exact_values() {
    assert_eq!(abs_sub(5, 9), 4);
    assert_eq!(abs_sub(9, 5), 4);
    assert_eq!(abs_sub(-3, 3), 6);
    assert_eq!(abs_sub(7, 7), 0);
}

#[test]
fn distance_exact_values() {
    assert_eq!(Pos(1, 1).distance(&Pos(2, 1)), 1);
    assert_eq!(Pos(0, 0).distance(&Pos(3, -4)), 7);
    assert_eq!(Pos(-2, 5).distance(&Pos(-2, 5)), 0);
}

#[test]
fn moves_are_the_eight_knight_moves() {
    let ms = Pos(0, 0).moves();
    assert_eq!(ms.len(), 8);
    for &(p, c) in ms.iter() {
        assert_eq!(c, 1);
        assert!(is_knight_move(Pos(0, 0), p));
    }
    for &(dx, dy) in OFFSETS.iter() {
        assert!(ms.iter().any(|&(p, _)| p == Pos(dx, dy)));
    }
}

#[test]
fn heuristic_and_goal_exact_values() {
    let p = KnightProblem { target: Pos(3, 4) };
    assert_eq!(p.heuristic(Pos(0, 0)), 2);
    assert_eq!(p.heuristic(Pos(3, 4)), 0);
    assert_eq!(p.heuristic(Pos(4, 4)), 0);
    assert!(p.is_goal(Pos(3, 4)));
    assert!(!p.is_goal(Pos(0, 0)));
}

#[test]
fn successors_at_coordinate_edge_are_empty() {
    let p = KnightProblem { target: Pos(0, 0) };
    assert!(p.successors(Pos(i32::MAX, 0)).is_empty());
    assert_eq!(p.successors(Pos(0, 0)).len(), 8);
}

#[test]
fn knight_scenario_one_one_to_two_one() {
    let problem = KnightProblem { target: Pos(2, 1) };
    let (path, cost) = astar(&problem, Pos(1, 1)).expect("a path must exist");
    assert_eq!(path.first().copied(), Some(Pos(1, 1)));
    assert_eq!(path.last().copied(), Some(Pos(2, 1)));
    // The shortest knight route for a one-square horizontal offset takes
    // three moves.
    assert_eq!(cost, 3);
    assert_eq!(path.len() as u64, cost + 1);
    for w in path.windows(2) {
        assert!(is_knight_move(w[0], w[1]));
    }
}

#[test]
fn start_satisfying_goal_returns_immediately() {
    let problem = KnightProblem { target: Pos(5, 5) };
    let (path, cost) = astar(&problem, Pos(5, 5)).expect("the start is the goal");
    assert_eq!(path, vec![Pos(5, 5)]);
    assert_eq!(cost, 0);
}

#[test]
fn unreachable_goal_returns_none() {
    // A start square at the very edge of the coordinate range has no
    // representable knight moves, so nothing is reachable from it.
    let problem = KnightProblem { target: Pos(0, 0) };
    assert_eq!(astar(&problem, Pos(i32::MAX, 0)), None);
}

#[test]
fn bounded_search_reports_each_outcome() {
    let problem = KnightProblem { target: Pos(2, 1) };
    match astar_bounded(&problem, Pos(1, 1), 1_000_000) {
        SearchOutcome::Found(path, cost) => {
            assert_eq!(cost, 3);
            assert_eq!(path.first().copied(), Some(Pos(1, 1)));
            assert_eq!(path.last().copied(), Some(Pos(2, 1)));
        }
        _ => panic!("a reachable goal must be found within a generous budget"),
    }
    // A budget of one expansion only pops the start before giving up.
    assert!(matches!(
        astar_bounded(&problem, Pos(1, 1), 1),
        SearchOutcome::OutOfBudget
    ));
    // Even a start that is itself the goal needs one expansion to notice.
    assert!(matches!(
        astar_bounded(&problem, Pos(2, 1), 0),
        SearchOutcome::OutOfBudget
    ));
    // From a square with no representable moves the frontier runs empty.
    let far = KnightProblem { target: Pos(0, 0) };
    assert!(matches!(
        astar_bounded(&far, Pos(i32::MAX, 0), 1_000),
        SearchOutcome::Exhausted
    ));
}

#[test]
fn identical_calls_agree() {
    let problem = KnightProblem { target: Pos(7, 4) };
    let first = astar(&problem, Pos(0, 0));
    let second = astar(&problem, Pos(0, 0));
    assert_eq!(first, second);
    let (path, cost) = first.expect("a path must exist");
    assert_eq!(path.first().copied(), Some(Pos(0, 0)));
    assert_eq!(path.last().copied(), Some(Pos(7, 4)));
    assert_eq!(path.len() as u64, cost + 1);
    for w in path.windows(2) {
        assert!(is_knight_move(w[0], w[1]));
    }
}
