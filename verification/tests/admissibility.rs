use a_star::engine::astar;
use a_star::knight::{KnightProblem, Pos};
use std::collections::HashMap;
use std::collections::VecDeque;

const OFFSETS: [(i32, i32); 8] = [
    (1, 2),
    (1, -2),
    (-1, 2),
    (-1, -2),
    (2, 1),
    (2, -1),
    (-2, 1),
    (-2, -1),
];

/// Brute-force breadth-first search over a small board, as an independent
/// reference for the minimal number of knight moves from the origin.
fn bfs_distances(limit: i32) -> HashMap<(i32, i32), u64> {
    let mut dist: HashMap<(i32, i32), u64> = HashMap::new();
    let mut queue: VecDeque<(i32, i32)> = VecDeque::new();
    dist.insert((0, 0), 0);
    queue.push_back((0, 0));
    while let Some((x, y)) = queue.pop_front() {
        let d = dist[&(x, y)];
        for &(dx, dy) in OFFSETS.iter() {
            let n = (x + dx, y + dy);
            if n.0.abs() <= limit && n.1.abs() <= limit && !dist.contains_key(&n) {
                dist.insert(n, d + 1);
                queue.push_back(n);
            }
        }
    }
    dist
}

#[test]
fn engine_matches_brute_force_on_small_boards() {
    let dist = bfs_distances(16);
    for tx in -3..=3 {
        for ty in -3..=3 {
            let expected = dist[&(tx, ty)];
            let problem = KnightProblem { target: Pos(tx, ty) };
            let (path, cost) = astar(&problem, Pos(0, 0)).expect("a path must exist");
            assert_eq!(cost, expected, "target ({tx}, {ty})");
            assert_eq!(path.last().copied(), Some(Pos(tx, ty)));
        }
    }
}

#[test]
fn heuristic_never_overestimates_on_small_boards() {
    let dist = bfs_distances(16);
    for tx in -4..=4 {
        for ty in -4..=4 {
            let true_moves = dist[&(tx, ty)];
            let manhattan = (tx as i64).unsigned_abs() + (ty as i64).unsigned_abs();
            assert!(
                manhattan / 3 <= true_moves,
                "heuristic overestimates at ({tx}, {ty})"
            );
        }
    }
}
