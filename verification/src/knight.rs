//! A concrete search space: knight moves on an integer grid, with a
//! Manhattan-distance-derived heuristic towards a fixed target square.

use crate::engine::admissible_heuristic;
use crate::engine::consistent_heuristic;
use crate::engine::has_edge;
use crate::engine::lemma_consistent_implies_admissible;
use crate::engine::SearchProblem;
use vstd::prelude::*;

verus! {

/// Coordinates this far from the origin (in either axis) still have all
/// eight knight moves representable in an `i32`.
pub const COORD_LIMIT: i32 = 0x7fff_fffd;

/// The absolute difference `|x - y|`, as a mathematical integer.
pub open spec fn abs_diff_spec(x: int, y: int) -> int {
    if x < y {
        y - x
    } else {
        x - y
    }
}

/// The absolute difference of two machine integers.
pub fn abs_sub(x: i32, y: i32) -> (r: i32)
    requires
        abs_diff_spec(x as int, y as int) <= i32::MAX,
    ensures
        r == abs_diff_spec(x as int, y as int),
{
    if x < y {
        y - x
    } else {
        x - y
    }
}

/// A square of the grid.
#[derive(Clone, Copy, Debug, Hash, PartialEq, Eq, Structural)]
pub struct Pos(pub i32, pub i32);

impl Pos {
    /// The Manhattan distance between two squares.
    pub open spec fn spec_distance(self, other: Pos) -> int {
        abs_diff_spec(self.0 as int, other.0 as int) + abs_diff_spec(self.1 as int, other.1 as int)
    }

    pub fn distance(&self, other: &Pos) -> (r: u32)
        requires
            self.spec_distance(*other) <= i32::MAX,
        ensures
            r == self.spec_distance(*other),
    {
        (abs_sub(self.0, other.0) + abs_sub(self.1, other.1)) as u32
    }

    /// The square is far enough from the `i32` boundary that every knight
    /// move from it is representable.
    pub open spec fn in_board(self) -> bool {
        &&& -COORD_LIMIT <= self.0 <= COORD_LIMIT
        &&& -COORD_LIMIT <= self.1 <= COORD_LIMIT
    }

    /// The eight knight moves from this square, each of cost 1.
    pub open spec fn spec_moves(self) -> Seq<(Pos, u32)> {
        seq![
            (Pos((self.0 + 1) as i32, (self.1 + 2) as i32), 1u32),
            (Pos((self.0 + 1) as i32, (self.1 - 2) as i32), 1u32),
            (Pos((self.0 - 1) as i32, (self.1 + 2) as i32), 1u32),
            (Pos((self.0 - 1) as i32, (self.1 - 2) as i32), 1u32),
            (Pos((self.0 + 2) as i32, (self.1 + 1) as i32), 1u32),
            (Pos((self.0 + 2) as i32, (self.1 - 1) as i32), 1u32),
            (Pos((self.0 - 2) as i32, (self.1 + 1) as i32), 1u32),
            (Pos((self.0 - 2) as i32, (self.1 - 1) as i32), 1u32),
        ]
    }

    /// The knight moves from this square, with the cost of each.
    pub fn moves(&self) -> (r: Vec<(Pos, u32)>)
        requires
            self.in_board(),
        ensures
            r@ == self.spec_moves(),
    {
        let Pos(x, y) = *self;
        let mut r: Vec<(Pos, u32)> = Vec::new();
        r.push((Pos(x + 1, y + 2), 1));
        r.push((Pos(x + 1, y - 2), 1));
        r.push((Pos(x - 1, y + 2), 1));
        r.push((Pos(x - 1, y - 2), 1));
        r.push((Pos(x + 2, y + 1), 1));
        r.push((Pos(x + 2, y - 1), 1));
        r.push((Pos(x - 2, y + 1), 1));
        r.push((Pos(x - 2, y - 1), 1));
        proof {
            assert(r@ =~= self.spec_moves());
        }
        r
    }
}

/// The knight's-move search space: knight moves of cost 1 towards a fixed
/// target square, with the Manhattan distance to the target divided by 3
/// as the heuristic — proved consistent below, so searches over this
/// space return minimum-cost paths.
pub struct KnightProblem {
    pub target: Pos,
}

impl SearchProblem<Pos> for KnightProblem {
    open spec fn spec_successors(&self, n: Pos) -> Seq<(Pos, u64)> {
        if n.in_board() {
            n.spec_moves().map_values(|pc: (Pos, u32)| (pc.0, pc.1 as u64))
        } else {
            Seq::empty()
        }
    }

    open spec fn spec_heuristic(&self, n: Pos) -> u64 {
        (n.spec_distance(self.target) / 3) as u64
    }

    open spec fn spec_is_goal(&self, n: Pos) -> bool {
        n == self.target
    }

    fn successors(&self, n: Pos) -> (r: Vec<(Pos, u64)>) {
        let mut out: Vec<(Pos, u64)> = Vec::new();
        if -COORD_LIMIT <= n.0 && n.0 <= COORD_LIMIT && -COORD_LIMIT <= n.1 && n.1 <= COORD_LIMIT {
            let ms = n.moves();
            let mut i: usize = 0;
            while i < ms.len()
                invariant
                    ms@ == n.spec_moves(),
                    i <= ms@.len(),
                    out@.len() == i,
                    forall|k: int|
                        0 <= k < i ==> (#[trigger] out@[k]) == (ms@[k].0, ms@[k].1 as u64),
                decreases ms@.len() - i,
            {
                let m = ms[i];
                out.push((m.0, m.1 as u64));
                i += 1;
            }
            proof {
                assert(out@ =~= self.spec_successors(n));
            }
        } else {
            proof {
                assert(out@ =~= self.spec_successors(n));
            }
        }
        out
    }

    fn heuristic(&self, n: Pos) -> (r: u64) {
        let dx: i64 = if n.0 < self.target.0 {
            (self.target.0 as i64) - (n.0 as i64)
        } else {
            (n.0 as i64) - (self.target.0 as i64)
        };
        let dy: i64 = if n.1 < self.target.1 {
            (self.target.1 as i64) - (n.1 as i64)
        } else {
            (n.1 as i64) - (self.target.1 as i64)
        };
        ((dx + dy) as u64) / 3
    }

    fn is_goal(&self, n: Pos) -> (r: bool) {
        n == self.target
    }

    fn same_node(&self, a: Pos, b: Pos) -> (r: bool) {
        a == b
    }
}

/// A knight move changes the Manhattan distance to any fixed square by at
/// most three, so dividing that distance by three yields a consistent
/// heuristic: along any successor edge the estimate falls by at most the
/// edge's cost, and it vanishes at the target.
pub proof fn lemma_knight_heuristic_consistent(kp: &KnightProblem)
    ensures
        consistent_heuristic(kp),
{
    assert forall|a: Pos, b: Pos, c: u64|
        #[trigger] has_edge(kp, a, b, c) implies kp.spec_heuristic(a) <= c + kp.spec_heuristic(
        b,
    ) by {
        let sm = kp.spec_successors(a);
        let k = choose|k: int| 0 <= k < sm.len() && sm[k] == (b, c);
        assert(a.in_board());
        let mv = a.spec_moves()[k];
        assert(sm[k] == (mv.0, mv.1 as u64));
        if k == 0 {
            assert(mv == (Pos((a.0 + 1) as i32, (a.1 + 2) as i32), 1u32));
        } else if k == 1 {
            assert(mv == (Pos((a.0 + 1) as i32, (a.1 - 2) as i32), 1u32));
        } else if k == 2 {
            assert(mv == (Pos((a.0 - 1) as i32, (a.1 + 2) as i32), 1u32));
        } else if k == 3 {
            assert(mv == (Pos((a.0 - 1) as i32, (a.1 - 2) as i32), 1u32));
        } else if k == 4 {
            assert(mv == (Pos((a.0 + 2) as i32, (a.1 + 1) as i32), 1u32));
        } else if k == 5 {
            assert(mv == (Pos((a.0 + 2) as i32, (a.1 - 1) as i32), 1u32));
        } else if k == 6 {
            assert(mv == (Pos((a.0 - 2) as i32, (a.1 + 1) as i32), 1u32));
        } else {
            assert(k == 7);
            assert(mv == (Pos((a.0 - 2) as i32, (a.1 - 1) as i32), 1u32));
        }
        assert(c == 1);
        let da = a.spec_distance(kp.target);
        let db = b.spec_distance(kp.target);
        assert(da <= db + 3);
        vstd::arithmetic::div_mod::lemma_div_is_ordered(da, db + 3, 3);
        vstd::arithmetic::div_mod::lemma_div_plus_one(db, 3);
        assert(da / 3 <= db / 3 + 1);
    }
    assert forall|g: Pos| #[trigger] kp.spec_is_goal(g) implies kp.spec_heuristic(g) == 0 by {
        assert(g.spec_distance(kp.target) == 0);
    }
}

/// The knight heuristic, being consistent, in particular never
/// overestimates the cost of any walk to the target — the hypothesis
/// under which the engine promises minimum-cost results.
pub proof fn lemma_knight_heuristic_admissible(kp: &KnightProblem)
    ensures
        admissible_heuristic(kp),
{
    lemma_knight_heuristic_consistent(kp);
    lemma_consistent_implies_admissible(kp);
}

} // verus!
