//! The A* search engine: the open-set priority discipline, the compact
//! node-record table with index-based parent links, and the lazy-staleness
//! protocol for cost improvements.

use vstd::prelude::*;

verus! {

/// The three behaviours a caller supplies to drive a search, plus a node
/// equality test.  Each executable method is pinned to a specification
/// function, so the engine's contract can speak about the search space
/// itself rather than about one run of the callbacks.
pub trait SearchProblem<N: Copy> {
    /// The successor edges of `n`: each entry is a neighbour together with
    /// the non-negative cost of the edge into it.
    spec fn spec_successors(&self, n: N) -> Seq<(N, u64)>;

    /// The heuristic estimate of the remaining cost from `n` to a goal.
    spec fn spec_heuristic(&self, n: N) -> u64;

    /// Whether `n` satisfies the goal predicate.
    spec fn spec_is_goal(&self, n: N) -> bool;

    fn successors(&self, n: N) -> (r: Vec<(N, u64)>)
        ensures
            r@ == self.spec_successors(n),
    ;

    fn heuristic(&self, n: N) -> (r: u64)
        ensures
            r == self.spec_heuristic(n),
    ;

    fn is_goal(&self, n: N) -> (r: bool)
        ensures
            r == self.spec_is_goal(n),
    ;

    /// Decides equality of two nodes.
    fn same_node(&self, a: N, b: N) -> (r: bool)
        ensures
            r == (a == b),
    ;
}

/// There is an edge from `a` to `b` of cost `c`.
pub open spec fn has_edge<N: Copy, P: SearchProblem<N>>(p: &P, a: N, b: N, c: u64) -> bool {
    p.spec_successors(a).contains((b, c))
}

/// `nodes` is a non-empty walk along successor edges whose edge costs sum
/// to at most `budget`.
pub open spec fn route_within<N: Copy, P: SearchProblem<N>>(
    p: &P,
    nodes: Seq<N>,
    budget: int,
) -> bool
    decreases nodes.len(),
{
    if nodes.len() == 0 {
        false
    } else if nodes.len() == 1 {
        0 <= budget
    } else {
        exists|c: u64|
            has_edge(p, nodes[0], nodes[1], c) && route_within(p, nodes.drop_first(), budget - c)
    }
}

/// A walk within a budget is also a walk within any larger budget.
pub proof fn lemma_route_within_weaken<N: Copy, P: SearchProblem<N>>(
    p: &P,
    nodes: Seq<N>,
    b1: int,
    b2: int,
)
    requires
        route_within(p, nodes, b1),
        b1 <= b2,
    ensures
        route_within(p, nodes, b2),
    decreases nodes.len(),
{
    if nodes.len() > 1 {
        let c = choose|c: u64|
            has_edge(p, nodes[0], nodes[1], c) && route_within(p, nodes.drop_first(), b1 - c);
        lemma_route_within_weaken(p, nodes.drop_first(), b1 - c, b2 - c);
    }
}

/// Prepending an edge to a walk extends the walk, with the budget grown by
/// that edge's cost.
pub proof fn lemma_route_within_prepend<N: Copy, P: SearchProblem<N>>(
    p: &P,
    x: N,
    c: u64,
    nodes: Seq<N>,
    budget: int,
)
    requires
        nodes.len() >= 1,
        has_edge(p, x, nodes[0], c),
        route_within(p, nodes, budget),
    ensures
        route_within(p, seq![x] + nodes, budget + c),
{
    let t = seq![x] + nodes;
    assert(t.drop_first() =~= nodes);
    assert(t[0] == x && t[1] == nodes[0]);
    assert(has_edge(p, t[0], t[1], c) && route_within(p, t.drop_first(), budget + c - c));
}

/// Saturating `u64` addition: the arithmetic with which frontier
/// estimates are formed.
pub open spec fn sat_add(a: u64, b: u64) -> u64 {
    if a + b > u64::MAX {
        u64::MAX
    } else {
        (a + b) as u64
    }
}

/// `tr` is a walk that begins at `start`: a sequence of pairs of a node
/// and the cost of the edge along which it was entered (zero for the
/// start itself), consecutive nodes being joined by successor edges.
pub open spec fn walk_from<N: Copy, P: SearchProblem<N>>(
    p: &P,
    start: N,
    tr: Seq<(N, u64)>,
) -> bool {
    &&& tr.len() >= 1
    &&& tr[0] == (start, 0u64)
    &&& forall|i: int| 1 <= i < tr.len() ==> has_edge(p, tr[i - 1].0, (#[trigger] tr[i]).0, tr[i].1)
}

/// The total edge cost of a walk.
pub open spec fn walk_cost<N: Copy>(tr: Seq<(N, u64)>) -> int
    decreases tr.len(),
{
    if tr.len() == 0 {
        0
    } else {
        walk_cost(tr.drop_last()) + tr.last().1
    }
}

/// The heuristic is consistent: it never exceeds an edge's cost plus the
/// heuristic at the edge's far end, and it vanishes on goal nodes.
pub open spec fn consistent_heuristic<N: Copy, P: SearchProblem<N>>(p: &P) -> bool {
    &&& forall|a: N, b: N, c: u64|
        #[trigger] has_edge(p, a, b, c) ==> p.spec_heuristic(a) <= c + p.spec_heuristic(b)
    &&& forall|g: N| #[trigger] p.spec_is_goal(g) ==> p.spec_heuristic(g) == 0
}

/// The heuristic is admissible: it never overestimates, that is, at any
/// node it is at most the cost of every walk from that node to a goal.
pub open spec fn admissible_heuristic<N: Copy, P: SearchProblem<N>>(p: &P) -> bool {
    forall|n: N, tr: Seq<(N, u64)>|
        #[trigger] walk_from(p, n, tr) && p.spec_is_goal(tr.last().0) ==> p.spec_heuristic(n)
            <= walk_cost(tr)
}

/// Extending a prefix of a walk by one step adds that step's edge cost.
proof fn lemma_walk_cost_take_step<N: Copy>(tr: Seq<(N, u64)>, i: int)
    requires
        0 <= i < tr.len(),
    ensures
        walk_cost(tr.take(i + 1)) == walk_cost(tr.take(i)) + tr[i].1,
{
    assert(tr.take(i + 1).drop_last() =~= tr.take(i));
    assert(tr.take(i + 1).last() == tr[i]);
}

/// A prefix of a walk costs no more than the whole walk.
proof fn lemma_walk_prefix_bound<N: Copy>(tr: Seq<(N, u64)>, j: int)
    requires
        0 <= j <= tr.len(),
    ensures
        walk_cost(tr.take(j)) <= walk_cost(tr),
    decreases tr.len() - j,
{
    if j == tr.len() {
        assert(tr.take(j) =~= tr);
    } else {
        lemma_walk_cost_take_step(tr, j);
        lemma_walk_prefix_bound(tr, j + 1);
    }
}

/// With a consistent heuristic, a prefix's cost plus the heuristic where
/// the prefix ends is bounded by the whole walk's cost plus the heuristic
/// at the walk's end.
proof fn lemma_walk_telescope<N: Copy, P: SearchProblem<N>>(p: &P, start: N, tr: Seq<(N, u64)>, j: int)
    requires
        consistent_heuristic(p),
        walk_from(p, start, tr),
        0 <= j < tr.len(),
    ensures
        walk_cost(tr.take(j + 1)) + p.spec_heuristic(tr[j].0) <= walk_cost(tr) + p.spec_heuristic(
            tr.last().0,
        ),
    decreases tr.len() - j,
{
    if j == tr.len() - 1 {
        assert(tr.take(j + 1) =~= tr);
    } else {
        assert(has_edge(p, tr[j].0, tr[j + 1].0, tr[j + 1].1));
        lemma_walk_cost_take_step(tr, j + 1);
        lemma_walk_telescope(p, start, tr, j + 1);
    }
}

/// A walk's cost splits at any position into the cost of the prefix and
/// the cost of the remaining steps.
proof fn lemma_walk_cost_split<N: Copy>(tr: Seq<(N, u64)>, m: int)
    requires
        0 <= m <= tr.len(),
    ensures
        walk_cost(tr) == walk_cost(tr.take(m)) + walk_cost(tr.skip(m)),
    decreases tr.len(),
{
    if m == tr.len() {
        assert(tr.take(m) =~= tr);
        assert(tr.skip(m) =~= Seq::<(N, u64)>::empty());
        assert(walk_cost(Seq::<(N, u64)>::empty()) == 0);
    } else {
        let d = tr.drop_last();
        lemma_walk_cost_split(d, m);
        assert(d.take(m) =~= tr.take(m));
        assert(d.skip(m) =~= tr.skip(m).drop_last());
        assert(tr.skip(m).last() == tr.last());
    }
}

/// The portion of a goal walk from position `i` on is itself a walk from
/// that position's node to the goal, and costs the whole walk minus the
/// prefix up to `i`.
proof fn lemma_walk_suffix<N: Copy, P: SearchProblem<N>>(p: &P, start: N, tr: Seq<(N, u64)>, i: int)
    requires
        walk_from(p, start, tr),
        0 <= i < tr.len(),
    ensures
        walk_from(p, tr[i].0, seq![(tr[i].0, 0u64)] + tr.skip(i + 1)),
        (seq![(tr[i].0, 0u64)] + tr.skip(i + 1)).last().0 == tr.last().0,
        walk_cost(seq![(tr[i].0, 0u64)] + tr.skip(i + 1)) == walk_cost(tr) - walk_cost(
            tr.take(i + 1),
        ),
{
    let sfx = seq![(tr[i].0, 0u64)] + tr.skip(i + 1);
    lemma_walk_cost_split(tr, i + 1);
    lemma_walk_cost_cons((tr[i].0, 0u64), tr.skip(i + 1));
    assert forall|j: int|
        1 <= j < sfx.len() implies has_edge(p, sfx[j - 1].0, (#[trigger] sfx[j]).0, sfx[j].1) by {
        if j == 1 {
            assert(sfx[0].0 == tr[i].0 && sfx[1] == tr[i + 1]);
        } else {
            assert(sfx[j] == tr[i + j] && sfx[j - 1] == tr[i + j - 1]);
        }
    }
    if i + 1 < tr.len() {
        assert(sfx.last() == tr.last());
    } else {
        assert(sfx.last() == (tr[i].0, 0u64));
        assert(tr[i] == tr.last());
    }
}

/// Edge-wise consistency, with the heuristic vanishing at goals, implies
/// admissibility: telescoping the consistency inequality along any goal
/// walk bounds the heuristic at the walk's head by the walk's cost.
pub proof fn lemma_consistent_implies_admissible<N: Copy, P: SearchProblem<N>>(p: &P)
    requires
        consistent_heuristic(p),
    ensures
        admissible_heuristic(p),
{
    assert forall|n: N, tr: Seq<(N, u64)>|
        #[trigger] walk_from(p, n, tr) && p.spec_is_goal(tr.last().0) implies p.spec_heuristic(n)
        <= walk_cost(tr) by {
        lemma_walk_telescope(p, n, tr, 0);
        assert(tr.take(1) =~= seq![tr[0]]);
        assert(seq![tr[0]].drop_last() =~= Seq::<(N, u64)>::empty());
        assert(walk_cost(Seq::<(N, u64)>::empty()) == 0);
        assert(walk_cost(tr.take(1)) == tr[0].1);
        assert(tr[0].1 == 0);
        assert(p.spec_heuristic(tr.last().0) == 0);
    }
}

/// Appending a step to a walk adds that step's edge cost.
proof fn lemma_walk_cost_push<N: Copy>(tr: Seq<(N, u64)>, x: (N, u64))
    ensures
        walk_cost(tr.push(x)) == walk_cost(tr) + x.1,
{
    assert(tr.push(x).drop_last() =~= tr);
    assert(tr.push(x).last() == x);
}

/// Appending a successor edge to a walk yields a walk.
proof fn lemma_walk_from_push<N: Copy, P: SearchProblem<N>>(
    p: &P,
    start: N,
    tr: Seq<(N, u64)>,
    b: N,
    c: u64,
)
    requires
        walk_from(p, start, tr),
        has_edge(p, tr.last().0, b, c),
    ensures
        walk_from(p, start, tr.push((b, c))),
{
    let t2 = tr.push((b, c));
    assert forall|i: int|
        1 <= i < t2.len() implies has_edge(p, t2[i - 1].0, (#[trigger] t2[i]).0, t2[i].1) by {
        if i < tr.len() {
            assert(t2[i] == tr[i] && t2[i - 1] == tr[i - 1]);
        } else {
            assert(t2[i] == (b, c) && t2[i - 1] == tr.last());
        }
    }
}

/// Prepending a step to a walk adds that step's edge cost.
proof fn lemma_walk_cost_cons<N: Copy>(x: (N, u64), s: Seq<(N, u64)>)
    ensures
        walk_cost(seq![x] + s) == x.1 + walk_cost(s),
    decreases s.len(),
{
    let t = seq![x] + s;
    if s.len() == 0 {
        assert(t =~= seq![x]);
        assert(t.drop_last() =~= Seq::<(N, u64)>::empty());
        assert(walk_cost(Seq::<(N, u64)>::empty()) == 0);
        assert(t.last() == x);
    } else {
        assert(t.drop_last() =~= seq![x] + s.drop_last());
        lemma_walk_cost_cons(x, s.drop_last());
        assert(t.last() == s.last());
    }
}

/// A budgeted route can be charged edge by edge: there is an assignment
/// of successor-edge costs along it, beginning with `c0` for its head,
/// whose total stays within the budget (plus that head charge).
proof fn lemma_route_to_walk<N: Copy, P: SearchProblem<N>>(
    p: &P,
    nodes: Seq<N>,
    budget: int,
    c0: u64,
) -> (tr: Seq<(N, u64)>)
    requires
        route_within(p, nodes, budget),
    ensures
        tr.len() == nodes.len(),
        forall|i: int| 0 <= i < tr.len() ==> (#[trigger] tr[i]).0 == nodes[i],
        tr[0].1 == c0,
        forall|i: int| 1 <= i < tr.len() ==> has_edge(p, tr[i - 1].0, (#[trigger] tr[i]).0, tr[i].1),
        walk_cost(tr) <= budget + c0,
    decreases nodes.len(),
{
    if nodes.len() == 1 {
        let tr = seq![(nodes[0], c0)];
        assert(tr.drop_last() =~= Seq::<(N, u64)>::empty());
        assert(walk_cost(Seq::<(N, u64)>::empty()) == 0);
        assert(tr.last() == (nodes[0], c0));
        tr
    } else {
        let c = choose|c: u64|
            has_edge(p, nodes[0], nodes[1], c) && route_within(p, nodes.drop_first(), budget - c);
        let rest = lemma_route_to_walk(p, nodes.drop_first(), budget - c, c);
        let tr = seq![(nodes[0], c0)] + rest;
        lemma_walk_cost_cons((nodes[0], c0), rest);
        assert forall|i: int|
            1 <= i < tr.len() implies has_edge(p, tr[i - 1].0, (#[trigger] tr[i]).0, tr[i].1) by {
            if i == 1 {
                assert(tr[0].0 == nodes[0] && tr[1] == rest[0]);
            } else {
                assert(tr[i] == rest[i - 1] && tr[i - 1] == rest[i - 2]);
            }
        }
        tr
    }
}

/// For a successful search, the returned path's edges can be charged
/// exactly: some assignment of successor-edge costs along the returned
/// path sums to precisely the returned total.  The two facts delivered
/// by the search engine — the path stays within the total, and (under an
/// admissible heuristic) the total undercuts no start-to-goal walk — pin
/// the sum down from both sides.
pub proof fn lemma_path_cost_exact<N: Copy, P: SearchProblem<N>>(
    p: &P,
    start: N,
    nodes: Seq<N>,
    t: u64,
)
    requires
        nodes.len() >= 1,
        nodes[0] == start,
        p.spec_is_goal(nodes.last()),
        route_within(p, nodes, t as int),
        forall|tr: Seq<(N, u64)>|
            #[trigger] walk_from(p, start, tr) && p.spec_is_goal(tr.last().0) ==> t <= walk_cost(
                tr,
            ),
    ensures
        exists|tr: Seq<(N, u64)>|
            #[trigger] walk_from(p, start, tr) && tr.len() == nodes.len() && (forall|i: int|
                0 <= i < tr.len() ==> (#[trigger] tr[i]).0 == nodes[i]) && walk_cost(tr) == t,
{
    let tr = lemma_route_to_walk(p, nodes, t as int, 0u64);
    assert(walk_from(p, start, tr));
    assert(tr.last().0 == nodes.last());
    assert(t <= walk_cost(tr));
}

/// Two searches over the same search space, from the same start, return
/// the same total cost whenever both succeed under an admissible
/// heuristic: each returned total is the exact cost of some
/// start-to-goal walk and a lower bound on every start-to-goal walk, so
/// both equal the minimum.  The premises are exactly what the engine's
/// contract delivers for each returned result.  (Which equal-cost path
/// is returned is settled only by the frontier's tie-break rule.)
pub proof fn lemma_identical_calls_same_cost<N: Copy, P: SearchProblem<N>>(
    p: &P,
    start: N,
    g1: N,
    t1: u64,
    g2: N,
    t2: u64,
)
    requires
        p.spec_is_goal(g1),
        p.spec_is_goal(g2),
        exists|tr: Seq<(N, u64)>|
            #[trigger] walk_from(p, start, tr) && tr.last().0 == g1 && walk_cost(tr) == t1,
        forall|tr: Seq<(N, u64)>|
            #[trigger] walk_from(p, start, tr) && p.spec_is_goal(tr.last().0) ==> t1 <= walk_cost(
                tr,
            ),
        exists|tr: Seq<(N, u64)>|
            #[trigger] walk_from(p, start, tr) && tr.last().0 == g2 && walk_cost(tr) == t2,
        forall|tr: Seq<(N, u64)>|
            #[trigger] walk_from(p, start, tr) && p.spec_is_goal(tr.last().0) ==> t2 <= walk_cost(
                tr,
            ),
    ensures
        t1 == t2,
{
    let tr1 = choose|tr: Seq<(N, u64)>|
        #[trigger] walk_from(p, start, tr) && tr.last().0 == g1 && walk_cost(tr) == t1;
    let tr2 = choose|tr: Seq<(N, u64)>|
        #[trigger] walk_from(p, start, tr) && tr.last().0 == g2 && walk_cost(tr) == t2;
    assert(t1 <= walk_cost(tr2));
    assert(t2 <= walk_cost(tr1));
}

/// One record per node ever inserted into the table: the node itself, the
/// slot index of its parent record (`usize::MAX` is the "no parent"
/// sentinel, used only by the root), and the lowest start-to-node cost
/// discovered so far.
pub struct Record<N> {
    pub node: N,
    pub parent: usize,
    pub cost: u64,
}

/// The insertion-ordered store of every node discovered during one search.
/// Records are addressed by a stable slot index; nodes are never removed.
///
/// Alongside the executable records the table carries ghost bookkeeping:
/// `edge_costs[i]` is the cost of the edge along which slot `i` was last
/// linked to its parent, and `ranks[i]` is a timestamp (drawn from `tick`)
/// of the last write to slot `i`.  Together they show that parent links
/// can never form a cycle, so path reconstruction terminates.
pub struct NodeTable<N> {
    recs: Vec<Record<N>>,
    edge_costs: Ghost<Seq<u64>>,
    ranks: Ghost<Seq<nat>>,
    tick: Ghost<nat>,
}

impl<N: Copy> NodeTable<N> {
    pub closed spec fn len_s(&self) -> int {
        self.recs@.len() as int
    }

    pub closed spec fn node_at(&self, i: int) -> N {
        self.recs@[i].node
    }

    pub closed spec fn cost_at(&self, i: int) -> u64 {
        self.recs@[i].cost
    }

    pub closed spec fn parent_at(&self, i: int) -> usize {
        self.recs@[i].parent
    }

    spec fn rank_at(&self, i: int) -> nat {
        self.ranks@[i]
    }

    /// The table's invariant.  Slot 0 is the root: it holds the start node
    /// at cost zero with no parent.  Every other slot is linked to a parent
    /// slot by a real successor edge, its recorded cost dominates the
    /// parent's recorded cost plus that edge, and either the cost or the
    /// write timestamp strictly decreases towards the parent, so the chain
    /// of parent links is acyclic.
    pub closed spec fn wf<P: SearchProblem<N>>(&self, p: &P) -> bool {
        &&& self.recs@.len() >= 1
        &&& self.ranks@.len() == self.recs@.len()
        &&& self.edge_costs@.len() == self.recs@.len()
        &&& self.parent_at(0) == usize::MAX
        &&& self.cost_at(0) == 0
        &&& forall|i: int|
            1 <= i < self.len_s() ==> {
                &&& (#[trigger] self.parent_at(i)) < self.len_s()
                &&& has_edge(p, self.node_at(self.parent_at(i) as int), self.node_at(i),
                    self.edge_costs@[i])
                &&& self.cost_at(i) >= self.cost_at(self.parent_at(i) as int) + self.edge_costs@[i]
                &&& (self.cost_at(self.parent_at(i) as int) < self.cost_at(i)
                    || self.rank_at(self.parent_at(i) as int) < self.rank_at(i))
            }
        &&& forall|i: int| 0 <= i < self.len_s() ==> (#[trigger] self.rank_at(i)) < self.tick@
    }

    /// A fresh table holding only the root record for `start`.
    pub fn new<P: SearchProblem<N>>(p: &P, start: N) -> (t: Self)
        ensures
            t.wf(p),
            t.len_s() == 1,
            t.node_at(0) == start,
            t.cost_at(0) == 0,
            t.parent_at(0) == usize::MAX,
    {
        let mut recs: Vec<Record<N>> = Vec::new();
        recs.push(Record { node: start, parent: usize::MAX, cost: 0 });
        let ghost ec: Seq<u64> = seq![0u64];
        let ghost rk: Seq<nat> = seq![0nat];
        let ghost tk: nat = 1nat;
        NodeTable { recs, edge_costs: Ghost(ec), ranks: Ghost(rk), tick: Ghost(tk) }
    }

    pub fn length(&self) -> (n: usize)
        ensures
            n == self.len_s(),
    {
        self.recs.len()
    }

    pub fn node_get(&self, i: usize) -> (n: N)
        requires
            i < self.len_s(),
        ensures
            n == self.node_at(i as int),
    {
        self.recs[i].node
    }

    pub fn cost_get(&self, i: usize) -> (c: u64)
        requires
            i < self.len_s(),
        ensures
            c == self.cost_at(i as int),
    {
        self.recs[i].cost
    }

    pub fn parent_get(&self, i: usize) -> (pa: usize)
        requires
            i < self.len_s(),
        ensures
            pa == self.parent_at(i as int),
    {
        self.recs[i].parent
    }

    /// Looks the node up by key: the slot holding it, if any.
    pub fn find<P: SearchProblem<N>>(&self, p: &P, n: N) -> (r: Option<usize>)
        ensures
            match r {
                Some(j) => 0 <= j < self.len_s() && self.node_at(j as int) == n,
                None => forall|i: int| 0 <= i < self.len_s() ==> self.node_at(i) != n,
            },
    {
        let mut j: usize = 0;
        let len = self.recs.len();
        while j < len
            invariant
                len == self.len_s(),
                j <= len,
                forall|i: int| 0 <= i < j ==> self.node_at(i) != n,
            decreases len - j,
        {
            if p.same_node(self.recs[j].node, n) {
                return Some(j);
            }
            j += 1;
        }
        None
    }

    /// Inserts a newly discovered node, linked to `parent` at cost `cost`;
    /// returns its slot.  Existing records are untouched: in particular no
    /// recorded cost ever increases.
    pub fn insert<P: SearchProblem<N>>(
        &mut self,
        p: &P,
        node: N,
        parent: usize,
        cost: u64,
        edge: Ghost<u64>,
    ) -> (j: usize)
        requires
            old(self).wf(p),
            parent < old(self).len_s(),
            has_edge(p, old(self).node_at(parent as int), node, edge@),
            cost == old(self).cost_at(parent as int) + edge@,
        ensures
            final(self).wf(p),
            j == old(self).len_s(),
            final(self).len_s() == old(self).len_s() + 1,
            final(self).node_at(j as int) == node,
            final(self).cost_at(j as int) == cost,
            final(self).parent_at(j as int) == parent,
            forall|i: int|
                0 <= i < old(self).len_s() ==> final(self).node_at(i) == old(self).node_at(i),
            forall|i: int|
                0 <= i < old(self).len_s() ==> final(self).cost_at(i) == old(self).cost_at(i),
            forall|i: int|
                0 <= i < old(self).len_s() ==> final(self).parent_at(i) == old(self).parent_at(i),
    {
        let j = self.recs.len();
        self.recs.push(Record { node, parent, cost });
        proof {
            self.edge_costs@ = self.edge_costs@.push(edge@);
            self.ranks@ = self.ranks@.push(self.tick@);
            self.tick@ = self.tick@ + 1;
            assert forall|i: int| 1 <= i < self.len_s() implies {
                &&& (#[trigger] self.parent_at(i)) < self.len_s()
                &&& has_edge(p, self.node_at(self.parent_at(i) as int), self.node_at(i),
                    self.edge_costs@[i])
                &&& self.cost_at(i) >= self.cost_at(self.parent_at(i) as int) + self.edge_costs@[i]
                &&& (self.cost_at(self.parent_at(i) as int) < self.cost_at(i)
                    || self.rank_at(self.parent_at(i) as int) < self.rank_at(i))
            } by {
                if i < j {
                    assert(old(self).parent_at(i) < old(self).len_s());
                } else {
                    assert(self.parent_at(i) == parent);
                    assert(old(self).rank_at(parent as int) < old(self).tick@);
                }
            }
            assert forall|i: int| 0 <= i < self.len_s() implies (#[trigger] self.rank_at(i))
                < self.tick@ by {
                if i < j {
                    assert(old(self).rank_at(i) < old(self).tick@);
                }
            }
            assert(self.parent_at(0) == old(self).parent_at(0));
            assert(self.cost_at(0) == old(self).cost_at(0));
        }
        j
    }

    /// Re-links slot `j` to `parent` at the strictly smaller cost `cost`.
    /// The node of every slot is unchanged, and no recorded cost increases:
    /// slot `j` improves, all other slots are untouched.
    pub fn improve<P: SearchProblem<N>>(
        &mut self,
        p: &P,
        j: usize,
        parent: usize,
        cost: u64,
        edge: Ghost<u64>,
    )
        requires
            old(self).wf(p),
            j < old(self).len_s(),
            parent < old(self).len_s(),
            has_edge(p, old(self).node_at(parent as int), old(self).node_at(j as int), edge@),
            cost == old(self).cost_at(parent as int) + edge@,
            cost < old(self).cost_at(j as int),
        ensures
            final(self).wf(p),
            final(self).len_s() == old(self).len_s(),
            forall|i: int|
                0 <= i < old(self).len_s() ==> final(self).node_at(i) == old(self).node_at(i),
            final(self).cost_at(j as int) == cost,
            final(self).parent_at(j as int) == parent,
            forall|i: int|
                0 <= i < old(self).len_s() && i != j ==> final(self).cost_at(i) == old(
                    self,
                ).cost_at(i),
            forall|i: int|
                0 <= i < old(self).len_s() && i != j ==> final(self).parent_at(i) == old(
                    self,
                ).parent_at(i),
            forall|i: int|
                0 <= i < old(self).len_s() ==> final(self).cost_at(i) <= old(self).cost_at(i),
    {
        proof {
            // The root's cost is zero, so it can never be improved.
            assert(j != 0);
            assert(j != parent);
        }
        let node = self.recs[j].node;
        self.recs[j] = Record { node, parent, cost };
        proof {
            self.edge_costs@ = self.edge_costs@.update(j as int, edge@);
            self.ranks@ = self.ranks@.update(j as int, self.tick@);
            self.tick@ = self.tick@ + 1;
            assert forall|i: int| 1 <= i < self.len_s() implies {
                &&& (#[trigger] self.parent_at(i)) < self.len_s()
                &&& has_edge(p, self.node_at(self.parent_at(i) as int), self.node_at(i),
                    self.edge_costs@[i])
                &&& self.cost_at(i) >= self.cost_at(self.parent_at(i) as int) + self.edge_costs@[i]
                &&& (self.cost_at(self.parent_at(i) as int) < self.cost_at(i)
                    || self.rank_at(self.parent_at(i) as int) < self.rank_at(i))
            } by {
                assert(old(self).parent_at(i) < old(self).len_s());
                if i == j {
                    assert(self.parent_at(i) == parent);
                    assert(old(self).rank_at(parent as int) < old(self).tick@);
                } else {
                    assert(self.parent_at(i) == old(self).parent_at(i));
                    assert(self.node_at(i) == old(self).node_at(i));
                    assert(self.cost_at(i) == old(self).cost_at(i));
                    if old(self).parent_at(i) == j {
                        // The improved slot sits below `i` in the chain: its
                        // cost strictly dropped, which keeps both the cost
                        // bound and the strict decrease towards the parent.
                        assert(old(self).cost_at(i) >= old(self).cost_at(j as int)
                            + old(self).edge_costs@[i]);
                        assert(self.cost_at(j as int) < old(self).cost_at(j as int));
                    }
                }
            }
            assert forall|i: int| 0 <= i < self.len_s() implies (#[trigger] self.rank_at(i))
                < self.tick@ by {
                if i != j {
                    assert(self.rank_at(i) == old(self).rank_at(i));
                    assert(old(self).rank_at(i) < old(self).tick@);
                }
            }
            assert(self.parent_at(0) == old(self).parent_at(0));
            assert(self.cost_at(0) == old(self).cost_at(0));
        }
    }
}

/// One frontier entry: the estimated total cost through this node (the
/// pop priority), the cost actually accumulated from the start, and the
/// table slot of the node.  The ghost `trail` remembers the concrete walk
/// along which this entry's cost was accumulated.
pub struct SmallestCostHolder<N> {
    pub estimated_cost: u64,
    pub cost: u64,
    pub index: usize,
    pub trail: Ghost<Seq<(N, u64)>>,
}

/// The frontier's priority order: `a` is popped before `b` when its
/// estimated total cost is smaller, or — the tie-break — when the
/// estimates are equal and `a` has the larger accumulated cost (the
/// deeper candidate).
pub open spec fn pops_before<N: Copy>(a: SmallestCostHolder<N>, b: SmallestCostHolder<N>) -> bool {
    a.estimated_cost < b.estimated_cost || (a.estimated_cost == b.estimated_cost && a.cost
        > b.cost)
}

/// Removes and returns a frontier entry that no other entry beats under
/// the priority order.
fn pop_best<N: Copy>(open: &mut Vec<SmallestCostHolder<N>>) -> (e: SmallestCostHolder<N>)
    requires
        old(open)@.len() >= 1,
    ensures
        exists|k: int|
            0 <= k < old(open)@.len() && e == old(open)@[k] && final(open)@ == old(open)@.remove(k),
        final(open)@.len() == old(open)@.len() - 1,
        forall|j: int|
            0 <= j < final(open)@.len() ==> exists|k: int|
                0 <= k < old(open)@.len() && (#[trigger] final(open)@[j]) == (#[trigger] old(
                    open,
                )@[k]),
        forall|k: int| 0 <= k < old(open)@.len() ==> !pops_before(#[trigger] old(open)@[k], e),
{
    let mut best: usize = 0;
    let mut j: usize = 1;
    let len = open.len();
    while j < len
        invariant
            len == open@.len(),
            best < j <= len,
            forall|k: int| 0 <= k < j ==> !pops_before(#[trigger] open@[k], open@[best as int]),
        decreases len - j,
    {
        let better = open[j].estimated_cost < open[best].estimated_cost || (open[j].estimated_cost
            == open[best].estimated_cost && open[j].cost > open[best].cost);
        if better {
            best = j;
        }
        j += 1;
    }
    let e = open.remove(best);
    proof {
        assert(e == old(open)@[best as int] && final(open)@ == old(open)@.remove(best as int));
        assert forall|k: int|
            0 <= k < final(open)@.len() implies exists|i: int|
            0 <= i < old(open)@.len() && (#[trigger] final(open)@[k]) == (#[trigger] old(
                open,
            )@[i]) by {
            if k < best {
                assert(final(open)@[k] == old(open)@[k]);
            } else {
                assert(final(open)@[k] == old(open)@[k + 1]);
            }
        }
    }
    e
}

/// Reconstructs the start-to-`sidx` node sequence by following the
/// table's parent links from `sidx` back to the root, then reversing.
/// The result is a real walk whose edge costs sum to at most the cost
/// recorded for `sidx`.
pub fn reverse_path<N: Copy, P: SearchProblem<N>>(
    p: &P,
    table: &NodeTable<N>,
    sidx: usize,
) -> (path: Vec<N>)
    requires
        table.wf(p),
        sidx < table.len_s(),
    ensures
        path@.len() >= 1,
        path@[0] == table.node_at(0),
        path@.last() == table.node_at(sidx as int),
        route_within(p, path@, table.cost_at(sidx as int) as int),
        table.parent_at(sidx as int) == usize::MAX ==> path@ =~= seq![table.node_at(sidx as int)],
{
    let mut rev: Vec<N> = Vec::new();
    let mut cur: usize = sidx;
    rev.push(table.node_get(cur));
    while table.parent_get(cur) != usize::MAX
        invariant
            table.wf(p),
            sidx < table.len_s(),
            cur < table.len_s(),
            rev@.len() >= 1,
            rev@[0] == table.node_at(sidx as int),
            rev@.last() == table.node_at(cur as int),
            route_within(
                p,
                rev@.reverse(),
                table.cost_at(sidx as int) - table.cost_at(cur as int),
            ),
            table.parent_at(sidx as int) == usize::MAX ==> (cur == sidx && rev@.len() == 1),
        decreases table.cost_at(cur as int), table.rank_at(cur as int),
    {
        proof {
            // Only the root carries the sentinel, so `cur` has a real parent.
            assert(cur != 0);
        }
        let pa = table.parent_get(cur);
        let ghost old_rev = rev@;
        rev.push(table.node_get(pa));
        proof {
            let ghost ec = table.edge_costs@[cur as int];
            assert(has_edge(p, table.node_at(pa as int), table.node_at(cur as int), ec));
            assert(old_rev.reverse().len() >= 1);
            assert(old_rev.reverse()[0] == table.node_at(cur as int));
            lemma_route_within_prepend(
                p,
                table.node_at(pa as int),
                ec,
                old_rev.reverse(),
                table.cost_at(sidx as int) - table.cost_at(cur as int),
            );
            assert(rev@.reverse() =~= seq![table.node_at(pa as int)] + old_rev.reverse());
            lemma_route_within_weaken(
                p,
                rev@.reverse(),
                table.cost_at(sidx as int) - table.cost_at(cur as int) + ec,
                table.cost_at(sidx as int) - table.cost_at(pa as int),
            );
        }
        cur = pa;
    }
    proof {
        // The walk ended at the sentinel, which only the root carries: a
        // real parent index is below the table length, which fits a usize.
        vstd::std_specs::vec::axiom_spec_len(&table.recs);
        assert(cur == 0);
    }
    let mut path: Vec<N> = Vec::new();
    let mut i: usize = rev.len();
    while i > 0
        invariant
            i <= rev@.len(),
            path@.len() == rev@.len() - i,
            forall|k: int| 0 <= k < path@.len() ==> path@[k] == rev@[rev@.len() - 1 - k],
        decreases i,
    {
        i -= 1;
        path.push(rev[i]);
    }
    proof {
        assert(path@ =~= rev@.reverse());
    }
    path
}

/// Every frontier entry points at a real table slot, never undercuts that
/// slot's recorded cost, carries the estimate formed from its own cost and
/// the heuristic at its node, and carries a ghost witness walk from the
/// start to that slot's node whose edge costs sum exactly to the entry's
/// cost.  Only the initial entry refers to the root slot.
spec fn entry_ok<N: Copy, P: SearchProblem<N>>(
    p: &P,
    t: &NodeTable<N>,
    start: N,
    e: SmallestCostHolder<N>,
) -> bool {
    &&& (e.index as int) < t.len_s()
    &&& e.cost >= t.cost_at(e.index as int)
    &&& e.estimated_cost == sat_add(e.cost, p.spec_heuristic(t.node_at(e.index as int)))
    &&& walk_from(p, start, e.trail@)
    &&& e.trail@.last().0 == t.node_at(e.index as int)
    &&& walk_cost(e.trail@) == e.cost
    &&& (e.index == 0 ==> e.cost == 0)
}

/// Some table slot holds `n` at a recorded cost of at most `m`.
spec fn node_costed<N: Copy>(t: &NodeTable<N>, n: N, m: int) -> bool {
    exists|s: int| 0 <= s < t.len_s() && (#[trigger] t.node_at(s)) == n && t.cost_at(s) <= m
}

/// Some frontier entry refers to slot `s` at exactly the slot's recorded
/// cost.
spec fn slot_live<N: Copy>(open_s: Seq<SmallestCostHolder<N>>, t: &NodeTable<N>, s: int) -> bool {
    exists|k: int|
        0 <= k < open_s.len() && (#[trigger] open_s[k]).index == s && open_s[k].cost == t.cost_at(
            s,
        )
}

/// Every successor edge of slot `s` whose relaxed cost is representable
/// has been recorded: some slot holds the successor at no more than the
/// relaxed cost.
spec fn slot_relaxed<N: Copy, P: SearchProblem<N>>(p: &P, t: &NodeTable<N>, s: int) -> bool {
    forall|b: N, c: u64|
        #[trigger] has_edge(p, t.node_at(s), b, c) && t.cost_at(s) + c <= u64::MAX ==> node_costed(
            t,
            b,
            t.cost_at(s) + c,
        )
}

/// The coverage invariant of the search loop: every slot is either still
/// witnessed by a live frontier entry, or has been expanded — meaning all
/// its edges were relaxed and its node was not a goal.
spec fn frontier_covers<N: Copy, P: SearchProblem<N>>(
    p: &P,
    t: &NodeTable<N>,
    open_s: Seq<SmallestCostHolder<N>>,
    expanded: Seq<bool>,
) -> bool {
    &&& expanded.len() == t.len_s()
    &&& forall|s: int|
        0 <= s < t.len_s() && !(#[trigger] expanded[s]) ==> slot_live(open_s, t, s)
    &&& forall|s: int|
        0 <= s < t.len_s() && (#[trigger] expanded[s]) ==> slot_relaxed(p, t, s)
            && !p.spec_is_goal(t.node_at(s))
}

/// A live witness for a slot survives the removal of any other entry.
proof fn lemma_live_after_remove<N: Copy>(
    open0: Seq<SmallestCostHolder<N>>,
    open1: Seq<SmallestCostHolder<N>>,
    k: int,
    t: &NodeTable<N>,
    s: int,
)
    requires
        0 <= k < open0.len(),
        open1 == open0.remove(k),
        slot_live(open0, t, s),
        !(open0[k].index == s && open0[k].cost == t.cost_at(s)),
    ensures
        slot_live(open1, t, s),
{
    let kw = choose|kw: int|
        0 <= kw < open0.len() && (#[trigger] open0[kw]).index == s && open0[kw].cost == t.cost_at(
            s,
        );
    if kw < k {
        assert(open1[kw] == open0[kw]);
    } else {
        assert(kw > k);
        assert(open1[kw - 1] == open0[kw]);
    }
}

/// A live witness survives appending entries and any table change that
/// keeps the slot's recorded cost.
proof fn lemma_live_preserved<N: Copy>(
    open0: Seq<SmallestCostHolder<N>>,
    open1: Seq<SmallestCostHolder<N>>,
    t0: &NodeTable<N>,
    t1: &NodeTable<N>,
    s: int,
)
    requires
        slot_live(open0, t0, s),
        t1.cost_at(s) == t0.cost_at(s),
        forall|k: int| 0 <= k < open0.len() ==> 0 <= k < open1.len() && open1[k] == open0[k],
    ensures
        slot_live(open1, t1, s),
{
    let kw = choose|kw: int|
        0 <= kw < open0.len() && (#[trigger] open0[kw]).index == s && open0[kw].cost == t0.cost_at(
            s,
        );
    assert(open1[kw] == open0[kw]);
}

/// A recorded cost bound survives any table change that keeps nodes in
/// place and never raises a recorded cost.
proof fn lemma_costed_preserved<N: Copy>(t0: &NodeTable<N>, t1: &NodeTable<N>, n: N, m: int)
    requires
        node_costed(t0, n, m),
        t1.len_s() >= t0.len_s(),
        forall|s: int| 0 <= s < t0.len_s() ==> t1.node_at(s) == t0.node_at(s),
        forall|s: int| 0 <= s < t0.len_s() ==> t1.cost_at(s) <= t0.cost_at(s),
    ensures
        node_costed(t1, n, m),
{
    let s = choose|s: int|
        0 <= s < t0.len_s() && (#[trigger] t0.node_at(s)) == n && t0.cost_at(s) <= m;
    assert(t1.node_at(s) == n && t1.cost_at(s) <= m);
}

/// Under the search invariant, every start-to-goal walk of representable
/// cost is covered: some frontier entry's estimate is at most the walk's
/// cost.  The walk is followed position by position: a slot holding the
/// walk's node at no more than the prefix cost either still has a live
/// entry — whose estimate the admissible heuristic bounds by the walk's
/// cost — or was expanded, and relaxation carries the bound one step on.
proof fn lemma_goal_walk_covered<N: Copy, P: SearchProblem<N>>(
    p: &P,
    start: N,
    t: &NodeTable<N>,
    open_s: Seq<SmallestCostHolder<N>>,
    expanded: Seq<bool>,
    tr: Seq<(N, u64)>,
    i: int,
    s: int,
)
    requires
        admissible_heuristic(p),
        t.wf(p),
        forall|k: int| 0 <= k < open_s.len() ==> entry_ok(p, t, start, #[trigger] open_s[k]),
        frontier_covers(p, t, open_s, expanded),
        walk_from(p, start, tr),
        p.spec_is_goal(tr.last().0),
        walk_cost(tr) <= u64::MAX,
        0 <= i < tr.len(),
        0 <= s < t.len_s(),
        t.node_at(s) == tr[i].0,
        t.cost_at(s) <= walk_cost(tr.take(i + 1)),
    ensures
        exists|k: int|
            0 <= k < open_s.len() && (#[trigger] open_s[k]).estimated_cost <= walk_cost(tr),
    decreases tr.len() - i,
{
    lemma_walk_prefix_bound(tr, i + 1);
    if !expanded[s] {
        let k = choose|k: int|
            0 <= k < open_s.len() && (#[trigger] open_s[k]).index == s && open_s[k].cost
                == t.cost_at(s);
        assert(entry_ok(p, t, start, open_s[k]));
        lemma_walk_suffix(p, start, tr, i);
        let sfx = seq![(tr[i].0, 0u64)] + tr.skip(i + 1);
        assert(p.spec_heuristic(tr[i].0) <= walk_cost(sfx));
        assert(open_s[k].cost + p.spec_heuristic(t.node_at(s)) <= walk_cost(tr));
        assert(open_s[k].estimated_cost <= walk_cost(tr));
    } else {
        assert(!p.spec_is_goal(t.node_at(s)));
        assert(i < tr.len() - 1) by {
            if i == tr.len() - 1 {
                assert(tr[i] == tr.last());
            }
        }
        assert(has_edge(p, tr[i].0, tr[i + 1].0, tr[i + 1].1));
        lemma_walk_cost_take_step(tr, i + 1);
        lemma_walk_prefix_bound(tr, i + 2);
        assert(t.cost_at(s) + tr[i + 1].1 <= u64::MAX);
        assert(slot_relaxed(p, t, s));
        assert(node_costed(t, tr[i + 1].0, t.cost_at(s) + tr[i + 1].1));
        let s2 = choose|s2: int|
            0 <= s2 < t.len_s() && (#[trigger] t.node_at(s2)) == tr[i + 1].0 && t.cost_at(s2)
                <= t.cost_at(s) + tr[i + 1].1;
        lemma_goal_walk_covered(p, start, t, open_s, expanded, tr, i + 1, s2);
    }
}

/// Once every table slot has been expanded, no start-to-goal walk of
/// representable cost can exist at all: following any such walk position
/// by position, each node is held by an expanded slot — never a goal —
/// and relaxation carries the cost bound one step on, so the walk could
/// never end.  This needs no hypothesis on the heuristic.
proof fn lemma_exhausted_no_goal_walk<N: Copy, P: SearchProblem<N>>(
    p: &P,
    start: N,
    t: &NodeTable<N>,
    expanded: Seq<bool>,
    tr: Seq<(N, u64)>,
    i: int,
    s: int,
)
    requires
        t.wf(p),
        expanded.len() == t.len_s(),
        forall|s2: int| 0 <= s2 < t.len_s() ==> #[trigger] expanded[s2],
        forall|s2: int|
            0 <= s2 < t.len_s() && (#[trigger] expanded[s2]) ==> slot_relaxed(p, t, s2)
                && !p.spec_is_goal(t.node_at(s2)),
        walk_from(p, start, tr),
        p.spec_is_goal(tr.last().0),
        0 <= i < tr.len(),
        0 <= s < t.len_s(),
        t.node_at(s) == tr[i].0,
        t.cost_at(s) <= walk_cost(tr.take(i + 1)),
    ensures
        walk_cost(tr) > u64::MAX,
    decreases tr.len() - i,
{
    if walk_cost(tr) <= u64::MAX {
        lemma_walk_prefix_bound(tr, i + 1);
        assert(expanded[s]);
        assert(!p.spec_is_goal(t.node_at(s)));
        assert(i < tr.len() - 1) by {
            if i == tr.len() - 1 {
                assert(tr[i] == tr.last());
            }
        }
        assert(has_edge(p, tr[i].0, tr[i + 1].0, tr[i + 1].1));
        lemma_walk_cost_take_step(tr, i + 1);
        lemma_walk_prefix_bound(tr, i + 2);
        assert(t.cost_at(s) + tr[i + 1].1 <= u64::MAX);
        assert(slot_relaxed(p, t, s));
        assert(node_costed(t, tr[i + 1].0, t.cost_at(s) + tr[i + 1].1));
        let s2 = choose|s2: int|
            0 <= s2 < t.len_s() && (#[trigger] t.node_at(s2)) == tr[i + 1].0 && t.cost_at(s2)
                <= t.cost_at(s) + tr[i + 1].1;
        lemma_exhausted_no_goal_walk(p, start, t, expanded, tr, i + 1, s2);
    }
}

/// The outcome of one bounded search.
pub enum SearchOutcome<N> {
    /// A goal node was reached: the start-to-goal path and its total cost.
    Found(Vec<N>, u64),
    /// The frontier emptied: no goal is reachable within representable
    /// cost.
    Exhausted,
    /// The expansion budget was consumed before the frontier emptied;
    /// the search is inconclusive.
    OutOfBudget,
}

/// A* search under an explicit expansion budget: starting from `start`,
/// expands nodes in order of estimated total cost until a goal node is
/// popped, and returns the reconstructed path together with the
/// accumulated cost recorded for that node.
///
/// The contract pins down, for every `Found` outcome: the path is a real
/// walk along successor edges from `start` to a node satisfying the goal
/// predicate, its edge costs sum to at most the returned total, and the
/// returned total is itself the exact cost of some walk from `start` to
/// that same goal node.  If the start node already satisfies the goal
/// predicate, the search returns at once with the one-node path and the
/// additive identity as its cost.  Under an admissible heuristic the
/// search is optimal: the returned total is at most the cost of every
/// start-to-goal walk.  And success is owed: `Exhausted` — the frontier
/// ran empty — is returned only when no walk of representable cost leads
/// from `start` to any goal node, and `OutOfBudget` is never claimed
/// idly — it certifies that at least `budget` pairwise-distinct walks
/// leave `start`.  So on a search space with fewer walks than the
/// budget, a reachable goal must be found: see [`lemma_success_owed`].
///
/// The budget exists because the search space may be unbounded, where
/// the search loop admits no finite measure; a caller who wants the
/// undifferentiated behaviour passes `u64::MAX`, which no feasible run
/// can consume.
pub fn astar_bounded<N: Copy, P: SearchProblem<N>>(p: &P, start: N, budget: u64) -> (r:
    SearchOutcome<N>)
    ensures
        r matches SearchOutcome::Found(path, total) ==> {
            &&& path@.len() >= 1
            &&& path@[0] == start
            &&& p.spec_is_goal(path@.last())
            &&& route_within(p, path@, total as int)
            &&& exists|tr: Seq<(N, u64)>|
                #[trigger] walk_from(p, start, tr) && tr.last().0 == path@.last() && walk_cost(tr)
                    == total
        },
        p.spec_is_goal(start) && budget >= 1 ==> (r matches SearchOutcome::Found(path, total)
            && path@ == seq![start] && total == 0),
        admissible_heuristic(p) ==> (r matches SearchOutcome::Found(path, total) ==> forall|
            tr: Seq<(N, u64)>,
        |
            #[trigger] walk_from(p, start, tr) && p.spec_is_goal(tr.last().0) ==> total
                <= walk_cost(tr)),
        r matches SearchOutcome::Exhausted ==> forall|tr: Seq<(N, u64)>|
            #[trigger] walk_from(p, start, tr) && p.spec_is_goal(tr.last().0) ==> walk_cost(tr)
                > u64::MAX,
        r matches SearchOutcome::OutOfBudget ==> !p.spec_is_goal(start) || budget == 0,
        r matches SearchOutcome::OutOfBudget ==> exists|trs: Seq<Seq<(N, u64)>>|
            (#[trigger] trs.len()) >= budget && (forall|j: int|
                0 <= j < trs.len() ==> walk_from(p, start, #[trigger] trs[j])) && (forall|
                j: int,
                k: int,
            |
                0 <= j < k < trs.len() ==> (#[trigger] trs[j]) != (#[trigger] trs[k])),
{
    let mut table: NodeTable<N> = NodeTable::new(p, start);
    let h0 = p.heuristic(start);
    let mut open: Vec<SmallestCostHolder<N>> = Vec::new();
    let ghost tr0: Seq<(N, u64)> = seq![(start, 0u64)];
    open.push(SmallestCostHolder { estimated_cost: h0, cost: 0, index: 0, trail: Ghost(tr0) });
    let mut fuel: u64 = budget;
    let ghost mut expanded: Seq<bool> = seq![false];
    // Every entry ever pushed, in order: their ghost trails are pairwise
    // distinct walks, which is what entitles the search to give up when
    // the budget runs dry.
    let ghost mut history: Seq<SmallestCostHolder<N>> = open@;
    proof {
        assert(tr0.drop_last() =~= Seq::<(N, u64)>::empty());
        assert(walk_cost(Seq::<(N, u64)>::empty()) == 0);
        assert(tr0.last() == (start, 0u64));
        assert(walk_cost(tr0) == 0);
        assert(open@[0].index == 0 && open@[0].cost == table.cost_at(0));
        assert(slot_live(open@, &table, 0));
    }
    loop
        invariant
            table.wf(p),
            table.node_at(0) == start,
            forall|k: int| 0 <= k < open@.len() ==> entry_ok(p, &table, start, #[trigger] open@[k]),
            frontier_covers(p, &table, open@, expanded),
            forall|i1: int, i2: int|
                0 <= i1 < i2 < table.len_s() ==> (#[trigger] table.node_at(i1)) != (
                #[trigger] table.node_at(i2)),
            forall|h: int|
                0 <= h < history.len() ==> entry_ok(p, &table, start, #[trigger] history[h]),
            forall|j: int, k: int|
                0 <= j < k < history.len() ==> (#[trigger] history[j]).trail@ != (
                #[trigger] history[k]).trail@,
            history.len() == budget - fuel + open@.len(),
            p.spec_is_goal(start) ==> fuel == budget && open@.len() == 1 && open@[0].index == 0,
        decreases fuel,
    {
        if open.len() == 0 {
            proof {
                assert forall|s: int| 0 <= s < table.len_s() implies #[trigger] expanded[s] by {
                    if !expanded[s] {
                        assert(slot_live(open@, &table, s));
                        let k = choose|k: int|
                            0 <= k < open@.len() && (#[trigger] open@[k]).index == s && open@[k].cost
                                == table.cost_at(s);
                        assert(false);
                    }
                }
                assert forall|tr: Seq<(N, u64)>|
                    #[trigger] walk_from(p, start, tr) && p.spec_is_goal(tr.last().0)
                    implies walk_cost(tr) > u64::MAX by {
                    let s1 = seq![tr[0]];
                    assert(s1.drop_last() =~= Seq::<(N, u64)>::empty());
                    assert(walk_cost(Seq::<(N, u64)>::empty()) == 0);
                    assert(walk_cost(s1) == s1.last().1);
                    assert(s1.last() == tr[0] && tr[0].1 == 0);
                    assert(tr.take(1) =~= s1);
                    assert(walk_cost(tr.take(1)) == 0);
                    lemma_exhausted_no_goal_walk(p, start, &table, expanded, tr, 0, 0);
                }
            }
            return SearchOutcome::Exhausted;
        }
        if fuel == 0 {
            proof {
                let trs = history.map_values(|en: SmallestCostHolder<N>| en.trail@);
                assert(trs.len() >= budget);
                assert forall|j: int|
                    0 <= j < trs.len() implies walk_from(p, start, #[trigger] trs[j]) by {
                    assert(entry_ok(p, &table, start, history[j]));
                }
                assert forall|j: int, k: int|
                    0 <= j < k < trs.len() implies (#[trigger] trs[j]) != (#[trigger] trs[k]) by {
                    assert(history[j].trail@ != history[k].trail@);
                }
            }
            return SearchOutcome::OutOfBudget;
        }
        fuel = fuel - 1;
        let ghost open0 = open@;
        let e = pop_best(&mut open);
        proof {
            assert(entry_ok(p, &table, start, e));
            assert forall|k: int|
                0 <= k < open@.len() implies entry_ok(p, &table, start, #[trigger] open@[k]) by {
                assert(exists|i: int| 0 <= i < open0.len() && open@[k] == open0[i]);
            }
        }
        let node = table.node_get(e.index);
        if p.is_goal(node) {
            let path = reverse_path(p, &table, e.index);
            proof {
                lemma_route_within_weaken(
                    p,
                    path@,
                    table.cost_at(e.index as int) as int,
                    e.cost as int,
                );
                let tr = e.trail@;
                assert(walk_from(p, start, tr) && tr.last().0 == path@.last() && walk_cost(tr)
                    == e.cost);
                if p.spec_is_goal(start) {
                    assert(e == open0[0]);
                    assert(e.index == 0);
                    assert(path@ =~= seq![start]);
                }
                assert forall|tr2: Seq<(N, u64)>|
                    admissible_heuristic(p) && #[trigger] walk_from(p, start, tr2)
                        && p.spec_is_goal(tr2.last().0) implies e.cost <= walk_cost(tr2) by {
                    if walk_cost(tr2) <= u64::MAX {
                        let s1 = seq![tr2[0]];
                        assert(s1.drop_last() =~= Seq::<(N, u64)>::empty());
                        assert(walk_cost(Seq::<(N, u64)>::empty()) == 0);
                        assert(walk_cost(s1) == s1.last().1);
                        assert(s1.last() == tr2[0] && tr2[0].1 == 0);
                        assert(tr2.take(1) =~= s1);
                        assert(walk_cost(tr2.take(1)) == 0);
                        lemma_goal_walk_covered(p, start, &table, open0, expanded, tr2, 0, 0);
                        let k = choose|k: int|
                            0 <= k < open0.len() && (#[trigger] open0[k]).estimated_cost
                                <= walk_cost(tr2);
                        assert(!pops_before(open0[k], e));
                        assert(e.estimated_cost <= open0[k].estimated_cost);
                        assert(e.cost <= e.estimated_cost);
                    }
                }
            }
            return SearchOutcome::Found(path, e.cost);
        }
        proof {
            // Had the start node satisfied the goal predicate, the popped
            // entry could only have been the root entry, and the branch
            // above would have returned.
            if p.spec_is_goal(start) {
                assert(e == open0[0]);
                assert(node == start);
                assert(false);
            }
        }
        let c = table.cost_get(e.index);
        if e.cost > c {
            // Stale duplicate: a cheaper insertion for this slot has
            // superseded it; discard silently.  It was not the live
            // witness of its slot, so the coverage invariant stands.
            proof {
                let kp = choose|kp: int|
                    0 <= kp < open0.len() && e == open0[kp] && open@ == open0.remove(kp);
                assert forall|s: int|
                    0 <= s < table.len_s() && !(#[trigger] expanded[s]) implies slot_live(
                    open@,
                    &table,
                    s,
                ) by {
                    assert(slot_live(open0, &table, s));
                    if e.index == s {
                        assert(e.cost != table.cost_at(s));
                    }
                    lemma_live_after_remove(open0, open@, kp, &table, s);
                }
            }
        } else {
            proof {
                let kp = choose|kp: int|
                    0 <= kp < open0.len() && e == open0[kp] && open@ == open0.remove(kp);
                assert forall|s: int|
                    0 <= s < table.len_s() && s != e.index && !(#[trigger] expanded[s])
                    implies slot_live(open@, &table, s) by {
                    assert(slot_live(open0, &table, s));
                    lemma_live_after_remove(open0, open@, kp, &table, s);
                }
            }
            let neighbors = p.successors(node);
            let mut i: usize = 0;
            while i < neighbors.len()
                invariant
                    table.wf(p),
                    table.node_at(0) == start,
                    forall|k: int|
                        0 <= k < open@.len() ==> entry_ok(p, &table, start, #[trigger] open@[k]),
                    !p.spec_is_goal(start),
                    i <= neighbors@.len(),
                    neighbors@ == p.spec_successors(node),
                    (e.index as int) < table.len_s(),
                    node == table.node_at(e.index as int),
                    e.cost == table.cost_at(e.index as int),
                    walk_from(p, start, e.trail@),
                    e.trail@.last().0 == node,
                    walk_cost(e.trail@) == e.cost,
                    expanded.len() == table.len_s(),
                    forall|s: int|
                        0 <= s < table.len_s() && s != e.index && !(#[trigger] expanded[s])
                            ==> slot_live(open@, &table, s),
                    forall|s: int|
                        0 <= s < table.len_s() && (#[trigger] expanded[s]) ==> slot_relaxed(
                            p,
                            &table,
                            s,
                        ) && !p.spec_is_goal(table.node_at(s)),
                    forall|k2: int|
                        0 <= k2 < i && e.cost + (#[trigger] neighbors@[k2]).1 <= u64::MAX
                            ==> node_costed(&table, neighbors@[k2].0, e.cost + neighbors@[k2].1),
                    forall|i1: int, i2: int|
                        0 <= i1 < i2 < table.len_s() ==> (#[trigger] table.node_at(i1)) != (
                        #[trigger] table.node_at(i2)),
                    forall|h: int|
                        0 <= h < history.len() ==> entry_ok(p, &table, start, #[trigger] history[h]),
                    forall|j: int, k: int|
                        0 <= j < k < history.len() ==> (#[trigger] history[j]).trail@ != (
                        #[trigger] history[k]).trail@,
                    history.len() == budget - fuel + open@.len(),
                decreases neighbors@.len() - i,
            {
                let pair = neighbors[i];
                let nb = pair.0;
                let ec = pair.1;
                proof {
                    assert(p.spec_successors(node)[i as int] == (nb, ec));
                    assert(has_edge(p, node, nb, ec));
                }
                if ec <= u64::MAX - e.cost {
                    let new_cost = e.cost + ec;
                    match table.find(p, nb) {
                        None => {
                            let ghost before = table;
                            let ghost open_b = open@;
                            let j = table.insert(p, nb, e.index, new_cost, Ghost(ec));
                            let h = p.heuristic(nb);
                            let est = if h <= u64::MAX - new_cost {
                                new_cost + h
                            } else {
                                u64::MAX
                            };
                            let ghost tr = e.trail@.push((nb, ec));
                            proof {
                                expanded = expanded.push(false);
                                lemma_walk_from_push(p, start, e.trail@, nb, ec);
                                lemma_walk_cost_push(e.trail@, (nb, ec));
                                assert forall|k: int|
                                    0 <= k < open@.len() implies entry_ok(
                                    p,
                                    &table,
                                    start,
                                    #[trigger] open@[k],
                                ) by {
                                    assert(entry_ok(p, &before, start, open@[k]));
                                }
                                assert forall|hh: int|
                                    0 <= hh < history.len() implies entry_ok(
                                    p,
                                    &table,
                                    start,
                                    #[trigger] history[hh],
                                ) by {
                                    assert(entry_ok(p, &before, start, history[hh]));
                                }
                                assert(tr.last() == (nb, ec));
                                assert forall|hh: int|
                                    0 <= hh < history.len() implies (#[trigger] history[hh]).trail@
                                    != tr by {
                                    assert(entry_ok(p, &before, start, history[hh]));
                                    assert(history[hh].trail@.last().0 == before.node_at(
                                        history[hh].index as int,
                                    ));
                                    assert(before.node_at(history[hh].index as int) != nb);
                                }
                                assert forall|i1: int, i2: int|
                                    0 <= i1 < i2 < table.len_s() implies (#[trigger] table.node_at(
                                    i1,
                                )) != (#[trigger] table.node_at(i2)) by {
                                    if i2 == j {
                                        assert(table.node_at(i1) == before.node_at(i1));
                                        assert(before.node_at(i1) != nb);
                                    } else {
                                        assert(table.node_at(i1) == before.node_at(i1));
                                        assert(table.node_at(i2) == before.node_at(i2));
                                    }
                                }
                            }
                            open.push(
                                SmallestCostHolder {
                                    estimated_cost: est,
                                    cost: new_cost,
                                    index: j,
                                    trail: Ghost(tr),
                                },
                            );
                            proof {
                                assert forall|s: int|
                                    0 <= s < table.len_s() && s != e.index && !(
                                    #[trigger] expanded[s]) implies slot_live(open@, &table, s) by {
                                    if s < before.len_s() {
                                        assert(slot_live(open_b, &before, s));
                                        lemma_live_preserved(open_b, open@, &before, &table, s);
                                    } else {
                                        assert(open@[open_b.len() as int].index == j
                                            && open@[open_b.len() as int].cost == table.cost_at(
                                            j as int,
                                        ));
                                    }
                                }
                                assert forall|s: int|
                                    0 <= s < table.len_s() && (#[trigger] expanded[s])
                                    implies slot_relaxed(p, &table, s) && !p.spec_is_goal(
                                    table.node_at(s),
                                ) by {
                                    assert(s < before.len_s());
                                    assert(slot_relaxed(p, &before, s));
                                    assert forall|b: N, c2: u64|
                                        #[trigger] has_edge(p, table.node_at(s), b, c2)
                                            && table.cost_at(s) + c2 <= u64::MAX
                                        implies node_costed(&table, b, table.cost_at(s) + c2) by {
                                        assert(has_edge(p, before.node_at(s), b, c2));
                                        assert(node_costed(&before, b, before.cost_at(s) + c2));
                                        lemma_costed_preserved(
                                            &before,
                                            &table,
                                            b,
                                            before.cost_at(s) + c2,
                                        );
                                    }
                                }
                                assert forall|k2: int|
                                    0 <= k2 < i + 1 && e.cost + (#[trigger] neighbors@[k2]).1
                                        <= u64::MAX implies node_costed(
                                    &table,
                                    neighbors@[k2].0,
                                    e.cost + neighbors@[k2].1,
                                ) by {
                                    if k2 < i {
                                        lemma_costed_preserved(
                                            &before,
                                            &table,
                                            neighbors@[k2].0,
                                            e.cost + neighbors@[k2].1,
                                        );
                                    } else {
                                        assert(table.node_at(j as int) == nb && table.cost_at(
                                            j as int,
                                        ) == new_cost);
                                    }
                                }
                                assert(open@[open@.len() - 1].trail@ == tr);
                                history = history.push(open@[open@.len() - 1]);
                            }
                        },
                        Some(j) => {
                            let cj = table.cost_get(j);
                            if cj > new_cost {
                                let ghost before = table;
                                let ghost open_b = open@;
                                table.improve(p, j, e.index, new_cost, Ghost(ec));
                                let h = p.heuristic(nb);
                                let est = if h <= u64::MAX - new_cost {
                                    new_cost + h
                                } else {
                                    u64::MAX
                                };
                                let ghost tr = e.trail@.push((nb, ec));
                                proof {
                                    expanded = expanded.update(j as int, false);
                                    lemma_walk_from_push(p, start, e.trail@, nb, ec);
                                    lemma_walk_cost_push(e.trail@, (nb, ec));
                                    assert forall|k: int|
                                        0 <= k < open@.len() implies entry_ok(
                                        p,
                                        &table,
                                        start,
                                        #[trigger] open@[k],
                                    ) by {
                                        assert(entry_ok(p, &before, start, open@[k]));
                                    }
                                    assert(j != 0);
                                    assert forall|hh: int|
                                        0 <= hh < history.len() implies entry_ok(
                                        p,
                                        &table,
                                        start,
                                        #[trigger] history[hh],
                                    ) by {
                                        assert(entry_ok(p, &before, start, history[hh]));
                                    }
                                    assert(tr.last() == (nb, ec));
                                    assert(walk_cost(tr) == new_cost);
                                    assert forall|hh: int|
                                        0 <= hh < history.len() implies (
                                        #[trigger] history[hh]).trail@ != tr by {
                                        assert(entry_ok(p, &before, start, history[hh]));
                                        if history[hh].index == j {
                                            assert(history[hh].cost >= before.cost_at(j as int));
                                            assert(walk_cost(history[hh].trail@)
                                                == history[hh].cost);
                                        } else {
                                            assert(history[hh].trail@.last().0 == before.node_at(
                                                history[hh].index as int,
                                            ));
                                            if (history[hh].index as int) < j as int {
                                                assert(before.node_at(history[hh].index as int)
                                                    != before.node_at(j as int));
                                            } else {
                                                assert(before.node_at(j as int) != before.node_at(
                                                    history[hh].index as int,
                                                ));
                                            }
                                            assert(before.node_at(j as int) == nb);
                                        }
                                    }
                                    assert forall|i1: int, i2: int|
                                        0 <= i1 < i2 < table.len_s() implies (
                                        #[trigger] table.node_at(i1)) != (#[trigger] table.node_at(
                                        i2,
                                    )) by {
                                        assert(table.node_at(i1) == before.node_at(i1));
                                        assert(table.node_at(i2) == before.node_at(i2));
                                    }
                                }
                                open.push(
                                    SmallestCostHolder {
                                        estimated_cost: est,
                                        cost: new_cost,
                                        index: j,
                                        trail: Ghost(tr),
                                    },
                                );
                                proof {
                                    assert forall|s: int|
                                        0 <= s < table.len_s() && s != e.index && !(
                                        #[trigger] expanded[s]) implies slot_live(
                                        open@,
                                        &table,
                                        s,
                                    ) by {
                                        if s == j {
                                            assert(open@[open_b.len() as int].index == j
                                                && open@[open_b.len() as int].cost
                                                == table.cost_at(j as int));
                                        } else {
                                            assert(slot_live(open_b, &before, s));
                                            lemma_live_preserved(open_b, open@, &before, &table, s);
                                        }
                                    }
                                    assert forall|s: int|
                                        0 <= s < table.len_s() && (#[trigger] expanded[s])
                                        implies slot_relaxed(p, &table, s) && !p.spec_is_goal(
                                        table.node_at(s),
                                    ) by {
                                        assert(s != j);
                                        assert(slot_relaxed(p, &before, s));
                                        assert forall|b: N, c2: u64|
                                            #[trigger] has_edge(p, table.node_at(s), b, c2)
                                                && table.cost_at(s) + c2 <= u64::MAX
                                            implies node_costed(&table, b, table.cost_at(s) + c2) by {
                                            assert(has_edge(p, before.node_at(s), b, c2));
                                            assert(node_costed(&before, b, before.cost_at(s) + c2));
                                            lemma_costed_preserved(
                                                &before,
                                                &table,
                                                b,
                                                before.cost_at(s) + c2,
                                            );
                                        }
                                    }
                                    assert forall|k2: int|
                                        0 <= k2 < i + 1 && e.cost + (#[trigger] neighbors@[k2]).1
                                            <= u64::MAX implies node_costed(
                                        &table,
                                        neighbors@[k2].0,
                                        e.cost + neighbors@[k2].1,
                                    ) by {
                                        if k2 < i {
                                            lemma_costed_preserved(
                                                &before,
                                                &table,
                                                neighbors@[k2].0,
                                                e.cost + neighbors@[k2].1,
                                            );
                                        } else {
                                            assert(table.node_at(j as int) == nb && table.cost_at(
                                                j as int,
                                            ) == new_cost);
                                        }
                                    }
                                    assert(open@[open@.len() - 1].trail@ == tr);
                                    history = history.push(open@[open@.len() - 1]);
                                }
                            } else {
                                proof {
                                    assert(table.node_at(j as int) == nb && table.cost_at(j as int)
                                        <= e.cost + ec);
                                    assert(node_costed(&table, nb, e.cost + ec));
                                }
                            }
                        },
                    }
                }
                i += 1;
            }
            proof {
                // Every successor was relaxed, so the slot is now expanded.
                let expanded2 = expanded.update(e.index as int, true);
                assert forall|s: int|
                    0 <= s < table.len_s() && !(#[trigger] expanded2[s]) implies slot_live(
                    open@,
                    &table,
                    s,
                ) by {
                    assert(s != e.index);
                    assert(!expanded[s]);
                }
                assert forall|s: int|
                    0 <= s < table.len_s() && (#[trigger] expanded2[s]) implies slot_relaxed(
                    p,
                    &table,
                    s,
                ) && !p.spec_is_goal(table.node_at(s)) by {
                    if s == e.index as int {
                        assert forall|b: N, c2: u64|
                            #[trigger] has_edge(p, table.node_at(s), b, c2) && table.cost_at(s)
                                + c2 <= u64::MAX implies node_costed(
                            &table,
                            b,
                            table.cost_at(s) + c2,
                        ) by {
                            assert(p.spec_successors(node).contains((b, c2)));
                            let k2 = choose|k2: int|
                                0 <= k2 < neighbors@.len() && neighbors@[k2] == (b, c2);
                            assert(e.cost + neighbors@[k2].1 <= u64::MAX);
                            assert(node_costed(&table, neighbors@[k2].0,
                                e.cost + neighbors@[k2].1));
                        }
                    }
                }
                expanded = expanded2;
            }
        }
    }
}

/// A* search with the search state's size left unbounded: the bounded
/// search run with the largest budget there is, which no feasible run
/// can consume.  `None` collapses the two unsuccessful outcomes of
/// [`astar_bounded`]: a frontier that ran empty — proof that no goal walk
/// of representable cost exists — and a consumed budget.  A caller who
/// needs the two distinguished, and with them the engine's completeness
/// guarantee, calls [`astar_bounded`] directly.
pub fn astar<N: Copy, P: SearchProblem<N>>(p: &P, start: N) -> (r: Option<(Vec<N>, u64)>)
    ensures
        r matches Some(pt) ==> {
            &&& pt.0@.len() >= 1
            &&& pt.0@[0] == start
            &&& p.spec_is_goal(pt.0@.last())
            &&& route_within(p, pt.0@, pt.1 as int)
            &&& exists|tr: Seq<(N, u64)>|
                #[trigger] walk_from(p, start, tr) && tr.last().0 == pt.0@.last() && walk_cost(tr)
                    == pt.1
        },
        p.spec_is_goal(start) ==> (r matches Some(pt) && pt.0@ == seq![start] && pt.1 == 0),
        admissible_heuristic(p) ==> (r matches Some(pt) ==> forall|tr: Seq<(N, u64)>|
            #[trigger] walk_from(p, start, tr) && p.spec_is_goal(tr.last().0) ==> pt.1
                <= walk_cost(tr)),
{
    match astar_bounded(p, start, u64::MAX) {
        SearchOutcome::Found(path, total) => Some((path, total)),
        SearchOutcome::Exhausted => None,
        SearchOutcome::OutOfBudget => None,
    }
}

/// Success is owed: a bounded search cannot come back empty-handed when
/// some start-to-goal walk has representable cost and the search space
/// admits fewer than `budget` pairwise-distinct walks from the start.
/// The premises on `r` are exactly what [`astar_bounded`] ensures of its
/// two unsuccessful outcomes: `Exhausted` rules out any affordable goal
/// walk, and `OutOfBudget` certifies `budget`-many distinct walks.
pub proof fn lemma_success_owed<N: Copy, P: SearchProblem<N>>(
    p: &P,
    start: N,
    budget: u64,
    r: SearchOutcome<N>,
)
    requires
        r matches SearchOutcome::Exhausted ==> forall|tr: Seq<(N, u64)>|
            #[trigger] walk_from(p, start, tr) && p.spec_is_goal(tr.last().0) ==> walk_cost(tr)
                > u64::MAX,
        r matches SearchOutcome::OutOfBudget ==> exists|trs: Seq<Seq<(N, u64)>>|
            (#[trigger] trs.len()) >= budget && (forall|j: int|
                0 <= j < trs.len() ==> walk_from(p, start, #[trigger] trs[j])) && (forall|
                j: int,
                k: int,
            |
                0 <= j < k < trs.len() ==> (#[trigger] trs[j]) != (#[trigger] trs[k])),
        exists|tr: Seq<(N, u64)>|
            #[trigger] walk_from(p, start, tr) && p.spec_is_goal(tr.last().0) && walk_cost(tr)
                <= u64::MAX,
        !(exists|trs: Seq<Seq<(N, u64)>>|
            (#[trigger] trs.len()) >= budget && (forall|j: int|
                0 <= j < trs.len() ==> walk_from(p, start, #[trigger] trs[j])) && (forall|
                j: int,
                k: int,
            |
                0 <= j < k < trs.len() ==> (#[trigger] trs[j]) != (#[trigger] trs[k]))),
    ensures
        r matches SearchOutcome::Found(_, _),
{
    match r {
        SearchOutcome::Found(..) => {},
        SearchOutcome::Exhausted => {
            let tr = choose|tr: Seq<(N, u64)>|
                #[trigger] walk_from(p, start, tr) && p.spec_is_goal(tr.last().0) && walk_cost(tr)
                    <= u64::MAX;
            assert(walk_cost(tr) > u64::MAX);
        },
        SearchOutcome::OutOfBudget => {},
    }
}

} // verus!
