//! The A*-style search over a [`Grid`]: the open set, the relaxation loop,
//! and path reconstruction along parent links.

use vstd::prelude::*;
use crate::grid::Grid;
use crate::grid::GridError;
use crate::grid::Heuristic;
use crate::grid::MAX_CELLS;
use crate::node::Node;
use crate::node::NodeType;
use crate::node::prefers;
use crate::position::Position;
use crate::position::abs_diff;
use crate::position::diagonal_distance;
use crate::position::euclidean_distance;
use crate::position::manhattan_distance;

verus! {

/// One legal move of the search: `b` differs from `a` by one step in x, y or
/// both, and a two-axis step is only legal when diagonal movement is on.
pub open spec fn step_ok(a: Position, b: Position, diag: bool) -> bool {
    let dx = b.x - a.x;
    let dy = b.y - a.y;
    &&& -1 <= dx <= 1
    &&& -1 <= dy <= 1
    &&& !(dx == 0 && dy == 0)
    &&& (diag || dx == 0 || dy == 0)
}

/// Cost of one legal move: 14 for a diagonal step, 10 otherwise.
pub open spec fn step_cost(a: Position, b: Position) -> usize {
    if a.x != b.x && a.y != b.y {
        14
    } else {
        10
    }
}

/// Total cost of a route: the sum of its step costs.
pub open spec fn route_cost(r: Seq<Position>) -> int
    decreases r.len(),
{
    if r.len() <= 1 {
        0
    } else {
        step_cost(r[0], r[1]) + route_cost(r.drop_first())
    }
}

/// How many of the nodes are classified `Traversed`.  Together with the open
/// set's length this measures the search loop's progress: a cell enters the
/// open set only on its `Traversable -> Traversed` transition.
pub open spec fn count_traversed(s: Seq<Node>) -> int
    decreases s.len(),
{
    if s.len() == 0 {
        0
    } else {
        count_traversed(s.drop_last()) + if s.last().node_type == NodeType::Traversed {
            1int
        } else {
            0int
        }
    }
}

/// `count_traversed` stays within `[0, len]`.
pub proof fn lemma_count_traversed_bounds(s: Seq<Node>)
    ensures
        0 <= count_traversed(s) <= s.len(),
    decreases s.len(),
{
    if s.len() > 0 {
        lemma_count_traversed_bounds(s.drop_last());
    }
}

/// Updating one node changes `count_traversed` exactly by the difference the
/// new and old classifications contribute.
pub proof fn lemma_count_traversed_update(s: Seq<Node>, j: int, v: Node)
    requires
        0 <= j < s.len(),
    ensures
        count_traversed(s.update(j, v)) == count_traversed(s) + (if v.node_type
            == NodeType::Traversed {
            1int
        } else {
            0int
        }) - (if s[j].node_type == NodeType::Traversed {
            1int
        } else {
            0int
        }),
    decreases s.len(),
{
    let t = s.update(j, v);
    if j == s.len() - 1 {
        assert(t.drop_last() =~= s.drop_last());
    } else {
        assert(t.drop_last() =~= s.drop_last().update(j, v));
        lemma_count_traversed_update(s.drop_last(), j, v);
    }
}

/// `i` occurs among the open-set entries.
pub open spec fn in_open(open: Seq<usize>, i: int) -> bool {
    exists|k: int| 0 <= k < open.len() && (#[trigger] open[k]) as int == i
}

/// Cell `i` has entered the open set at some point: it either waits in it or
/// has already been popped.
pub open spec fn pushed(open: Seq<usize>, popped: Set<int>, i: int) -> bool {
    popped.contains(i) || in_open(open, i)
}

/// Removing one entry of a duplicate-free sequence removes exactly that
/// value from membership.
proof fn lemma_remove_membership(s: Seq<usize>, j: int)
    requires
        0 <= j < s.len(),
        s.no_duplicates(),
    ensures
        s.remove(j).no_duplicates(),
        forall|v: int| #[trigger] in_open(s.remove(j), v) <==> in_open(s, v) && v != s[j] as int,
{
    s.remove_ensures(j);
    let t = s.remove(j);
    assert forall|v: int| #[trigger] in_open(t, v) implies in_open(s, v) && v != s[j] as int by {
        let k = choose|k: int| 0 <= k < t.len() && (#[trigger] t[k]) as int == v;
        if k < j {
            assert(s[k] as int == v);
        } else {
            assert(s[k + 1] as int == v);
        }
    }
    assert forall|v: int| in_open(s, v) && v != s[j] as int implies #[trigger] in_open(t, v) by {
        let k = choose|k: int| 0 <= k < s.len() && (#[trigger] s[k]) as int == v;
        if k < j {
            assert(t[k] as int == v);
        } else {
            assert(t[k - 1] as int == v);
        }
    }
}

/// Appending one entry to a sequence extends membership by exactly that
/// value.
proof fn lemma_push_membership(s: Seq<usize>, v: usize)
    ensures
        forall|w: int| #[trigger] in_open(s.push(v), w) <==> in_open(s, w) || w == v as int,
{
    assert forall|w: int| #[trigger] in_open(s.push(v), w) implies in_open(s, w) || w
        == v as int by {
        let k = choose|k: int| 0 <= k < s.push(v).len() && (#[trigger] s.push(v)[k]) as int == w;
        if k < s.len() {
            assert(s[k] as int == w);
        }
    }
    assert forall|w: int| in_open(s, w) || w == v as int implies #[trigger] in_open(
        s.push(v),
        w,
    ) by {
        if in_open(s, w) {
            let k = choose|k: int| 0 <= k < s.len() && (#[trigger] s[k]) as int == w;
            assert(s.push(v)[k] as int == w);
        } else {
            assert(s.push(v)[s.len() as int] as int == w);
        }
    }
}

/// Remove and return the entry of `open` whose node has the least `f_cost`,
/// ties broken by least index: the deterministic pop of the priority queue.
fn pop_best(nodes: &Vec<Node>, open: &mut Vec<usize>) -> (cur: usize)
    requires
        old(open).len() >= 1,
        forall|k: int| 0 <= k < old(open)@.len() ==> (#[trigger] old(open)@[k]) < nodes.len(),
        forall|i: int| 0 <= i < nodes.len() ==> (#[trigger] nodes[i]).index == i,
    ensures
        cur < nodes.len(),
        old(open)@.contains(cur),
        forall|k: int|
            0 <= k < old(open)@.len() && (#[trigger] old(open)@[k]) != cur ==> prefers(
                nodes[cur as int],
                nodes[old(open)@[k] as int],
            ),
        exists|j: int|
            0 <= j < old(open)@.len() && old(open)@[j] == cur && final (open)@ == #[trigger] old(
                open,
            )@.remove(j),
{
    let mut best_k: usize = 0;
    let mut k: usize = 1;
    while k < open.len()
        invariant
            1 <= k <= open@.len(),
            best_k < k,
            open@ == old(open)@,
            open@.len() >= 1,
            forall|j: int| 0 <= j < open@.len() ==> (#[trigger] open@[j]) < nodes.len(),
            forall|j: int|
                0 <= j < k && j != best_k ==> !prefers(
                    nodes[#[trigger] open@[j] as int],
                    nodes[open@[best_k as int] as int],
                ),
        decreases open@.len() - k,
    {
        let a = open[k];
        let b = open[best_k];
        let better = nodes[a].f_cost < nodes[b].f_cost || (nodes[a].f_cost == nodes[b].f_cost
            && nodes[a].index < nodes[b].index);
        if better {
            best_k = k;
        }
        k = k + 1;
    }
    let cur = open.remove(best_k);
    proof {
        assert forall|j: int|
            0 <= j < old(open)@.len() && (#[trigger] old(open)@[j]) != cur implies prefers(
            nodes[cur as int],
            nodes[old(open)@[j] as int],
        ) by {
            assert(!prefers(nodes[old(open)@[j] as int], nodes[cur as int]));
            assert(nodes[old(open)@[j] as int].index == old(open)@[j]);
            assert(nodes[cur as int].index == cur);
        }
    }
    cur
}

impl Grid {
    /// Cell `i` has been relaxed: its accumulated cost is below the
    /// "infinity" sentinel.
    pub open spec fn finite_g(self, i: int) -> bool {
        self.nodes[i].g_cost < usize::MAX
    }

    /// Accumulated cost of the cell at `p`.
    pub open spec fn g_at(self, p: Position) -> int {
        self.node_at(p).g_cost as int
    }

    /// The start cell as a position (meaningful only when `start is Some`).
    pub open spec fn start_pos(self) -> Position {
        self.start->Some_0
    }

    /// The goal cell as a position (meaningful only when `goal is Some`).
    pub open spec fn goal_pos(self) -> Position {
        self.goal->Some_0
    }

    /// The parent link of cell `i`, when present, records one legal,
    /// strictly cost-decreasing step of the search: the child is in bounds
    /// and not an obstacle, the parent is a relaxed cell one legal step
    /// away, and the child's cost exceeds the parent's by at least the step
    /// cost.
    pub open spec fn parent_edge_ok_at(self, i: int) -> bool {
        match self.nodes[i].parent {
            Some(p) => {
                &&& self.in_bounds(p)
                &&& step_ok(p, self.pos_of(i), self.allow_diagonal)
                &&& self.finite_g(self.idx_of(p))
                &&& self.finite_g(i)
                &&& self.nodes[i].g_cost >= self.nodes[self.idx_of(p)].g_cost + step_cost(
                    p,
                    self.pos_of(i),
                )
                &&& self.nodes[i].node_type != NodeType::Obstacle
            },
            None => true,
        }
    }

    /// Every parent link is a legal, cost-decreasing step.
    pub open spec fn parent_edges_ok(self) -> bool {
        forall|i: int| 0 <= i < self.nodes.len() ==> #[trigger] self.parent_edge_ok_at(i)
    }

    /// The parent links form a forest rooted at the start cell: the start is
    /// relaxed at cost zero with no parent, every other relaxed cell has a
    /// parent, and every link is a legal cost-decreasing step.  Walking
    /// parent links from any relaxed cell therefore reaches the start.
    pub open spec fn parent_forest(self) -> bool {
        &&& self.start is Some
        &&& self.in_bounds(self.start_pos())
        &&& self.node_at(self.start_pos()).g_cost == 0
        &&& self.node_at(self.start_pos()).parent is None
        &&& self.parent_edges_ok()
        &&& forall|i: int|
            0 <= i < self.nodes.len() && i != self.idx_of(self.start_pos())
                && #[trigger] self.finite_g(i) ==> self.nodes[i].parent is Some
    }

    /// `r` is a walkable route: it starts at the start cell, ends at the
    /// goal cell, stays inside the grid, makes only legal steps, and after
    /// the first cell never touches an obstacle.
    pub open spec fn valid_route(self, r: Seq<Position>) -> bool {
        &&& r.len() >= 1
        &&& self.start is Some
        &&& self.goal is Some
        &&& r[0] == self.start_pos()
        &&& r[r.len() - 1] == self.goal_pos()
        &&& forall|k: int| 0 <= k < r.len() ==> self.in_bounds(#[trigger] r[k])
        &&& forall|k: int|
            1 <= k < r.len() ==> self.node_at(#[trigger] r[k]).node_type != NodeType::Obstacle
        &&& forall|k: int|
            0 <= k < r.len() - 1 ==> step_ok(#[trigger] r[k], r[k + 1], self.allow_diagonal)
    }

    /// Some walkable route connects the start to the goal.
    pub open spec fn has_path(self) -> bool {
        exists|r: Seq<Position>| self.valid_route(r)
    }

    /// A sequence of pairwise-distinct in-bounds positions has at most one
    /// entry per cell.
    pub proof fn lemma_distinct_cells_bound(self, s: Seq<Position>)
        requires
            self.wf(),
            s.no_duplicates(),
            forall|k: int| 0 <= k < s.len() ==> self.in_bounds(#[trigger] s[k]),
        ensures
            s.len() <= self.cells(),
    {
        let idxs = s.map_values(|q: Position| self.idx_of(q));
        assert(idxs.no_duplicates()) by {
            assert forall|k: int, j: int|
                0 <= k < idxs.len() && 0 <= j < idxs.len() && k != j implies idxs[k] != idxs[j] by {
                self.lemma_index_position_inverse(s[k], 0);
                self.lemma_index_position_inverse(s[j], 0);
            }
        }
        idxs.unique_seq_to_set();
        assert(idxs.to_set().subset_of(vstd::set_lib::set_int_range(0, self.cells()))) by {
            assert forall|i: int| idxs.to_set().contains(i) implies 0 <= i < self.cells() by {
                let k = choose|k: int| 0 <= k < idxs.len() && idxs[k] == i;
                self.lemma_index_position_inverse(s[k], 0);
            }
        }
        vstd::set_lib::lemma_int_range(0, self.cells());
        vstd::set_lib::lemma_len_subset(
            idxs.to_set(),
            vstd::set_lib::set_int_range(0, self.cells()),
        );
    }

    /// Dispatch to the chosen heuristic.  Every heuristic of an in-bounds
    /// pair is bounded by the scaled grid perimeter, which keeps the search's
    /// cost arithmetic inside `usize`.
    fn heuristic_value(&self, heuristic: &Heuristic, from: &Position, to: &Position) -> (h: usize)
        requires
            self.wf(),
            self.in_bounds(*from),
            self.in_bounds(*to),
        ensures
            h <= 20 * MAX_CELLS,
    {
        proof {
            self.lemma_dims_bounded();
        }
        match heuristic {
            Heuristic::Manhattan => manhattan_distance(from, to),
            Heuristic::Euclidean => euclidean_distance(from, to),
            Heuristic::Diagonal => diagonal_distance(from, to),
        }
    }

    /// Walking parent links from any relaxed cell terminates at the start
    /// cell, visits no cell twice, and therefore takes at most one step per
    /// grid cell.  The returned chain is the walk itself.
    pub proof fn lemma_parent_walk_reaches_start(self, p: Position) -> (chain: Seq<Position>)
        requires
            self.wf(),
            self.parent_forest(),
            self.in_bounds(p),
            self.finite_g(self.idx_of(p)),
        ensures
            chain.len() >= 1,
            chain[0] == p,
            chain[chain.len() - 1] == self.start_pos(),
            chain.no_duplicates(),
            chain.len() <= self.cells(),
            forall|k: int|
                0 <= k < chain.len() ==> self.in_bounds(#[trigger] chain[k]) && self.finite_g(
                    self.idx_of(chain[k]),
                ),
            forall|k: int|
                0 <= k < chain.len() - 1 ==> self.node_at(#[trigger] chain[k]).parent == Some(
                    chain[k + 1],
                ),
            forall|k: int| 1 <= k < chain.len() ==> self.g_at(#[trigger] chain[k]) < self.g_at(p),
        decreases self.g_at(p),
    {
        self.lemma_index_position_inverse(p, 0);
        let i = self.idx_of(p);
        assert(self.parent_edge_ok_at(i));
        match self.nodes[i].parent {
            None => {
                if i != self.idx_of(self.start_pos()) {
                    assert(self.nodes[i].parent is Some);
                }
                self.lemma_index_position_inverse(self.start_pos(), 0);
                let chain = seq![p];
                self.lemma_distinct_cells_bound(chain);
                chain
            },
            Some(q) => {
                self.lemma_index_position_inverse(q, 0);
                assert(self.pos_of(i) == p);
                assert(self.g_at(q) + step_cost(q, p) <= self.g_at(p));
                let rest = self.lemma_parent_walk_reaches_start(q);
                let chain = seq![p] + rest;
                assert(chain[0] == p);
                assert(rest[0] == q);
                assert(self.g_at(q) < self.g_at(p));
                assert forall|k: int| 1 <= k < chain.len() implies self.g_at(#[trigger] chain[k])
                    < self.g_at(p) by {
                    assert(chain[k] == rest[k - 1]);
                    if k - 1 >= 1 {
                        assert(self.g_at(rest[k - 1]) < self.g_at(q));
                    }
                }
                assert(chain.no_duplicates()) by {
                    assert forall|k: int, j: int|
                        0 <= k < chain.len() && 0 <= j < chain.len() && k != j implies chain[k]
                        != chain[j] by {
                        if k != 0 && j != 0 {
                            assert(chain[k] == rest[k - 1] && chain[j] == rest[j - 1]);
                        } else if k == 0 {
                            assert(self.g_at(chain[j]) < self.g_at(chain[0]));
                        } else {
                            assert(self.g_at(chain[k]) < self.g_at(chain[0]));
                        }
                    }
                }
                self.lemma_distinct_cells_bound(chain);
                chain
            },
        }
    }

    /// Every in-bounds cell one legal step away from cell `i` is an obstacle
    /// or has been relaxed.  This holds of every popped cell: popping
    /// processes all its neighbours.
    pub open spec fn popped_closure_at(self, i: int) -> bool {
        forall|q: Position|
            self.in_bounds(q) && #[trigger] step_ok(self.pos_of(i), q, self.allow_diagonal) ==> (
            self.node_at(q).node_type == NodeType::Obstacle || self.finite_g(self.idx_of(q)))
    }

    /// The per-cell invariant of the search loop, relative to the grid `g0`
    /// the search started from.  A cell is relaxed exactly when it has been
    /// pushed; relaxed costs stay within the relaxation budget `rc`; every
    /// pushed cell except the start is `Traversed` and was `Traversable`
    /// in `g0`; untouched cells still hold their `g0` node.
    pub open spec fn cell_inv_at(
        self,
        g0: Grid,
        open: Seq<usize>,
        popped: Set<int>,
        rc: int,
        sp: Position,
        i: int,
    ) -> bool {
        &&& (self.finite_g(i) <==> pushed(open, popped, i))
        &&& (self.finite_g(i) ==> self.nodes[i].g_cost <= 14 * rc)
        &&& (i != self.idx_of(sp) ==> self.nodes[i].node_type == (if pushed(open, popped, i) {
            NodeType::Traversed
        } else {
            g0.nodes[i].node_type
        }))
        &&& (i != self.idx_of(sp) && pushed(open, popped, i) ==> g0.nodes[i].node_type
            == NodeType::Traversable)
        &&& (i == self.idx_of(sp) ==> self.nodes[i].node_type == g0.nodes[i].node_type)
        &&& (!pushed(open, popped, i) ==> self.nodes[i] == g0.nodes[i])
    }

    /// The open set holds valid, pairwise-distinct, not-yet-popped indices.
    pub open spec fn open_ok(self, open: Seq<usize>, popped: Set<int>) -> bool {
        &&& forall|k: int| 0 <= k < open.len() ==> (#[trigger] open[k]) < self.nodes.len()
        &&& open.no_duplicates()
        &&& forall|k: int| 0 <= k < open.len() ==> !popped.contains((#[trigger] open[k]) as int)
    }

    /// A finite set of cell indices has at most one member per cell.
    pub proof fn lemma_popped_card(self, popped: Set<int>)
        requires
            self.wf(),
            popped.finite(),
            forall|i: int| #[trigger] popped.contains(i) ==> 0 <= i < self.nodes.len(),
        ensures
            popped.len() <= self.cells(),
    {
        vstd::set_lib::lemma_int_range(0, self.cells());
        vstd::set_lib::lemma_len_subset(popped, vstd::set_lib::set_int_range(0, self.cells()));
    }

    /// Along any walkable route, every cell up to position `k` has been
    /// popped: the start was popped, and each popped cell's non-obstacle
    /// neighbours are relaxed, hence popped as well.
    proof fn lemma_route_prefix_popped(self, popped: Set<int>, r: Seq<Position>, k: int)
        requires
            self.wf(),
            self.valid_route(r),
            0 <= k < r.len(),
            popped.contains(self.idx_of(self.start_pos())),
            forall|i: int|
                #[trigger] popped.contains(i) ==> 0 <= i < self.nodes.len()
                    && self.popped_closure_at(i),
            forall|i: int|
                0 <= i < self.nodes.len() && #[trigger] self.finite_g(i) ==> popped.contains(i),
        ensures
            popped.contains(self.idx_of(r[k])),
        decreases k,
    {
        self.lemma_index_position_inverse(r[k], 0);
        if k == 0 {
        } else {
            self.lemma_route_prefix_popped(popped, r, k - 1);
            let i = self.idx_of(r[k - 1]);
            self.lemma_index_position_inverse(r[k - 1], 0);
            assert(self.popped_closure_at(i));
            assert(self.pos_of(i) == r[k - 1]);
            assert(step_ok(r[k - 1], r[k], self.allow_diagonal));
            assert(self.node_at(r[k]).node_type != NodeType::Obstacle);
            assert(self.finite_g(self.idx_of(r[k])));
        }
    }

    /// When the search has exhausted the open set without popping the goal,
    /// no walkable route exists: the popped cells are closed under
    /// non-obstacle adjacency, contain the start, and exclude the goal.
    proof fn lemma_no_route(self, popped: Set<int>)
        requires
            self.wf(),
            self.start is Some,
            self.goal is Some,
            self.in_bounds(self.start_pos()),
            self.in_bounds(self.goal_pos()),
            popped.contains(self.idx_of(self.start_pos())),
            !popped.contains(self.idx_of(self.goal_pos())),
            forall|i: int|
                #[trigger] popped.contains(i) ==> 0 <= i < self.nodes.len()
                    && self.popped_closure_at(i),
            forall|i: int|
                0 <= i < self.nodes.len() && #[trigger] self.finite_g(i) ==> popped.contains(i),
        ensures
            !self.has_path(),
    {
        if self.has_path() {
            let r = choose|r: Seq<Position>| self.valid_route(r);
            self.lemma_route_prefix_popped(popped, r, r.len() - 1);
            self.lemma_index_position_inverse(r[r.len() - 1], 0);
        }
    }

    /// Reconstruct the path by walking parent links from `position` (the
    /// first entry) back to the start cell (the last entry).
    fn trace_path(&self, position: Position) -> (path: Vec<Position>)
        requires
            self.wf(),
            self.parent_forest(),
            self.in_bounds(position),
            self.finite_g(self.idx_of(position)),
        ensures
            path@.len() >= 1,
            path@[0] == position,
            path@[path@.len() - 1] == self.start_pos(),
            path@.no_duplicates(),
            path@.len() <= self.cells(),
            forall|k: int|
                0 <= k < path@.len() ==> self.in_bounds(#[trigger] path@[k]) && self.finite_g(
                    self.idx_of(path@[k]),
                ),
            forall|k: int|
                0 <= k < path@.len() - 1 ==> self.node_at(#[trigger] path@[k]).parent == Some(
                    path@[k + 1],
                ),
    {
        let ghost chain = self.lemma_parent_walk_reaches_start(position);
        let mut path_pos: Vec<Position> = Vec::new();
        path_pos.push(position);
        let mut current_pos = position;
        loop
            invariant
                self.wf(),
                self.parent_forest(),
                1 <= path_pos@.len() <= chain.len(),
                path_pos@ == chain.take(path_pos@.len() as int),
                chain.len() <= self.cells(),
                current_pos == path_pos@[path_pos@.len() - 1],
                self.in_bounds(current_pos),
                self.finite_g(self.idx_of(current_pos)),
                chain[0] == position,
                chain[chain.len() - 1] == self.start_pos(),
                chain.no_duplicates(),
                forall|k: int|
                    0 <= k < chain.len() ==> self.in_bounds(#[trigger] chain[k]) && self.finite_g(
                        self.idx_of(chain[k]),
                    ),
                forall|k: int|
                    0 <= k < chain.len() - 1 ==> self.node_at(#[trigger] chain[k]).parent == Some(
                        chain[k + 1],
                    ),
            ensures
                path_pos@ == chain,
                self.node_at(current_pos).parent is None,
            decreases chain.len() - path_pos@.len(),
        {
            let i = self.get_index_from_pos(&current_pos);
            let node = self.nodes[i];
            match node.parent {
                Some(parent_pos) => {
                    proof {
                        let l = path_pos@.len() as int;
                        if l == chain.len() {
                            assert(current_pos == chain[l - 1]);
                            assert(self.node_at(self.start_pos()).parent is None);
                        }
                        assert(l < chain.len());
                        assert(self.node_at(chain[l - 1]).parent == Some(chain[l]));
                        assert(chain.take(l + 1) =~= chain.take(l).push(chain[l]));
                    }
                    current_pos = parent_pos;
                    path_pos.push(parent_pos);
                },
                None => {
                    proof {
                        let l = path_pos@.len() as int;
                        if l < chain.len() {
                            assert(self.node_at(chain[l - 1]).parent == Some(chain[l]));
                        }
                        assert(path_pos@ =~= chain);
                    }
                    break ;
                },
            }
        }
        path_pos
    }

    /// When every cell one legal step away from the goal is an obstacle, the
    /// start is a different cell, and the start itself is not an obstacle,
    /// then no walkable route reaches the goal: its last step would have to
    /// leave from one of the enclosing obstacles.  Solving such a grid
    /// therefore reports `NoPathFound` and leaves the goal cell untouched.
    pub proof fn lemma_enclosed_goal_unreachable(self)
        requires
            self.wf(),
            self.start is Some,
            self.goal is Some,
            self.start_pos() != self.goal_pos(),
            self.node_at(self.start_pos()).node_type != NodeType::Obstacle,
            forall|q: Position|
                self.in_bounds(q) && #[trigger] step_ok(self.goal_pos(), q, self.allow_diagonal)
                    ==> self.node_at(q).node_type == NodeType::Obstacle,
        ensures
            !self.has_path(),
    {
        if self.has_path() {
            let r = choose|r: Seq<Position>| self.valid_route(r);
            let l = r.len() as int;
            assert(r[0] == self.start_pos() && r[l - 1] == self.goal_pos());
            assert(l >= 2);
            let a = r[l - 2];
            assert(step_ok(a, self.goal_pos(), self.allow_diagonal));
            assert(step_ok(self.goal_pos(), a, self.allow_diagonal));
            assert(self.node_at(a).node_type == NodeType::Obstacle);
            if l - 2 >= 1 {
                assert(self.node_at(r[l - 2]).node_type != NodeType::Obstacle);
            } else {
                assert(a == self.start_pos());
            }
        }
    }

    /// The cheapest conceivable cost of travelling from `a` to `b` under the
    /// step model: with diagonal movement, one 14-cost diagonal step per unit
    /// of the smaller coordinate difference and 10-cost orthogonal steps for
    /// the rest, which comes to `10 * max + 4 * min`; without it, 10 per unit
    /// of the Manhattan distance.
    pub open spec fn cheapest_cost(a: Position, b: Position, diag: bool) -> int {
        let dx = abs_diff(a.x as int, b.x as int);
        let dy = abs_diff(a.y as int, b.y as int);
        if diag {
            if dx >= dy {
                10 * dx + 4 * dy
            } else {
                10 * dy + 4 * dx
            }
        } else {
            10 * (dx + dy)
        }
    }

    /// A direct route from `a` to `b`: diagonal steps toward `b` while both
    /// coordinates differ (when diagonal movement is allowed), orthogonal
    /// steps for the remaining difference, x first.
    pub open spec fn greedy_route(a: Position, b: Position, diag: bool) -> Seq<Position>
        decreases abs_diff(a.x as int, b.x as int) + abs_diff(a.y as int, b.y as int),
    {
        if a.x == b.x && a.y == b.y {
            seq![a]
        } else {
            let nx: i32 = if a.x < b.x {
                (a.x + 1) as i32
            } else if a.x > b.x {
                (a.x - 1) as i32
            } else {
                a.x
            };
            let ny: i32 = if a.y < b.y {
                (a.y + 1) as i32
            } else if a.y > b.y {
                (a.y - 1) as i32
            } else {
                a.y
            };
            let next = if diag {
                Position { x: nx, y: ny }
            } else if a.x != b.x {
                Position { x: nx, y: a.y }
            } else {
                Position { x: a.x, y: ny }
            };
            seq![a] + Self::greedy_route(next, b, diag)
        }
    }

    /// On a grid without obstacles, any two in-bounds endpoints are joined by
    /// a walkable route, so solving always succeeds.
    pub proof fn lemma_no_obstacles_has_path(self)
        requires
            self.wf(),
            self.start is Some,
            self.goal is Some,
            forall|i: int|
                0 <= i < self.nodes.len() ==> (#[trigger] self.nodes[i]).node_type
                    != NodeType::Obstacle,
        ensures
            self.has_path(),
    {
        let r = Self::greedy_route(self.start_pos(), self.goal_pos(), self.allow_diagonal);
        self.lemma_greedy_route_valid(self.start_pos(), self.goal_pos());
        assert(self.valid_route(r));
    }

    /// The greedy route between two in-bounds cells of an obstacle-free grid
    /// is a walkable route.
    proof fn lemma_greedy_route_valid(self, a: Position, b: Position)
        requires
            self.wf(),
            self.in_bounds(a),
            self.in_bounds(b),
            forall|i: int|
                0 <= i < self.nodes.len() ==> (#[trigger] self.nodes[i]).node_type
                    != NodeType::Obstacle,
        ensures
            ({
                let r = Self::greedy_route(a, b, self.allow_diagonal);
                &&& r.len() >= 1
                &&& r[0] == a
                &&& r[r.len() - 1] == b
                &&& forall|k: int| 0 <= k < r.len() ==> self.in_bounds(#[trigger] r[k])
                &&& forall|k: int|
                    1 <= k < r.len() ==> self.node_at(#[trigger] r[k]).node_type
                        != NodeType::Obstacle
                &&& forall|k: int|
                    0 <= k < r.len() - 1 ==> step_ok(#[trigger] r[k], r[k + 1], self.allow_diagonal)
            }),
        decreases abs_diff(a.x as int, b.x as int) + abs_diff(a.y as int, b.y as int),
    {
        self.lemma_dims_bounded();
        let diag = self.allow_diagonal;
        let r = Self::greedy_route(a, b, diag);
        if a == b {
        } else {
            let nx: i32 = if a.x < b.x {
                (a.x + 1) as i32
            } else if a.x > b.x {
                (a.x - 1) as i32
            } else {
                a.x
            };
            let ny: i32 = if a.y < b.y {
                (a.y + 1) as i32
            } else if a.y > b.y {
                (a.y - 1) as i32
            } else {
                a.y
            };
            let next = if diag {
                Position { x: nx, y: ny }
            } else if a.x != b.x {
                Position { x: nx, y: a.y }
            } else {
                Position { x: a.x, y: ny }
            };
            assert(self.in_bounds(next));
            self.lemma_greedy_route_valid(next, b);
            let rest = Self::greedy_route(next, b, diag);
            assert(r == seq![a] + rest);
            assert(step_ok(a, next, diag));
            assert forall|k: int| 1 <= k < r.len() implies self.node_at(#[trigger] r[k]).node_type
                != NodeType::Obstacle by {
                assert(r[k] == rest[k - 1]);
                if k - 1 >= 1 {
                } else {
                    assert(rest[0] == next);
                    self.lemma_index_position_inverse(next, 0);
                }
            }
            assert forall|k: int| 0 <= k < r.len() - 1 implies step_ok(
                #[trigger] r[k],
                r[k + 1],
                self.allow_diagonal,
            ) by {
                if k == 0 {
                    assert(r[0] == a && r[1] == rest[0]);
                } else {
                    assert(r[k] == rest[k - 1] && r[k + 1] == rest[k]);
                }
            }
        }
    }

    /// The greedy route costs exactly the cheapest conceivable amount.
    proof fn lemma_greedy_route_cost(a: Position, b: Position, diag: bool)
        ensures
            route_cost(Self::greedy_route(a, b, diag)) == Self::cheapest_cost(a, b, diag),
        decreases abs_diff(a.x as int, b.x as int) + abs_diff(a.y as int, b.y as int),
    {
        let r = Self::greedy_route(a, b, diag);
        if a == b {
        } else {
            let nx: i32 = if a.x < b.x {
                (a.x + 1) as i32
            } else if a.x > b.x {
                (a.x - 1) as i32
            } else {
                a.x
            };
            let ny: i32 = if a.y < b.y {
                (a.y + 1) as i32
            } else if a.y > b.y {
                (a.y - 1) as i32
            } else {
                a.y
            };
            let next = if diag {
                Position { x: nx, y: ny }
            } else if a.x != b.x {
                Position { x: nx, y: a.y }
            } else {
                Position { x: a.x, y: ny }
            };
            Self::lemma_greedy_route_cost(next, b, diag);
            let rest = Self::greedy_route(next, b, diag);
            assert(r == seq![a] + rest);
            assert(r.drop_first() =~= rest);
            assert(route_cost(r) == step_cost(a, next) + route_cost(rest));
        }
    }

    /// No sequence of legal steps beats the cheapest conceivable cost: one
    /// step changes each coordinate difference by at most one, and its cost
    /// covers the corresponding drop.
    pub proof fn lemma_route_cost_lower_bound(r: Seq<Position>, diag: bool)
        requires
            r.len() >= 1,
            forall|k: int| 0 <= k < r.len() - 1 ==> step_ok(#[trigger] r[k], r[k + 1], diag),
        ensures
            route_cost(r) >= Self::cheapest_cost(r[0], r[r.len() - 1], diag),
        decreases r.len(),
    {
        if r.len() > 1 {
            let rest = r.drop_first();
            assert forall|k: int| 0 <= k < rest.len() - 1 implies step_ok(
                #[trigger] rest[k],
                rest[k + 1],
                diag,
            ) by {
                assert(rest[k] == r[k + 1] && rest[k + 1] == r[k + 2]);
            }
            Self::lemma_route_cost_lower_bound(rest, diag);
            assert(rest[0] == r[1] && rest[rest.len() - 1] == r[r.len() - 1]);
            assert(route_cost(r) == step_cost(r[0], r[1]) + route_cost(rest));
            assert(Self::cheapest_cost(r[0], r[r.len() - 1], diag) <= step_cost(r[0], r[1])
                + Self::cheapest_cost(r[1], r[r.len() - 1], diag));
        }
    }

    /// A route read backwards costs the same: each step's cost depends only
    /// on which coordinates change.
    pub proof fn lemma_route_cost_reverse(r: Seq<Position>)
        ensures
            route_cost(r.reverse()) == route_cost(r),
        decreases r.len(),
    {
        if r.len() > 1 {
            let rest = r.drop_first();
            Self::lemma_route_cost_reverse(rest);
            assert(r.drop_first() == rest);
            assert(r.reverse() =~= rest.reverse().push(r[0]));
            Self::lemma_route_cost_push(rest.reverse(), r[0], r[1]);
            assert(rest.reverse()[rest.len() - 1] == rest[0]);
        }
    }

    /// Appending one cell to a non-empty route adds the final step's cost.
    proof fn lemma_route_cost_push(r: Seq<Position>, v: Position, last: Position)
        requires
            r.len() >= 1,
            r[r.len() - 1] == last,
        ensures
            route_cost(r.push(v)) == route_cost(r) + step_cost(last, v),
        decreases r.len(),
    {
        if r.len() == 1 {
            assert(r.push(v).drop_first() =~= seq![v]);
            assert(route_cost(seq![v]) == 0);
            assert(r.push(v)[0] == r[0] && r.push(v)[1] == v);
            assert(route_cost(r.push(v)) == step_cost(r[0], v));
        } else {
            let rest = r.drop_first();
            Self::lemma_route_cost_push(rest, v, last);
            assert(r.push(v).drop_first() =~= rest.push(v));
            assert(route_cost(r.push(v)) == step_cost(r[0], r[1]) + route_cost(rest.push(v)));
        }
    }

    /// On an obstacle-free grid the cheapest conceivable cost is the exact
    /// minimum over all walkable routes: some route achieves it, and no
    /// route costs less.
    pub proof fn lemma_minimum_route_cost(self)
        requires
            self.wf(),
            self.start is Some,
            self.goal is Some,
            forall|i: int|
                0 <= i < self.nodes.len() ==> (#[trigger] self.nodes[i]).node_type
                    != NodeType::Obstacle,
        ensures
            exists|r: Seq<Position>| #[trigger] self.valid_route(r) && route_cost(r)
                == Self::cheapest_cost(self.start_pos(), self.goal_pos(), self.allow_diagonal),
            forall|r: Seq<Position>| #[trigger] self.valid_route(r) ==> route_cost(r)
                >= Self::cheapest_cost(self.start_pos(), self.goal_pos(), self.allow_diagonal),
    {
        let best = Self::greedy_route(self.start_pos(), self.goal_pos(), self.allow_diagonal);
        self.lemma_greedy_route_valid(self.start_pos(), self.goal_pos());
        Self::lemma_greedy_route_cost(self.start_pos(), self.goal_pos(), self.allow_diagonal);
        assert(self.valid_route(best) && route_cost(best) == Self::cheapest_cost(
            self.start_pos(),
            self.goal_pos(),
            self.allow_diagonal,
        ));
        assert forall|r: Seq<Position>| #[trigger] self.valid_route(r) implies route_cost(r)
            >= Self::cheapest_cost(self.start_pos(), self.goal_pos(), self.allow_diagonal) by {
            Self::lemma_route_cost_lower_bound(r, self.allow_diagonal);
        }
    }

    /// With diagonal movement disabled, every step of a walkable route (in
    /// particular of any solved path) is orthogonal: consecutive cells share
    /// a row or a column.
    pub proof fn lemma_route_steps_orthogonal(self, r: Seq<Position>)
        requires
            self.valid_route(r),
            !self.allow_diagonal,
        ensures
            forall|k: int|
                0 <= k < r.len() - 1 ==> ((#[trigger] r[k]).x == r[k + 1].x || r[k].y == r[k
                    + 1].y),
    {
    }

    /// Along a chain of parent links the recorded costs dominate the summed
    /// step costs: each link was created by one relaxation, whose cost
    /// inequality telescopes over the chain.
    proof fn lemma_chain_cost(self, p: Seq<Position>)
        requires
            self.wf(),
            self.parent_edges_ok(),
            p.len() >= 1,
            forall|k: int|
                0 <= k < p.len() ==> self.in_bounds(#[trigger] p[k]) && self.finite_g(
                    self.idx_of(p[k]),
                ),
            forall|k: int|
                0 <= k < p.len() - 1 ==> self.node_at(#[trigger] p[k]).parent == Some(p[k + 1]),
        ensures
            self.g_at(p[0]) >= route_cost(p) + self.g_at(p[p.len() - 1]),
        decreases p.len(),
    {
        if p.len() > 1 {
            let rest = p.drop_first();
            assert forall|k: int|
                0 <= k < rest.len() - 1 implies self.node_at(#[trigger] rest[k]).parent == Some(
                rest[k + 1],
            ) by {
                assert(rest[k] == p[k + 1] && rest[k + 1] == p[k + 2]);
            }
            assert(forall|k: int|
                0 <= k < rest.len() ==> self.in_bounds(#[trigger] rest[k]) && self.finite_g(
                    self.idx_of(rest[k]),
                ));
            self.lemma_chain_cost(rest);
            self.lemma_index_position_inverse(p[0], 0);
            assert(self.parent_edge_ok_at(self.idx_of(p[0])));
            assert(self.g_at(p[0]) >= self.g_at(p[1]) + step_cost(p[1], p[0]));
            assert(step_cost(p[1], p[0]) == step_cost(p[0], p[1]));
            assert(rest[rest.len() - 1] == p[p.len() - 1]);
        }
    }

    /// Two grids with the same shape, endpoints and obstacle pattern have
    /// the same walkable routes.
    proof fn lemma_route_transfer(self, other: Grid)
        requires
            self.width == other.width,
            self.height == other.height,
            self.start == other.start,
            self.goal == other.goal,
            self.allow_diagonal == other.allow_diagonal,
            self.nodes.len() == other.nodes.len(),
            self.wf(),
            other.wf(),
            forall|i: int|
                0 <= i < self.nodes.len() ==> ((#[trigger] self.nodes[i]).node_type
                    == NodeType::Obstacle <==> other.nodes[i].node_type == NodeType::Obstacle),
        ensures
            self.has_path() <==> other.has_path(),
    {
        if self.has_path() {
            let r = choose|r: Seq<Position>| self.valid_route(r);
            assert forall|k: int|
                1 <= k < r.len() implies other.node_at(#[trigger] r[k]).node_type
                != NodeType::Obstacle by {
                self.lemma_index_position_inverse(r[k], 0);
            }
            assert(other.valid_route(r));
        }
        if other.has_path() {
            let r = choose|r: Seq<Position>| other.valid_route(r);
            assert forall|k: int|
                1 <= k < r.len() implies self.node_at(#[trigger] r[k]).node_type
                != NodeType::Obstacle by {
                self.lemma_index_position_inverse(r[k], 0);
            }
            assert(self.valid_route(r));
        }
    }

    /// The neighbour-with-cost sequence of an in-bounds cell lists exactly
    /// the in-bounds positions one legal step away, each with its step cost.
    pub proof fn lemma_neighbours_with_cost_complete(self, p: Position, diag: bool)
        requires
            self.wf(),
            self.in_bounds(p),
        ensures
            forall|k: int|
                0 <= k < self.neighbours_with_cost_seq(p, diag).len() ==> {
                    let (q, c) = #[trigger] self.neighbours_with_cost_seq(p, diag)[k];
                    &&& self.in_bounds(q)
                    &&& step_ok(p, q, diag)
                    &&& c == step_cost(p, q)
                },
            forall|q: Position|
                self.in_bounds(q) && #[trigger] step_ok(p, q, diag) ==> exists|k: int|
                    0 <= k < self.neighbours_with_cost_seq(p, diag).len()
                        && #[trigger] self.neighbours_with_cost_seq(p, diag)[k] == (
                    q,
                    step_cost(p, q),
                    ),
    {
        self.lemma_dims_bounded();
        let s = self.neighbours_with_cost_seq(p, diag);
        let ortho = self.ortho_neighbour_seq(p);
        let diags = self.diag_neighbour_seq(p);
        assert forall|q: Position|
            self.in_bounds(q) && #[trigger] step_ok(p, q, diag) implies exists|k: int|
            0 <= k < s.len() && #[trigger] s[k] == (q, step_cost(p, q)) by {
            let dx = q.x - p.x;
            let dy = q.y - p.y;
            let o1 = self.nbr_if(p, 1, 0).len();
            let o2 = o1 + self.nbr_if(p, -1, 0).len();
            let o3 = o2 + self.nbr_if(p, 0, -1).len();
            let o4 = o3 + self.nbr_if(p, 0, 1).len();
            let d1 = self.nbr_if(p, 1, -1).len();
            let d2 = d1 + self.nbr_if(p, -1, -1).len();
            let d3 = d2 + self.nbr_if(p, 1, 1).len();
            if dy == 0 || dx == 0 {
                let k: int = if dx == 1 && dy == 0 {
                    0
                } else if dx == -1 && dy == 0 {
                    o1 as int
                } else if dy == -1 {
                    o2 as int
                } else {
                    o3 as int
                };
                assert(ortho[k] == q);
                assert(s[k] == (q, step_cost(p, q)));
                assert(0 <= k < s.len());
            } else {
                let j: int = if dx == 1 && dy == -1 {
                    0
                } else if dx == -1 && dy == -1 {
                    d1 as int
                } else if dx == 1 && dy == 1 {
                    d2 as int
                } else {
                    d3 as int
                };
                assert(diags[j] == q);
                let k = ortho.len() + j;
                assert(s[k] == (q, step_cost(p, q)));
                assert(0 <= k < s.len());
            }
        }
    }

    /// Run the search to completion on a freshly constructed (or otherwise
    /// never-solved) grid.
    ///
    /// Fails with `NotReady` exactly when start or goal is missing.
    /// Otherwise it succeeds exactly when some walkable route connects the
    /// start to the goal; on success the recorded path is such a route
    /// (listed from the goal back to the start), visits no cell twice, and
    /// its cells are exactly those classified `Path`.  When no route exists
    /// the grid reports `NoPathFound`, records no path, and the goal cell is
    /// left untouched.

    /// After the goal has been popped: record the elapsed time, reconstruct
    /// the path along parent links, classify its cells as `Path`, and store
    /// it.  `g0` is the grid the search started from.
    #[verifier::rlimit(100)]
    fn record_path(
        &mut self,
        t_start: &std::time::Instant,
        start_pos: Position,
        goal_pos: Position,
        Ghost(g0): Ghost<Grid>,
    )
        requires
            old(self).wf(),
            g0.wf(),
            g0.unsolved(),
            old(self).width == g0.width,
            old(self).height == g0.height,
            old(self).start == g0.start,
            old(self).goal == g0.goal,
            old(self).allow_diagonal == g0.allow_diagonal,
            old(self).nodes.len() == g0.nodes.len(),
            g0.start == Some(start_pos),
            g0.goal == Some(goal_pos),
            old(self).in_bounds(start_pos),
            old(self).in_bounds(goal_pos),
            old(self).path is None,
            old(self).parent_forest(),
            old(self).finite_g(old(self).idx_of(goal_pos)),
            forall|i: int|
                0 <= i < old(self).nodes.len() ==> {
                    let t1 = (#[trigger] old(self).nodes[i]).node_type;
                    &&& (t1 == NodeType::Obstacle <==> g0.nodes[i].node_type
                        == NodeType::Obstacle)
                    &&& (t1 == NodeType::Traversable && i != old(self).idx_of(start_pos) ==> old(self).nodes[i] == g0.nodes[i])
                    &&& (t1 == NodeType::Traversed ==> old(self).finite_g(i)
                        && g0.nodes[i].node_type == NodeType::Traversable)
                    &&& t1 != NodeType::Path
                },
        ensures
            final (self).wf(),
            final (self).width == g0.width,
            final (self).height == g0.height,
            final (self).start == g0.start,
            final (self).goal == g0.goal,
            final (self).allow_diagonal == g0.allow_diagonal,
            final (self).nodes.len() == g0.nodes.len(),
            final (self).parent_forest(),
            final (self).duration is Some,
            g0.has_path(),
            match final (self).path {
                Some(p) => {
                    &&& 1 <= p@.len() <= g0.cells()
                    &&& p@[0] == goal_pos
                    &&& p@[p@.len() - 1] == start_pos
                    &&& p@.no_duplicates()
                    &&& g0.valid_route(p@.reverse())
                    &&& route_cost(p@) <= final (self).g_at(goal_pos)
                    &&& forall|i: int|
                        0 <= i < final (self).nodes.len() ==> ((#[trigger] final (self).nodes[i]).node_type == NodeType::Path <==> p@.contains(
                            final (self).pos_of(i),
                        ))
                },
                None => false,
            },
            start_pos == goal_pos ==> match final (self).path {
                Some(p) => p@ == seq![start_pos],
                None => false,
            },
            forall|i: int|
                0 <= i < final (self).nodes.len() ==> {
                    let t0 = g0.nodes[i].node_type;
                    let t1 = (#[trigger] final (self).nodes[i]).node_type;
                    &&& (t1 == NodeType::Obstacle ==> t0 == NodeType::Obstacle)
                    &&& (t0 == NodeType::Obstacle && t1 != NodeType::Path ==> t1
                        == NodeType::Obstacle)
                    &&& (t1 == NodeType::Traversable && i != g0.idx_of(g0.start_pos())
                        ==> final (self).nodes[i] == g0.nodes[i])
                    &&& ((t1 == NodeType::Traversed || t1 == NodeType::Path) ==> final (self).finite_g(i))
                },
    {
        let elapsed = crate::clock::nanos_since(t_start);
        let ghost before_dur = *self;
        self.duration = Some(elapsed);
        proof {
            assert(self.nodes == before_dur.nodes);
            assert forall|i: int|
                0 <= i < self.nodes.len() implies #[trigger] self.parent_edge_ok_at(i) by {
                assert(before_dur.parent_edge_ok_at(i));
            }
            assert forall|i: int|
                0 <= i < self.nodes.len() && i != self.idx_of(self.start_pos())
                    && #[trigger] self.finite_g(i) implies self.nodes[i].parent is Some by {
                assert(before_dur.finite_g(i));
            }
            assert(self.parent_forest());
            self.lemma_index_position_inverse(goal_pos, 0);
        }
        let path_vec = self.trace_path(goal_pos);
        proof {
            let p = path_vec@;
            let route = p.reverse();
            let l = p.len() as int;
            assert(route.len() == l);
            assert(route[0] == p[l - 1] && route[l - 1] == p[0]);
            assert forall|j: int| 0 <= j < l implies self.in_bounds(#[trigger] route[j]) by {
                assert(route[j] == p[l - 1 - j]);
            }
            assert forall|j: int| 0 <= j < l - 1 implies step_ok(
                #[trigger] route[j],
                route[j + 1],
                g0.allow_diagonal,
            ) by {
                assert(route[j] == p[l - 1 - j] && route[j + 1] == p[l - 2 - j]);
                let c = l - 2 - j;
                assert(self.node_at(p[c]).parent == Some(p[c + 1]));
                self.lemma_index_position_inverse(p[c], 0);
                assert(self.parent_edge_ok_at(self.idx_of(p[c])));
            }
            assert forall|j: int| 1 <= j < l implies g0.node_at(#[trigger] route[j]).node_type
                != NodeType::Obstacle by {
                assert(route[j] == p[l - 1 - j]);
                let c = l - 1 - j;
                assert(self.node_at(p[c]).parent == Some(p[c + 1]));
                self.lemma_index_position_inverse(p[c], 0);
                assert(self.parent_edge_ok_at(self.idx_of(p[c])));
                assert(self.nodes[self.idx_of(p[c])].node_type != NodeType::Obstacle);
            }
            assert(g0.valid_route(route));
            assert(g0.has_path());
            self.lemma_chain_cost(p);
            self.lemma_index_position_inverse(start_pos, 0);
            assert(self.g_at(start_pos) == 0);
            assert(route_cost(p) <= self.g_at(goal_pos));
        }
        self.mark_path(path_vec, start_pos, goal_pos, Ghost(g0));
    }

    /// Classify every cell of the reconstructed path as `Path` and store the
    /// path.  `g0` is the grid the search started from.
    #[verifier::rlimit(100)]
    fn mark_path(
        &mut self,
        path_vec: Vec<Position>,
        start_pos: Position,
        goal_pos: Position,
        Ghost(g0): Ghost<Grid>,
    )
        requires
            old(self).wf(),
            g0.wf(),
            g0.unsolved(),
            old(self).width == g0.width,
            old(self).height == g0.height,
            old(self).start == g0.start,
            old(self).goal == g0.goal,
            old(self).allow_diagonal == g0.allow_diagonal,
            old(self).nodes.len() == g0.nodes.len(),
            g0.start == Some(start_pos),
            g0.goal == Some(goal_pos),
            old(self).in_bounds(start_pos),
            old(self).in_bounds(goal_pos),
            old(self).path is None,
            old(self).duration is Some,
            old(self).parent_forest(),
            g0.valid_route(path_vec@.reverse()),
            route_cost(path_vec@) <= old(self).g_at(goal_pos),
            1 <= path_vec@.len() <= g0.cells(),
            path_vec@[0] == goal_pos,
            path_vec@[path_vec@.len() - 1] == start_pos,
            path_vec@.no_duplicates(),
            forall|j: int|
                0 <= j < path_vec@.len() ==> old(self).in_bounds(#[trigger] path_vec@[j]) && old(self).finite_g(old(self).idx_of(path_vec@[j])),
            forall|i: int|
                0 <= i < old(self).nodes.len() ==> {
                    let t1 = (#[trigger] old(self).nodes[i]).node_type;
                    &&& (t1 == NodeType::Obstacle <==> g0.nodes[i].node_type
                        == NodeType::Obstacle)
                    &&& (t1 == NodeType::Traversable && i != old(self).idx_of(start_pos) ==> old(self).nodes[i] == g0.nodes[i])
                    &&& (t1 == NodeType::Traversed ==> old(self).finite_g(i)
                        && g0.nodes[i].node_type == NodeType::Traversable)
                    &&& t1 != NodeType::Path
                },
        ensures
            final (self).wf(),
            final (self).width == g0.width,
            final (self).height == g0.height,
            final (self).start == g0.start,
            final (self).goal == g0.goal,
            final (self).allow_diagonal == g0.allow_diagonal,
            final (self).nodes.len() == g0.nodes.len(),
            final (self).parent_forest(),
            final (self).duration is Some,
            match final (self).path {
                Some(p) => {
                    &&& p@ == path_vec@
                    &&& route_cost(p@) <= final (self).g_at(goal_pos)
                    &&& forall|i: int|
                        0 <= i < final (self).nodes.len() ==> ((#[trigger] final (self).nodes[i]).node_type == NodeType::Path <==> p@.contains(
                            final (self).pos_of(i),
                        ))
                },
                None => false,
            },
            forall|i: int|
                0 <= i < final (self).nodes.len() ==> {
                    let t0 = g0.nodes[i].node_type;
                    let t1 = (#[trigger] final (self).nodes[i]).node_type;
                    &&& (t1 == NodeType::Obstacle ==> t0 == NodeType::Obstacle)
                    &&& (t0 == NodeType::Obstacle && t1 != NodeType::Path ==> t1
                        == NodeType::Obstacle)
                    &&& (t1 == NodeType::Traversable && i != g0.idx_of(g0.start_pos())
                        ==> final (self).nodes[i] == g0.nodes[i])
                    &&& ((t1 == NodeType::Traversed || t1 == NodeType::Path) ==> final (self).finite_g(i))
                },
    {
        let ghost pre_mark = *self;
        let mut k: usize = 0;
        while k < path_vec.len()
            invariant
                self.wf(),
                k <= path_vec@.len(),
                self.width == pre_mark.width,
                self.height == pre_mark.height,
                self.start == pre_mark.start,
                self.goal == pre_mark.goal,
                self.allow_diagonal == pre_mark.allow_diagonal,
                self.nodes.len() == pre_mark.nodes.len(),
                self.path == pre_mark.path,
                self.duration == pre_mark.duration,
                pre_mark.wf(),
                pre_mark.parent_forest(),
                forall|j: int|
                    0 <= j < path_vec@.len() ==> pre_mark.in_bounds(#[trigger] path_vec@[j])
                        && pre_mark.finite_g(pre_mark.idx_of(path_vec@[j])),
                forall|i: int|
                    0 <= i < self.nodes.len() ==> {
                        let n0 = pre_mark.nodes[i];
                        let n1 = (#[trigger] self.nodes[i]);
                        &&& n1.g_cost == n0.g_cost
                        &&& n1.h_cost == n0.h_cost
                        &&& n1.f_cost == n0.f_cost
                        &&& n1.index == n0.index
                        &&& n1.parent == n0.parent
                        &&& n1.node_type == (if path_vec@.take(k as int).contains(
                            self.pos_of(i),
                        ) {
                            NodeType::Path
                        } else {
                            n0.node_type
                        })
                    },
            decreases path_vec@.len() - k,
        {
            let mpos = path_vec[k];
            proof {
                self.lemma_index_position_inverse(mpos, 0);
            }
            let mi = self.get_index_from_pos(&mpos);
            let mut mnode = self.nodes[mi];
            mnode.node_type = NodeType::Path;
            let ghost before = *self;
            self.nodes.set(mi, mnode);
            proof {
                assert forall|i: int| 0 <= i < self.nodes.len() implies {
                    let n0 = pre_mark.nodes[i];
                    let n1 = (#[trigger] self.nodes[i]);
                    &&& n1.g_cost == n0.g_cost
                    &&& n1.h_cost == n0.h_cost
                    &&& n1.f_cost == n0.f_cost
                    &&& n1.index == n0.index
                    &&& n1.parent == n0.parent
                    &&& n1.node_type == (if path_vec@.take(k + 1).contains(self.pos_of(i)) {
                        NodeType::Path
                    } else {
                        n0.node_type
                    })
                } by {
                    assert(path_vec@.take(k + 1) =~= path_vec@.take(k as int).push(
                        path_vec@[k as int],
                    ));
                    before.lemma_index_position_inverse(before.pos_of(i), i);
                    assert(self.pos_of(i) == before.pos_of(i));
                    if i == mi as int {
                        assert(self.pos_of(i) == mpos);
                        assert(path_vec@.take(k + 1).contains(mpos)) by {
                            assert(path_vec@.take(k + 1)[k as int] == mpos);
                        }
                    } else {
                        assert(self.nodes[i] == before.nodes[i]);
                        assert(self.pos_of(i) != mpos);
                        assert(path_vec@.take(k + 1).contains(self.pos_of(i))
                            <==> path_vec@.take(k as int).contains(self.pos_of(i))) by {
                            if path_vec@.take(k as int).contains(self.pos_of(i)) {
                                let x = choose|x: int|
                                    0 <= x < k && #[trigger] path_vec@.take(k as int)[x]
                                        == self.pos_of(i);
                                assert(path_vec@.take(k + 1)[x] == self.pos_of(i));
                            }
                            if path_vec@.take(k + 1).contains(self.pos_of(i)) {
                                let x = choose|x: int|
                                    0 <= x < k + 1 && #[trigger] path_vec@.take(k + 1)[x]
                                        == self.pos_of(i);
                                assert(x < k);
                                assert(path_vec@.take(k as int)[x] == self.pos_of(i));
                            }
                        }
                    }
                }
            }
            k = k + 1;
        }
        proof {
            assert(path_vec@.take(path_vec@.len() as int) =~= path_vec@);
        }
        let ghost p = path_vec@;
        let ghost post_mark = *self;
        self.path = Some(path_vec);
        proof {
            assert(self.nodes == post_mark.nodes);
            // the path-field update leaves every node untouched, so the
            // forest and the classification facts carry over
            assert forall|i: int|
                0 <= i < self.nodes.len() implies #[trigger] self.parent_edge_ok_at(i) by {
                assert(pre_mark.parent_edge_ok_at(i));
                assert(self.nodes[i].g_cost == pre_mark.nodes[i].g_cost);
                assert(self.nodes[i].parent == pre_mark.nodes[i].parent);
                assert(self.nodes[i].node_type != NodeType::Obstacle || pre_mark.nodes[i].node_type
                    == NodeType::Obstacle);
                match self.nodes[i].parent {
                    Some(q) => {
                        pre_mark.lemma_index_position_inverse(q, 0);
                        assert(self.idx_of(q) == pre_mark.idx_of(q));
                        assert(self.nodes[self.idx_of(q)].g_cost == pre_mark.nodes[pre_mark.idx_of(
                            q,
                        )].g_cost);
                        assert(self.nodes[i].node_type == NodeType::Path
                            || self.nodes[i].node_type == pre_mark.nodes[i].node_type);
                    },
                    None => {},
                }
            }
            assert forall|i: int|
                0 <= i < self.nodes.len() && i != self.idx_of(self.start_pos())
                    && #[trigger] self.finite_g(i) implies self.nodes[i].parent is Some by {
                assert(pre_mark.finite_g(i));
            }
            assert(self.node_at(self.start_pos()).g_cost == 0 && self.node_at(
                self.start_pos(),
            ).parent is None) by {
                pre_mark.lemma_index_position_inverse(start_pos, 0);
                assert(self.idx_of(start_pos) == pre_mark.idx_of(start_pos));
                assert(self.nodes[self.idx_of(start_pos)].g_cost == pre_mark.nodes[pre_mark.idx_of(
                    start_pos,
                )].g_cost);
                assert(self.nodes[self.idx_of(start_pos)].parent == pre_mark.nodes[pre_mark.idx_of(
                    start_pos,
                )].parent);
            }
            assert(self.parent_forest());
            // the marked cells are exactly the path cells
            assert forall|i: int|
                0 <= i < self.nodes.len() implies ((#[trigger] self.nodes[i]).node_type
                == NodeType::Path <==> p.contains(self.pos_of(i))) by {
                assert(self.nodes[i] == post_mark.nodes[i]);
                assert(self.pos_of(i) == post_mark.pos_of(i));
                assert(post_mark.nodes[i].node_type == (if p.contains(post_mark.pos_of(i)) {
                    NodeType::Path
                } else {
                    pre_mark.nodes[i].node_type
                }));
                assert(pre_mark.nodes[i].node_type != NodeType::Path);
            }
            // start == goal forces the one-cell path
            if start_pos == goal_pos {
                if p.len() >= 2 {
                    assert(p[0] == goal_pos && p[p.len() - 1] == start_pos);
                    assert(p[0] != p[p.len() - 1]);
                    assert(false);
                }
                assert(p =~= seq![start_pos]);
            }
            // classification facts of the final grid against the input
            assert forall|i: int| 0 <= i < self.nodes.len() implies {
                let t0 = g0.nodes[i].node_type;
                let t1 = (#[trigger] self.nodes[i]).node_type;
                &&& (t1 == NodeType::Obstacle ==> t0 == NodeType::Obstacle)
                &&& (t0 == NodeType::Obstacle && t1 != NodeType::Path ==> t1
                    == NodeType::Obstacle)
                &&& (t1 == NodeType::Traversable && i != g0.idx_of(g0.start_pos()) ==> self.nodes[i]
                    == g0.nodes[i])
                &&& ((t1 == NodeType::Traversed || t1 == NodeType::Path) ==> self.finite_g(i))
            } by {
                assert(self.nodes[i] == post_mark.nodes[i]);
                assert(post_mark.nodes[i].node_type == (if p.contains(post_mark.pos_of(i)) {
                    NodeType::Path
                } else {
                    pre_mark.nodes[i].node_type
                }));
                assert(self.nodes[i].g_cost == pre_mark.nodes[i].g_cost);
                if p.contains(post_mark.pos_of(i)) {
                    let j = choose|j: int| 0 <= j < p.len() && #[trigger] p[j] == post_mark.pos_of(
                        i,
                    );
                    assert(pre_mark.finite_g(pre_mark.idx_of(p[j])));
                    pre_mark.lemma_index_position_inverse(p[j], i);
                    assert(pre_mark.idx_of(p[j]) == i);
                }
            }
            assert(self.idx_of(start_pos) == g0.idx_of(g0.start_pos()));
            assert(self.g_at(goal_pos) == pre_mark.g_at(goal_pos)) by {
                pre_mark.lemma_index_position_inverse(goal_pos, 0);
                assert(self.idx_of(goal_pos) == pre_mark.idx_of(goal_pos));
                assert(self.nodes[self.idx_of(goal_pos)].g_cost == pre_mark.nodes[pre_mark.idx_of(
                    goal_pos,
                )].g_cost);
            }
        }
    }

    #[verifier::rlimit(100)]
    pub fn solve(&mut self, heuristic: &Heuristic) -> (result: Result<(), GridError>)
        requires
            old(self).wf(),
            old(self).unsolved(),
        ensures
            final (self).wf(),
            final (self).height == old(self).height,
            final (self).width == old(self).width,
            final (self).start == old(self).start,
            final (self).goal == old(self).goal,
            final (self).allow_diagonal == old(self).allow_diagonal,
            (result == Err::<(), GridError>(GridError::NotReady) <==> !old(self).ready()),
            result == Err::<(), GridError>(GridError::NotReady) ==> *final (self) == *old(self),
            (result == Ok::<(), GridError>(()) <==> old(self).ready() && old(self).has_path()),
            (result == Err::<(), GridError>(GridError::NoPathFound) <==> old(self).ready() && !old(self).has_path()),
            result is Ok ==> final (self).parent_forest() && final (self).duration is Some,
            result is Ok ==> match final (self).path {
                Some(p) => {
                    &&& 1 <= p@.len() <= old(self).cells()
                    &&& p@[0] == old(self).goal_pos()
                    &&& p@[p@.len() - 1] == old(self).start_pos()
                    &&& p@.no_duplicates()
                    &&& old(self).valid_route(p@.reverse())
                    &&& route_cost(p@) <= final (self).g_at(old(self).goal_pos())
                    &&& forall|i: int|
                        0 <= i < final (self).nodes.len() ==> ((#[trigger] final (self).nodes[i]).node_type == NodeType::Path <==> p@.contains(
                            final (self).pos_of(i),
                        ))
                },
                None => false,
            },
            result is Ok && old(self).start_pos() == old(self).goal_pos() ==> match final (self).path {
                Some(p) => p@ == seq![old(self).start_pos()],
                None => false,
            },
            result == Err::<(), GridError>(GridError::NoPathFound) ==> {
                &&& final (self).path is None
                &&& final (self).duration is None
                &&& final (self).parent_forest()
                &&& final (self).node_at(old(self).goal_pos()) == old(self).node_at(
                    old(self).goal_pos(),
                )
            },
            result != Err::<(), GridError>(GridError::NotReady) ==> forall|i: int|
                0 <= i < final (self).nodes.len() ==> {
                    let t0 = old(self).nodes[i].node_type;
                    let t1 = (#[trigger] final (self).nodes[i]).node_type;
                    &&& (t1 == NodeType::Obstacle ==> t0 == NodeType::Obstacle)
                    &&& (t0 == NodeType::Obstacle && t1 != NodeType::Path ==> t1
                        == NodeType::Obstacle)
                    &&& (t1 == NodeType::Traversable && i != old(self).idx_of(
                        old(self).start_pos(),
                    ) ==> final (self).nodes[i] == old(self).nodes[i])
                    &&& ((t1 == NodeType::Traversed || t1 == NodeType::Path) ==> final (self).finite_g(i))
                },
    {
        let (start_pos, goal_pos) = match (self.start, self.goal) {
            (Some(s), Some(g)) => (s, g),
            _ => {
                return Err(GridError::NotReady);
            },
        };
        let ghost g0 = *self;
        proof {
            self.lemma_index_position_inverse(start_pos, 0);
            self.lemma_index_position_inverse(goal_pos, 0);
            self.lemma_dims_bounded();
        }
        let start_i = self.get_index_from_pos(&start_pos);
        let goal_i = self.get_index_from_pos(&goal_pos);

        let start_h = self.heuristic_value(heuristic, &start_pos, &goal_pos);
        let mut start_node = self.nodes[start_i];
        start_node.h_cost = start_h;
        start_node.g_cost = 0;
        start_node.f_cost = start_h;
        self.nodes.set(start_i, start_node);

        let mut open: Vec<usize> = Vec::new();
        open.push(start_i);
        let ghost mut popped: Set<int> = Set::empty();
        let ghost mut rc: int = 0;
        let mut found = false;

        proof {
            assert forall|i: int|
                0 <= i < self.nodes.len() implies #[trigger] self.cell_inv_at(
                g0,
                open@,
                popped,
                rc,
                start_pos,
                i,
            ) by {
                assert(open@[0] == start_i);
                if i == start_i as int {
                    assert(in_open(open@, i));
                } else {
                    assert(self.nodes[i] == g0.nodes[i]);
                    assert(!in_open(open@, i));
                }
            }
            assert forall|i: int| 0 <= i < self.nodes.len() implies #[trigger] self.parent_edge_ok_at(
                i,
            ) by {
                assert(self.nodes[i].parent == g0.nodes[i].parent);
            }
            assert(open@[0] == start_i);
            assert(in_open(open@, start_i as int));
        }

        let t_start = crate::clock::clock_now();

        loop
            invariant_except_break
                self.wf(),
                self.width == g0.width,
                self.height == g0.height,
                self.start == g0.start,
                self.goal == g0.goal,
                self.allow_diagonal == g0.allow_diagonal,
                self.nodes.len() == g0.nodes.len(),
                self.path is None,
                self.duration is None,
                g0.wf(),
                g0.unsolved(),
                g0.start == Some(start_pos),
                g0.goal == Some(goal_pos),
                self.in_bounds(start_pos),
                self.in_bounds(goal_pos),
                start_i == self.idx_of(start_pos),
                goal_i == self.idx_of(goal_pos),
                found == false,
                self.open_ok(open@, popped),
                popped.finite(),
                forall|i: int| #[trigger] popped.contains(i) ==> 0 <= i < self.nodes.len(),
                0 <= rc <= 8 * popped.len(),
                forall|i: int|
                    0 <= i < self.nodes.len() ==> #[trigger] self.cell_inv_at(
                        g0,
                        open@,
                        popped,
                        rc,
                        start_pos,
                        i,
                    ),
                forall|i: int| #[trigger] popped.contains(i) ==> self.popped_closure_at(i),
                self.parent_forest(),
                pushed(open@, popped, start_i as int),
                !popped.contains(goal_i as int),
            ensures
                self.wf(),
                self.width == g0.width,
                self.height == g0.height,
                self.start == g0.start,
                self.goal == g0.goal,
                self.allow_diagonal == g0.allow_diagonal,
                self.nodes.len() == g0.nodes.len(),
                self.path is None,
                self.duration is None,
                self.parent_forest(),
                forall|i: int|
                    0 <= i < self.nodes.len() ==> {
                        let t1 = (#[trigger] self.nodes[i]).node_type;
                        &&& (t1 == NodeType::Obstacle <==> g0.nodes[i].node_type
                            == NodeType::Obstacle)
                        &&& (t1 == NodeType::Traversable && i != self.idx_of(start_pos)
                            ==> self.nodes[i] == g0.nodes[i])
                        &&& (t1 == NodeType::Traversed ==> self.finite_g(i)
                            && g0.nodes[i].node_type == NodeType::Traversable)
                        &&& t1 != NodeType::Path
                    },
                found ==> self.finite_g(self.idx_of(goal_pos)),
                !found ==> !self.has_path() && self.nodes[self.idx_of(goal_pos)] == g0.nodes[self.idx_of(
                    goal_pos,
                )],
            decreases open@.len() + g0.cells() - count_traversed(self.nodes@),
        {
            proof {
                lemma_count_traversed_bounds(self.nodes@);
            }
            if open.len() == 0 {
                proof {
                    self.lemma_index_position_inverse(start_pos, 0);
                    self.lemma_index_position_inverse(goal_pos, 0);
                    assert(forall|v: int| !in_open(open@, v));
                    assert forall|i: int|
                        0 <= i < self.nodes.len() && #[trigger] self.finite_g(i) implies popped.contains(
                        i,
                    ) by {
                        assert(self.cell_inv_at(g0, open@, popped, rc, start_pos, i));
                    }
                    assert(popped.contains(start_i as int));
                    self.lemma_no_route(popped);
                    assert(self.cell_inv_at(g0, open@, popped, rc, start_pos, goal_i as int));
                    assert(!pushed(open@, popped, goal_i as int));
                    assert(self.nodes[goal_i as int] == g0.nodes[goal_i as int]);
                    assert forall|i: int| 0 <= i < self.nodes.len() implies {
                        let t1 = (#[trigger] self.nodes[i]).node_type;
                        &&& (t1 == NodeType::Obstacle <==> g0.nodes[i].node_type
                            == NodeType::Obstacle)
                        &&& (t1 == NodeType::Traversable && i != self.idx_of(start_pos)
                            ==> self.nodes[i] == g0.nodes[i])
                        &&& (t1 == NodeType::Traversed ==> self.finite_g(i)
                            && g0.nodes[i].node_type == NodeType::Traversable)
                        &&& t1 != NodeType::Path
                    } by {
                        assert(self.cell_inv_at(g0, open@, popped, rc, start_pos, i));
                    }
                }
                break ;
            }
            let ghost open_before = open@;
            let cur = pop_best(&self.nodes, &mut open);
            if self.nodes[cur].index == goal_i {
                found = true;
                proof {
                    self.lemma_index_position_inverse(goal_pos, 0);
                    assert(cur == goal_i);
                    assert(self.cell_inv_at(g0, open_before, popped, rc, start_pos, cur as int));
                    assert(in_open(open_before, cur as int)) by {
                        let j = choose|j: int|
                            0 <= j < open_before.len() && open_before[j] == cur && open@
                                == open_before.remove(j);
                        assert(open_before[j] as int == cur as int);
                    }
                    assert(self.finite_g(goal_i as int));
                    assert forall|i: int| 0 <= i < self.nodes.len() implies {
                        let t1 = (#[trigger] self.nodes[i]).node_type;
                        &&& (t1 == NodeType::Obstacle <==> g0.nodes[i].node_type
                            == NodeType::Obstacle)
                        &&& (t1 == NodeType::Traversable && i != self.idx_of(start_pos)
                            ==> self.nodes[i] == g0.nodes[i])
                        &&& (t1 == NodeType::Traversed ==> self.finite_g(i)
                            && g0.nodes[i].node_type == NodeType::Traversable)
                        &&& t1 != NodeType::Path
                    } by {
                        assert(self.cell_inv_at(g0, open_before, popped, rc, start_pos, i));
                    }
                }
                break ;
            }
            proof {
                self.lemma_index_position_inverse(start_pos, 0);
                self.lemma_index_position_inverse(goal_pos, 0);
                let j = choose|j: int|
                    0 <= j < open_before.len() && open_before[j] == cur && open@
                        == open_before.remove(j);
                lemma_remove_membership(open_before, j);
                let popped_before = popped;
                popped = popped.insert(cur as int);
                assert(in_open(open_before, cur as int)) by {
                    assert(open_before[j] as int == cur as int);
                }
                assert(!popped_before.contains(cur as int));
                assert(popped.len() == popped_before.len() + 1);
                assert(cur as int != goal_i as int);
                assert forall|i: int|
                    0 <= i < self.nodes.len() implies #[trigger] self.cell_inv_at(
                    g0,
                    open@,
                    popped,
                    rc,
                    start_pos,
                    i,
                ) by {
                    assert(self.cell_inv_at(g0, open_before, popped_before, rc, start_pos, i));
                    assert(pushed(open@, popped, i) <==> pushed(open_before, popped_before, i));
                }
                assert(self.cell_inv_at(g0, open@, popped, rc, start_pos, cur as int));
                assert(self.finite_g(cur as int));
                self.lemma_popped_card(popped);
            }
            let current_pos = self.get_pos_from_index(cur);
            let neighbours = if self.allow_diagonal {
                self.get_neighbours_diag_cost(&current_pos)
            } else {
                self.get_neighbours_cost(&current_pos)
            };
            proof {
                self.lemma_neighbours_with_cost_complete(current_pos, self.allow_diagonal);
                assert(neighbours@.len() <= 8);
            }
            let ghost open_at_cur = open@;
            let ghost count_at_cur = count_traversed(self.nodes@);
            let mut k: usize = 0;
            while k < neighbours.len()
                invariant
                    self.wf(),
                    self.width == g0.width,
                    self.height == g0.height,
                    self.start == g0.start,
                    self.goal == g0.goal,
                    self.allow_diagonal == g0.allow_diagonal,
                    self.nodes.len() == g0.nodes.len(),
                    self.path is None,
                    self.duration is None,
                    g0.wf(),
                    g0.unsolved(),
                    g0.start == Some(start_pos),
                    g0.goal == Some(goal_pos),
                    self.in_bounds(start_pos),
                    self.in_bounds(goal_pos),
                    start_i == self.idx_of(start_pos),
                    goal_i == self.idx_of(goal_pos),
                    k <= neighbours.len(),
                    neighbours@ == self.neighbours_with_cost_seq(
                        self.pos_of(cur as int),
                        self.allow_diagonal,
                    ),
                    neighbours@.len() <= 8,
                    current_pos == self.pos_of(cur as int),
                    cur < self.nodes.len(),
                    cur as int == self.idx_of(current_pos),
                    self.in_bounds(current_pos),
                    popped.contains(cur as int),
                    cur != goal_i,
                    self.finite_g(cur as int),
                    self.open_ok(open@, popped),
                    popped.finite(),
                    popped.len() <= self.cells(),
                    forall|i: int| #[trigger] popped.contains(i) ==> 0 <= i < self.nodes.len(),
                    0 <= rc <= 8 * (popped.len() - 1) + k,
                    forall|i: int|
                        0 <= i < self.nodes.len() ==> #[trigger] self.cell_inv_at(
                            g0,
                            open@,
                            popped,
                            rc,
                            start_pos,
                            i,
                        ),
                    forall|i: int|
                        #[trigger] popped.contains(i) && i != cur as int
                            ==> self.popped_closure_at(i),
                    forall|j: int|
                        0 <= j < k ==> {
                            let q = (#[trigger] neighbours@[j]).0;
                            self.node_at(q).node_type == NodeType::Obstacle || self.finite_g(
                                self.idx_of(q),
                            )
                        },
                    self.parent_forest(),
                    pushed(open@, popped, start_i as int),
                    !popped.contains(goal_i as int),
                    open@.len() + count_at_cur == open_at_cur.len() + count_traversed(self.nodes@),
                decreases neighbours.len() - k,
            {
                let pair = neighbours[k];
                let npos = pair.0;
                let cost = pair.1;
                proof {
                    assert(self.neighbours_with_cost_seq(current_pos, self.allow_diagonal)[k as int]
                        == (npos, cost));
                    assert(self.in_bounds(npos) && step_ok(current_pos, npos, self.allow_diagonal)
                        && cost == step_cost(current_pos, npos));
                    self.lemma_index_position_inverse(npos, 0);
                }
                let ni = self.get_index_from_pos(&npos);
                let nnode = self.nodes[ni];
                proof {
                    rc = rc + 1;
                    assert(self.cell_inv_at(g0, open@, popped, rc - 1, start_pos, cur as int));
                    assert(self.nodes[cur as int].g_cost <= 14 * (rc - 1));
                    vstd::arithmetic::mul::lemma_mul_inequality(
                        popped.len() as int,
                        self.cells(),
                        8,
                    );
                    vstd::arithmetic::mul::lemma_mul_inequality(
                        self.cells(),
                        MAX_CELLS as int,
                        112,
                    );
                    assert(14 * rc <= 112 * (MAX_CELLS as int) + 14) by (nonlinear_arith)
                        requires
                            rc <= 8 * (popped.len() as int) + 1,
                            popped.len() as int <= self.cells() <= MAX_CELLS as int,
                    {
                    }
                    assert forall|i: int|
                        0 <= i < self.nodes.len() implies #[trigger] self.cell_inv_at(
                        g0,
                        open@,
                        popped,
                        rc,
                        start_pos,
                        i,
                    ) by {
                        assert(self.cell_inv_at(g0, open@, popped, rc - 1, start_pos, i));
                    }
                }
                if !(nnode.node_type == NodeType::Obstacle) {
                    let temp_g = self.nodes[cur].g_cost + cost;
                    if !(temp_g > nnode.g_cost) {
                        // relaxation: a path through `cur` is at least as good
                        proof {
                            assert(ni != start_i) by {
                                if ni == start_i {
                                    assert(self.node_at(start_pos).g_cost == 0);
                                }
                            }
                            assert(self.cell_inv_at(g0, open@, popped, rc, start_pos, ni as int));
                        }
                        let h = self.heuristic_value(heuristic, &npos, &goal_pos);
                        let f = temp_g + h;
                        let was_traversed = nnode.node_type == NodeType::Traversed;
                        let mut nd = nnode;
                        nd.g_cost = temp_g;
                        nd.h_cost = h;
                        nd.f_cost = f;
                        nd.parent = Some(current_pos);
                        if !was_traversed {
                            nd.node_type = NodeType::Traversed;
                        }
                        let ghost nodes_before = self.nodes@;
                        let ghost self_before = *self;
                        self.nodes.set(ni, nd);
                        proof {
                            lemma_count_traversed_update(nodes_before, ni as int, nd);
                            assert(ni != cur) by {
                                if ni == cur {
                                    assert(self_before.pos_of(cur as int) == npos);
                                }
                            }
                            assert(self.nodes[cur as int] == self_before.nodes[cur as int]);
                            assert(self.nodes[ni as int] == nd);
                            assert(temp_g <= 14 * rc && 14 * rc < usize::MAX);
                            assert(self.finite_g(ni as int));
                            // parent links stay a forest: the new edge is the
                            // legal step just taken, and a decreased cost only
                            // loosens the inequalities of edges into `ni`
                            assert forall|i: int|
                                0 <= i < self.nodes.len() implies #[trigger] self.parent_edge_ok_at(
                                i,
                            ) by {
                                assert(self_before.parent_edge_ok_at(i));
                                if i == ni as int {
                                    assert(self.pos_of(i) == npos);
                                    assert(self.idx_of(current_pos) == cur as int);
                                    assert(self.finite_g(cur as int)) by {
                                        assert(self_before.nodes[cur as int].g_cost < usize::MAX);
                                    }
                                    assert(self.nodes[i].g_cost == temp_g);
                                    assert(temp_g >= self.nodes[cur as int].g_cost + step_cost(
                                        current_pos,
                                        npos,
                                    ));
                                    assert(self.nodes[i].node_type != NodeType::Obstacle);
                                } else {
                                    assert(self.nodes[i] == self_before.nodes[i]);
                                    match self.nodes[i].parent {
                                        Some(p) => {
                                            self_before.lemma_index_position_inverse(p, 0);
                                            assert(self.idx_of(p) == self_before.idx_of(p));
                                            if self_before.idx_of(p) == ni as int {
                                                assert(self.nodes[ni as int].g_cost
                                                    <= self_before.nodes[ni as int].g_cost);
                                            } else {
                                                assert(self.nodes[self.idx_of(p)]
                                                    == self_before.nodes[self.idx_of(p)]);
                                            }
                                        },
                                        None => {},
                                    }
                                }
                            }
                            assert(self.node_at(start_pos).g_cost == 0 && self.node_at(
                                start_pos,
                            ).parent is None) by {
                                assert(self.nodes[start_i as int]
                                    == self_before.nodes[start_i as int]);
                            }
                            assert forall|i: int|
                                0 <= i < self.nodes.len() && i != self.idx_of(start_pos)
                                    && #[trigger] self.finite_g(i) implies self.nodes[i].parent is Some by {
                                if i != ni as int {
                                    assert(self.nodes[i] == self_before.nodes[i]);
                                    assert(self_before.finite_g(i));
                                }
                            }
                        }
                        if !was_traversed {
                            proof {
                                assert(!pushed(open@, popped, ni as int)) by {
                                    assert(self_before.cell_inv_at(
                                        g0,
                                        open@,
                                        popped,
                                        rc,
                                        start_pos,
                                        ni as int,
                                    ));
                                    if pushed(open@, popped, ni as int) {
                                        assert(self_before.nodes[ni as int].node_type
                                            == NodeType::Traversed);
                                    }
                                }
                            }
                            let ghost open_b = open@;
                            open.push(ni);
                            proof {
                                lemma_push_membership(open_b, ni);
                                assert(open@.no_duplicates()) by {
                                    assert(forall|x: int|
                                        0 <= x < open_b.len() ==> open_b[x] == open@[x]);
                                    assert(open@[open_b.len() as int] == ni);
                                    assert(!in_open(open_b, ni as int));
                                    assert forall|x: int, y: int|
                                        0 <= x < open@.len() && 0 <= y < open@.len() && x
                                            != y implies open@[x] != open@[y] by {
                                        if x < open_b.len() && y < open_b.len() {
                                        } else if x < open_b.len() {
                                            assert(in_open(open_b, open_b[x] as int));
                                        } else if y < open_b.len() {
                                            assert(in_open(open_b, open_b[y] as int));
                                        }
                                    }
                                }
                                assert forall|i: int|
                                    0 <= i < self.nodes.len() implies #[trigger] self.cell_inv_at(
                                    g0,
                                    open@,
                                    popped,
                                    rc,
                                    start_pos,
                                    i,
                                ) by {
                                    assert(self_before.cell_inv_at(
                                        g0,
                                        open_b,
                                        popped,
                                        rc,
                                        start_pos,
                                        i,
                                    ));
                                    assert(pushed(open@, popped, i) <==> pushed(open_b, popped, i)
                                        || i == ni as int);
                                    if i != ni as int {
                                        assert(self.nodes[i] == self_before.nodes[i]);
                                    } else {
                                        assert(self.nodes[i].g_cost == temp_g <= 14 * rc);
                                        assert(self.nodes[i].node_type == NodeType::Traversed);
                                        assert(g0.nodes[i].node_type == NodeType::Traversable)
                                            by {
                                            assert(self_before.nodes[i]
                                                == g0.nodes[i]);
                                        }
                                    }
                                }
                            }
                        } else {
                            proof {
                                assert forall|i: int|
                                    0 <= i < self.nodes.len() implies #[trigger] self.cell_inv_at(
                                    g0,
                                    open@,
                                    popped,
                                    rc,
                                    start_pos,
                                    i,
                                ) by {
                                    assert(self_before.cell_inv_at(
                                        g0,
                                        open@,
                                        popped,
                                        rc,
                                        start_pos,
                                        i,
                                    ));
                                    if i != ni as int {
                                        assert(self.nodes[i] == self_before.nodes[i]);
                                    } else {
                                        assert(pushed(open@, popped, i)) by {
                                            assert(self_before.nodes[i].node_type
                                                == NodeType::Traversed);
                                        }
                                        assert(self.nodes[i].g_cost == temp_g <= 14 * rc);
                                        assert(self.nodes[i].node_type == NodeType::Traversed);
                                    }
                                }
                            }
                        }
                        proof {
                            assert forall|i: int|
                                #[trigger] popped.contains(i) && i != cur as int implies self.popped_closure_at(
                                i,
                            ) by {
                                assert(self_before.popped_closure_at(i));
                                assert forall|q: Position|
                                    self.in_bounds(q) && #[trigger] step_ok(
                                        self.pos_of(i),
                                        q,
                                        self.allow_diagonal,
                                    ) implies (self.node_at(q).node_type == NodeType::Obstacle
                                    || self.finite_g(self.idx_of(q))) by {
                                    assert(self.pos_of(i) == self_before.pos_of(i));
                                    assert(step_ok(
                                        self_before.pos_of(i),
                                        q,
                                        self_before.allow_diagonal,
                                    ));
                                    assert(self_before.node_at(q).node_type == NodeType::Obstacle
                                        || self_before.finite_g(self_before.idx_of(q)));
                                    self_before.lemma_index_position_inverse(q, 0);
                                    if self.idx_of(q) != ni as int {
                                        assert(self.nodes[self.idx_of(q)]
                                            == self_before.nodes[self.idx_of(q)]);
                                    } else {
                                        assert(self.finite_g(ni as int));
                                    }
                                }
                            }
                        }
                    }
                }
                proof {
                    assert forall|j: int| 0 <= j < k + 1 implies {
                        let q = (#[trigger] neighbours@[j]).0;
                        self.node_at(q).node_type == NodeType::Obstacle || self.finite_g(
                            self.idx_of(q),
                        )
                    } by {
                        let q = neighbours@[j].0;
                        self.lemma_index_position_inverse(q, 0);
                    }
                }
                k = k + 1;
            }
            proof {
                assert(self.popped_closure_at(cur as int)) by {
                    assert forall|q: Position|
                        self.in_bounds(q) && #[trigger] step_ok(
                            self.pos_of(cur as int),
                            q,
                            self.allow_diagonal,
                        ) implies (self.node_at(q).node_type == NodeType::Obstacle || self.finite_g(
                        self.idx_of(q),
                    )) by {
                        let kk = choose|kk: int|
                            0 <= kk < self.neighbours_with_cost_seq(
                                current_pos,
                                self.allow_diagonal,
                            ).len() && #[trigger] self.neighbours_with_cost_seq(
                                current_pos,
                                self.allow_diagonal,
                            )[kk] == (q, step_cost(current_pos, q));
                        assert(neighbours@[kk].0 == q);
                    }
                }
                assert forall|i: int| #[trigger] popped.contains(i) implies self.popped_closure_at(
                    i,
                ) by {
                }
                assert(rc <= 8 * popped.len());
            }
        }

        if found {
            self.record_path(&t_start, start_pos, goal_pos, Ghost(g0));
            proof {
                assert(g0 == *old(self));
            }
            Ok(())
        } else {
            proof {
                self.lemma_route_transfer(g0);
            }
            Err(GridError::NoPathFound)
        }
    }
}

} // verus!
