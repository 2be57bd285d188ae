//! The grid: one node per cell, start/goal bookkeeping, and neighbour
//! generation.  The search itself lives in the `search` module.

use vstd::prelude::*;
use vstd::arithmetic::div_mod::lemma_fundamental_div_mod_converse;
use vstd::arithmetic::mul::lemma_mul_inequality;
use crate::node::Node;
use crate::node::NodeType;
use crate::position::Position;

verus! {

/// Choice of heuristic handed to [`Grid::solve`].
#[derive(Clone, Copy, Debug, PartialEq, Eq, Structural)]
pub enum Heuristic {
    Manhattan,
    Diagonal,
    Euclidean,
}

/// Everything that can go wrong when operating a [`Grid`].
#[derive(Clone, Copy, Debug, PartialEq, Eq, Structural)]
pub enum GridError {
    /// `solve` was invoked before both start and goal were set.
    NotReady,
    /// A coordinate accessor was given coordinates outside the grid.
    OutOfBounds,
    /// The open set was exhausted without reaching the goal.
    NoPathFound,
}

/// Upper bound on `width * height`.  It keeps every index, accumulated path
/// cost and `f_cost` computed by the search comfortably inside `usize` on
/// every architecture.
pub const MAX_CELLS: usize = 0x1000000;

/// A rectangular grid of [`Node`]s, stored row-major: the cell `(x, y)` lives
/// at index `width * y + x`.
pub struct Grid {
    pub height: usize,
    pub width: usize,
    pub nodes: Vec<Node>,
    pub goal: Option<Position>,
    pub start: Option<Position>,
    pub allow_diagonal: bool,
    /// After a successful solve: the found path, listed from the goal back to
    /// the start.
    pub path: Option<Vec<Position>>,
    /// After a successful solve: nanoseconds from the start of the search to
    /// the moment the goal was popped from the open set.
    pub duration: Option<u64>,
}

impl Grid {
    /// The cell count, as an unbounded integer.
    pub open spec fn cells(self) -> int {
        self.width * self.height
    }

    /// `p` lies inside `[0, width) x [0, height)`.
    pub open spec fn in_bounds(self, p: Position) -> bool {
        0 <= p.x < self.width && 0 <= p.y < self.height
    }

    /// Row-major index of `p`.
    pub open spec fn idx_of(self, p: Position) -> int {
        p.y * self.width + p.x
    }

    /// Inverse of `idx_of` for indices inside the grid.
    pub open spec fn pos_of(self, i: int) -> Position {
        Position { x: (i % self.width as int) as i32, y: (i / self.width as int) as i32 }
    }

    /// The node of cell `p`.
    pub open spec fn node_at(self, p: Position) -> Node {
        self.nodes[self.idx_of(p)]
    }

    /// Structural well-formedness: positive dimensions within [`MAX_CELLS`],
    /// exactly one node per cell carrying its own index, and start/goal (when
    /// set) inside the grid.
    pub open spec fn wf(self) -> bool {
        &&& 1 <= self.width
        &&& 1 <= self.height
        &&& self.width * self.height <= MAX_CELLS
        &&& self.nodes.len() == self.width * self.height
        &&& forall|i: int|
            0 <= i < self.nodes.len() ==> (#[trigger] self.nodes[i]).index == i
        &&& match self.start {
            Some(p) => self.in_bounds(p),
            None => true,
        }
        &&& match self.goal {
            Some(p) => self.in_bounds(p),
            None => true,
        }
    }

    /// No search has run since construction: every cell still carries the
    /// sentinel costs, no parent links exist, no cell is `Traversed` or
    /// `Path`, and no path or duration is recorded.
    pub open spec fn unsolved(self) -> bool {
        &&& forall|i: int|
            0 <= i < self.nodes.len() ==> {
                let n = #[trigger] self.nodes[i];
                &&& n.g_cost == usize::MAX
                &&& n.h_cost == usize::MAX
                &&& n.f_cost == usize::MAX
                &&& n.parent is None
                &&& (n.node_type == NodeType::Traversable || n.node_type == NodeType::Obstacle)
            }
        &&& self.path is None
        &&& self.duration is None
    }

    /// Both start and goal are set.
    pub open spec fn ready(self) -> bool {
        self.goal is Some && self.start is Some
    }

    /// Each dimension alone also stays within [`MAX_CELLS`].
    pub proof fn lemma_dims_bounded(self)
        requires
            self.wf(),
        ensures
            self.width <= MAX_CELLS,
            self.height <= MAX_CELLS,
    {
        lemma_mul_inequality(1, self.height as int, self.width as int);
        lemma_mul_inequality(1, self.width as int, self.height as int);
        vstd::arithmetic::mul::lemma_mul_is_commutative(self.width as int, self.height as int);
    }

    /// `idx_of` and `pos_of` are mutual inverses: every in-bounds position
    /// maps to an index inside `[0, cells)` and back to itself, and every
    /// such index maps to an in-bounds position and back to itself.
    pub proof fn lemma_index_position_inverse(self, p: Position, i: int)
        requires
            self.wf(),
        ensures
            self.in_bounds(p) ==> 0 <= self.idx_of(p) < self.cells() && self.pos_of(self.idx_of(p))
                == p,
            0 <= i < self.cells() ==> self.in_bounds(self.pos_of(i)) && self.idx_of(self.pos_of(i))
                == i,
    {
        let w = self.width as int;
        let h = self.height as int;
        self.lemma_dims_bounded();
        if self.in_bounds(p) {
            let x = p.x as int;
            let y = p.y as int;
            assert(y * w + x < w * h) by (nonlinear_arith)
                requires
                    0 <= x < w,
                    0 <= y < h,
            {
            }
            assert(0 <= y * w + x) by (nonlinear_arith)
                requires
                    0 <= x,
                    0 <= y,
                    0 < w,
            {
            }
            lemma_fundamental_div_mod_converse(y * w + x, w, y, x);
        }
        if 0 <= i < self.cells() {
            let x = i % w;
            let y = i / w;
            vstd::arithmetic::div_mod::lemma_mod_bound(i, w);
            vstd::arithmetic::div_mod::lemma_div_pos_is_pos(i, w);
            assert(i == w * (i / w) + i % w) by {
                vstd::arithmetic::div_mod::lemma_fundamental_div_mod(i, w);
            }
            assert(y < h) by (nonlinear_arith)
                requires
                    i == w * y + x,
                    0 <= x < w,
                    0 <= y,
                    i < w * h,
            {
            }
            let q = self.pos_of(i);
            assert(q.x as int == x && q.y as int == y);
            assert(self.idx_of(q) == y * w + x);
            assert(y * w + x == i) by (nonlinear_arith)
                requires
                    i == w * y + x,
            {
            }
        }
    }

    /// A fresh grid: every cell `Traversable` with sentinel costs, no start,
    /// no goal, diagonal movement enabled.
    pub fn new(height: usize, width: usize) -> (g: Grid)
        requires
            1 <= height,
            1 <= width,
            height * width <= MAX_CELLS,
        ensures
            g.wf(),
            g.unsolved(),
            g.height == height,
            g.width == width,
            g.start is None,
            g.goal is None,
            g.allow_diagonal == true,
            forall|i: int|
                0 <= i < g.nodes.len() ==> (#[trigger] g.nodes[i]).node_type
                    == NodeType::Traversable,
    {
        proof {
            vstd::arithmetic::mul::lemma_mul_is_commutative(width as int, height as int);
        }
        let total = width * height;
        let mut nodes: Vec<Node> = Vec::new();
        let mut i: usize = 0;
        while i < total
            invariant
                i <= total,
                nodes.len() == i,
                forall|j: int|
                    0 <= j < i ==> {
                        let n = #[trigger] nodes[j];
                        &&& n.index == j
                        &&& n.node_type == NodeType::Traversable
                        &&& n.g_cost == usize::MAX
                        &&& n.h_cost == usize::MAX
                        &&& n.f_cost == usize::MAX
                        &&& n.parent is None
                    },
            decreases total - i,
        {
            let mut node = Node::default();
            node.index = i;
            nodes.push(node);
            i = i + 1;
        }
        Grid {
            height,
            width,
            nodes,
            goal: None,
            start: None,
            allow_diagonal: true,
            path: None,
            duration: None,
        }
    }

    /// `true` iff both start and goal have been set.
    pub fn is_ready(&self) -> (r: bool)
        ensures
            r == self.ready(),
    {
        self.goal.is_some() && self.start.is_some()
    }

    /// Whether `pos` lies inside the grid.
    pub fn is_valid_pos(&self, pos: &Position) -> (r: bool)
        requires
            self.wf(),
        ensures
            r == self.in_bounds(*pos),
    {
        pos.x >= 0 && (pos.x as usize) < self.width && pos.y >= 0 && (pos.y as usize) < self.height
    }

    /// Row-major index of an in-bounds position.
    pub fn get_index_from_pos(&self, pos: &Position) -> (i: usize)
        requires
            self.wf(),
            self.in_bounds(*pos),
        ensures
            i == self.idx_of(*pos),
            i < self.nodes.len(),
    {
        proof {
            self.lemma_index_position_inverse(*pos, 0);
            assert((self.width as int) * (pos.y as int) == (pos.y as int) * (self.width as int))
                by (nonlinear_arith);
        }
        self.width * (pos.y as usize) + (pos.x as usize)
    }

    /// Position of an index inside `[0, cells)`.
    pub fn get_pos_from_index(&self, idx: usize) -> (p: Position)
        requires
            self.wf(),
            idx < self.cells(),
        ensures
            p == self.pos_of(idx as int),
            self.in_bounds(p),
            self.idx_of(p) == idx,
    {
        proof {
            self.lemma_index_position_inverse(self.pos_of(idx as int), idx as int);
            self.lemma_dims_bounded();
        }
        let row = idx / self.width;
        let col = idx % self.width;
        Position::new(col as i32, row as i32)
    }

    /// Read-only snapshot of the cell at `(x, y)`.
    pub fn get_node_at(&self, x: usize, y: usize) -> (r: Result<Node, GridError>)
        requires
            self.wf(),
        ensures
            x < self.width && y < self.height ==> r == Ok::<Node, GridError>(
                self.node_at(Position { x: x as i32, y: y as i32 }),
            ),
            !(x < self.width && y < self.height) ==> r == Err::<Node, GridError>(
                GridError::OutOfBounds,
            ),
    {
        proof {
            self.lemma_dims_bounded();
        }
        if x < self.width && y < self.height {
            let pos = Position::new(x as i32, y as i32);
            let i = self.get_index_from_pos(&pos);
            Ok(self.nodes[i])
        } else {
            Err(GridError::OutOfBounds)
        }
    }

    /// Turn the cell at `(x, y)` into an obstacle.
    pub fn set_obstacle(&mut self, x: usize, y: usize) -> (r: Result<(), GridError>)
        requires
            old(self).wf(),
        ensures
            final (self).wf(),
            x < old(self).width && y < old(self).height ==> {
                let i = old(self).idx_of(Position { x: x as i32, y: y as i32 });
                &&& r == Ok::<(), GridError>(())
                &&& final (self).nodes[i].node_type == NodeType::Obstacle
                &&& final (self).nodes[i].g_cost == old(self).nodes[i].g_cost
                &&& final (self).nodes[i].h_cost == old(self).nodes[i].h_cost
                &&& final (self).nodes[i].f_cost == old(self).nodes[i].f_cost
                &&& final (self).nodes[i].index == old(self).nodes[i].index
                &&& final (self).nodes[i].parent == old(self).nodes[i].parent
                &&& forall|j: int|
                    0 <= j < old(self).nodes.len() && j != i ==> final (self).nodes[j] == old(
                        self,
                    ).nodes[j]
            },
            !(x < old(self).width && y < old(self).height) ==> r == Err::<(), GridError>(
                GridError::OutOfBounds,
            ) && *final (self) == *old(self),
            final (self).height == old(self).height,
            final (self).width == old(self).width,
            final (self).start == old(self).start,
            final (self).goal == old(self).goal,
            final (self).allow_diagonal == old(self).allow_diagonal,
            final (self).path == old(self).path,
            final (self).duration == old(self).duration,
            old(self).unsolved() ==> final (self).unsolved(),
    {
        proof {
            self.lemma_dims_bounded();
        }
        if x < self.width && y < self.height {
            let pos = Position::new(x as i32, y as i32);
            let i = self.get_index_from_pos(&pos);
            let mut node = self.nodes[i];
            node.set_obstacle();
            self.nodes.set(i, node);
            Ok(())
        } else {
            Err(GridError::OutOfBounds)
        }
    }

    /// Record the start coordinate; rejected when out of bounds.
    pub fn set_start(&mut self, x: usize, y: usize) -> (r: Result<(), GridError>)
        requires
            old(self).wf(),
        ensures
            final (self).wf(),
            x < old(self).width && y < old(self).height ==> r == Ok::<(), GridError>(())
                && final (self).start == Some(Position { x: x as i32, y: y as i32 }),
            !(x < old(self).width && y < old(self).height) ==> r == Err::<(), GridError>(
                GridError::OutOfBounds,
            ) && final (self).start == old(self).start,
            *final (self) == (Grid { start: final (self).start, ..*old(self) }),
    {
        proof {
            self.lemma_dims_bounded();
        }
        if x < self.width && y < self.height {
            self.start = Some(Position::new(x as i32, y as i32));
            Ok(())
        } else {
            Err(GridError::OutOfBounds)
        }
    }

    /// Record the goal coordinate; rejected when out of bounds.
    pub fn set_goal(&mut self, x: usize, y: usize) -> (r: Result<(), GridError>)
        requires
            old(self).wf(),
        ensures
            final (self).wf(),
            x < old(self).width && y < old(self).height ==> r == Ok::<(), GridError>(())
                && final (self).goal == Some(Position { x: x as i32, y: y as i32 }),
            !(x < old(self).width && y < old(self).height) ==> r == Err::<(), GridError>(
                GridError::OutOfBounds,
            ) && final (self).goal == old(self).goal,
            *final (self) == (Grid { goal: final (self).goal, ..*old(self) }),
    {
        proof {
            self.lemma_dims_bounded();
        }
        if x < self.width && y < self.height {
            self.goal = Some(Position::new(x as i32, y as i32));
            Ok(())
        } else {
            Err(GridError::OutOfBounds)
        }
    }

    /// Whether `(x, y)` is the stored goal coordinate.
    pub fn is_goal(&self, x: usize, y: usize) -> (r: bool)
        requires
            self.wf(),
        ensures
            r == match self.goal {
                Some(p) => p.x == x && p.y == y,
                None => false,
            },
    {
        proof {
            self.lemma_dims_bounded();
        }
        match self.goal {
            Some(p) => p.x >= 0 && p.y >= 0 && (p.x as usize) == x && (p.y as usize) == y,
            None => false,
        }
    }

    /// The candidate neighbour of `p` at offset `(dx, dy)`: a one-element
    /// sequence when it lies inside the grid, empty otherwise.
    pub open spec fn nbr_if(self, p: Position, dx: int, dy: int) -> Seq<Position> {
        let q = Position { x: (p.x + dx) as i32, y: (p.y + dy) as i32 };
        if self.in_bounds(q) {
            seq![q]
        } else {
            Seq::empty()
        }
    }

    /// The in-bounds orthogonal neighbours of `p`, in the fixed order
    /// right, left, top, bottom.
    pub open spec fn ortho_neighbour_seq(self, p: Position) -> Seq<Position> {
        self.nbr_if(p, 1, 0) + self.nbr_if(p, -1, 0) + self.nbr_if(p, 0, -1) + self.nbr_if(p, 0, 1)
    }

    /// The in-bounds diagonal neighbours of `p`, in the fixed order
    /// top-right, top-left, bottom-right, bottom-left.
    pub open spec fn diag_neighbour_seq(self, p: Position) -> Seq<Position> {
        self.nbr_if(p, 1, -1) + self.nbr_if(p, -1, -1) + self.nbr_if(p, 1, 1) + self.nbr_if(
            p,
            -1,
            1,
        )
    }

    /// The neighbours of `p` paired with their step costs: the orthogonal
    /// ones at cost 10 first, then (when diagonal movement is on) the
    /// diagonal ones at cost 14.
    pub open spec fn neighbours_with_cost_seq(self, p: Position, diag: bool) -> Seq<
        (Position, usize),
    > {
        self.ortho_neighbour_seq(p).map_values(|q: Position| (q, 10usize)) + if diag {
            self.diag_neighbour_seq(p).map_values(|q: Position| (q, 14usize))
        } else {
            Seq::empty()
        }
    }

    /// Append the candidate neighbour of `p` at offset `(dx, dy)` when it is
    /// in bounds.
    fn push_neighbour(&self, out: &mut Vec<Position>, p: &Position, dx: i32, dy: i32)
        requires
            self.wf(),
            self.in_bounds(*p),
            -1 <= dx <= 1,
            -1 <= dy <= 1,
        ensures
            final (out)@ == old(out)@ + self.nbr_if(*p, dx as int, dy as int),
    {
        proof {
            self.lemma_dims_bounded();
        }
        let q = Position::new(p.x + dx, p.y + dy);
        if self.is_valid_pos(&q) {
            out.push(q);
        } else {
            proof {
                assert(out@ =~= out@ + self.nbr_if(*p, dx as int, dy as int));
            }
        }
    }

    /// The in-bounds orthogonal neighbours of `me`, in the fixed order
    /// right, left, top, bottom.
    pub fn get_neighbours(&self, me: &Position) -> (r: Vec<Position>)
        requires
            self.wf(),
            self.in_bounds(*me),
        ensures
            r@ == self.ortho_neighbour_seq(*me),
    {
        let mut out: Vec<Position> = Vec::new();
        self.push_neighbour(&mut out, me, 1, 0);
        self.push_neighbour(&mut out, me, -1, 0);
        self.push_neighbour(&mut out, me, 0, -1);
        self.push_neighbour(&mut out, me, 0, 1);
        proof {
            assert(out@ =~= self.ortho_neighbour_seq(*me));
        }
        out
    }

    /// The in-bounds diagonal neighbours of `me`, in the fixed order
    /// top-right, top-left, bottom-right, bottom-left.
    pub fn get_neighbours_diag(&self, me: &Position) -> (r: Vec<Position>)
        requires
            self.wf(),
            self.in_bounds(*me),
        ensures
            r@ == self.diag_neighbour_seq(*me),
    {
        let mut out: Vec<Position> = Vec::new();
        self.push_neighbour(&mut out, me, 1, -1);
        self.push_neighbour(&mut out, me, -1, -1);
        self.push_neighbour(&mut out, me, 1, 1);
        self.push_neighbour(&mut out, me, -1, 1);
        proof {
            assert(out@ =~= self.diag_neighbour_seq(*me));
        }
        out
    }

    /// The orthogonal neighbours of `me`, each paired with the step cost 10.
    pub fn get_neighbours_cost(&self, me: &Position) -> (r: Vec<(Position, usize)>)
        requires
            self.wf(),
            self.in_bounds(*me),
        ensures
            r@ == self.neighbours_with_cost_seq(*me, false),
    {
        let ns = self.get_neighbours(me);
        let mut out: Vec<(Position, usize)> = Vec::new();
        let mut k: usize = 0;
        while k < ns.len()
            invariant
                k <= ns.len(),
                ns@ == self.ortho_neighbour_seq(*me),
                out@ == ns@.take(k as int).map_values(|q: Position| (q, 10usize)),
            decreases ns.len() - k,
        {
            out.push((ns[k], 10));
            proof {
                assert(ns@.take(k + 1) =~= ns@.take(k as int).push(ns@[k as int]));
                assert(out@ =~= ns@.take(k + 1).map_values(|q: Position| (q, 10usize)));
            }
            k = k + 1;
        }
        proof {
            assert(ns@.take(ns@.len() as int) =~= ns@);
            assert(out@ =~= self.neighbours_with_cost_seq(*me, false));
        }
        out
    }

    /// The orthogonal neighbours of `me` at cost 10 followed by the diagonal
    /// ones at cost 14.
    pub fn get_neighbours_diag_cost(&self, me: &Position) -> (r: Vec<(Position, usize)>)
        requires
            self.wf(),
            self.in_bounds(*me),
        ensures
            r@ == self.neighbours_with_cost_seq(*me, true),
    {
        let ds = self.get_neighbours_diag(me);
        let mut out = self.get_neighbours_cost(me);
        let mut k: usize = 0;
        while k < ds.len()
            invariant
                k <= ds.len(),
                ds@ == self.diag_neighbour_seq(*me),
                out@ == self.neighbours_with_cost_seq(*me, false) + ds@.take(k as int).map_values(
                    |q: Position| (q, 14usize),
                ),
            decreases ds.len() - k,
        {
            out.push((ds[k], 14));
            proof {
                assert(ds@.take(k + 1) =~= ds@.take(k as int).push(ds@[k as int]));
                assert(out@ =~= self.neighbours_with_cost_seq(*me, false) + ds@.take(
                    k + 1,
                ).map_values(|q: Position| (q, 14usize)));
            }
            k = k + 1;
        }
        proof {
            assert(ds@.take(ds@.len() as int) =~= ds@);
            assert(out@ =~= self.neighbours_with_cost_seq(*me, true));
        }
        out
    }

    /// Every generated neighbour lies inside the grid.
    pub proof fn lemma_neighbours_in_bounds(self, p: Position)
        requires
            self.wf(),
        ensures
            forall|k: int|
                0 <= k < self.ortho_neighbour_seq(p).len() ==> self.in_bounds(
                    #[trigger] self.ortho_neighbour_seq(p)[k],
                ),
            forall|k: int|
                0 <= k < self.diag_neighbour_seq(p).len() ==> self.in_bounds(
                    #[trigger] self.diag_neighbour_seq(p)[k],
                ),
    {
    }

    /// An interior cell has all four orthogonal and all four diagonal
    /// neighbours.
    pub proof fn lemma_interior_neighbour_count(self, p: Position)
        requires
            self.wf(),
            0 < p.x < self.width - 1,
            0 < p.y < self.height - 1,
        ensures
            self.ortho_neighbour_seq(p).len() == 4,
            self.diag_neighbour_seq(p).len() == 4,
            self.neighbours_with_cost_seq(p, true).len() == 8,
            self.neighbours_with_cost_seq(p, false).len() == 4,
    {
        self.lemma_dims_bounded();
    }

    /// A corner cell has exactly two orthogonal neighbours.
    pub proof fn lemma_corner_neighbour_count(self, p: Position)
        requires
            self.wf(),
            2 <= self.width,
            2 <= self.height,
            p.x == 0 || p.x == self.width - 1,
            p.y == 0 || p.y == self.height - 1,
        ensures
            self.ortho_neighbour_seq(p).len() == 2,
            self.neighbours_with_cost_seq(p, false).len() == 2,
    {
        self.lemma_dims_bounded();
    }

    /// Whether `(x, y)` is the stored start coordinate.
    pub fn is_start(&self, x: usize, y: usize) -> (r: bool)
        requires
            self.wf(),
        ensures
            r == match self.start {
                Some(p) => p.x == x && p.y == y,
                None => false,
            },
    {
        proof {
            self.lemma_dims_bounded();
        }
        match self.start {
            Some(p) => p.x >= 0 && p.y >= 0 && (p.x as usize) == x && (p.y as usize) == y,
            None => false,
        }
    }
}

} // verus!
