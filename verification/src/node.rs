//! Per-cell search state.

use vstd::prelude::*;
use crate::position::Position;

verus! {

/// Classification of one grid cell.
///
/// `Traversable` is the initial state; a cell becomes `Traversed` once the
/// search has inserted it into the open set, and `Path` once it lies on the
/// reconstructed solution.  `Obstacle` is set by the caller before a solve
/// and excludes the cell from neighbour expansion.
#[derive(Clone, Copy, Debug, PartialEq, Eq, Structural)]
pub enum NodeType {
    Obstacle,
    Traversable,
    Traversed,
    Path,
}

/// Search state of one grid cell.  `usize::MAX` acts as the "infinity"
/// sentinel for the three cost fields until the cell is first relaxed.
#[derive(Clone, Copy, Debug)]
pub struct Node {
    pub node_type: NodeType,
    pub h_cost: usize,
    pub g_cost: usize,
    pub f_cost: usize,
    pub index: usize,
    pub parent: Option<Position>,
}

/// Queue ordering of the open set: ascending `f_cost`, ties broken by
/// ascending `index` for a deterministic expansion order.
pub open spec fn prefers(a: Node, b: Node) -> bool {
    a.f_cost < b.f_cost || (a.f_cost == b.f_cost && a.index < b.index)
}

impl Node {
    pub fn set_obstacle(&mut self)
        ensures
            final (self).node_type == NodeType::Obstacle,
            final (self).h_cost == old(self).h_cost,
            final (self).g_cost == old(self).g_cost,
            final (self).f_cost == old(self).f_cost,
            final (self).index == old(self).index,
            final (self).parent == old(self).parent,
    {
        self.node_type = NodeType::Obstacle
    }
}

impl Default for Node {
    /// A fresh, never-relaxed cell: traversable, all costs at the sentinel,
    /// no parent, and a placeholder index.
    fn default() -> (n: Node)
        ensures
            n.node_type == NodeType::Traversable,
            n.h_cost == usize::MAX,
            n.g_cost == usize::MAX,
            n.f_cost == usize::MAX,
            n.index == usize::MAX,
            n.parent is None,
    {
        Node {
            node_type: NodeType::Traversable,
            h_cost: usize::MAX,
            g_cost: usize::MAX,
            f_cost: usize::MAX,
            index: usize::MAX,
            parent: None,
        }
    }
}

} // verus!
