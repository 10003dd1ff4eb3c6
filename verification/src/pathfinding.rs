//! The cost model and search skeleton of the maze pathfinder. The
//! neighbour expansion of the search was never written: the search moves
//! the start node to the closed set and stops there.

use vstd::prelude::*;
use core::cmp::Ordering;
use crate::grid_coord::GridCoord;

verus! {

/// A search node: where it is, how it was reached, and its costs.
#[derive(Debug, Clone, Copy)]
pub struct Node {
    pub parent_node: GridCoord,
    pub coord: GridCoord,
    /// Distance between the current node and the start.
    pub g_cost: u32,
    /// Estimated distance from the current node to the end node.
    pub h_cost: u32,
}

/// Whether the cost heuristic of the two coordinates fits in a `u32`.
pub open spec fn h_cost_fits(from: GridCoord, end: GridCoord) -> bool {
    end.x * end.x + end.y * end.y + from.x * from.x + from.y * from.y <= u32::MAX
}

impl Node {
    /// The combined cost that orders the open set.
    pub open spec fn f_cost_spec(self) -> int {
        self.g_cost + self.h_cost
    }

    /// The cost heuristic of the unfinished search: the sum of the
    /// squares of all four coordinate components.
    pub fn h_cost(from: &GridCoord, end: &GridCoord) -> (r: u32)
        requires
            h_cost_fits(*from, *end),
        ensures
            r == end.x * end.x + end.y * end.y + from.x * from.x + from.y * from.y,
    {
        proof {
            assert(end.x * end.x >= 0 && end.y * end.y >= 0 && from.x * from.x >= 0
                && from.y * from.y >= 0) by (nonlinear_arith);
        }
        end.x * end.x + end.y * end.y + from.x * from.x + from.y * from.y
    }

    /// The node a search starts from: at `start`, no distance walked,
    /// no parent yet.
    pub fn init_start(start: GridCoord, end: GridCoord) -> (r: Self)
        requires
            h_cost_fits(start, end),
        ensures
            r.parent_node.x == 0,
            r.parent_node.y == 0,
            r.coord == start,
            r.g_cost == 0,
            r.h_cost == end.x * end.x + end.y * end.y + start.x * start.x + start.y * start.y,
    {
        Self {
            parent_node: Default::default(),
            coord: start,
            g_cost: 0,
            h_cost: Self::h_cost(&start, &end),
        }
    }

    /// The combined cost of this node; its parts must not overflow.
    pub fn f_cost(&self) -> (r: u32)
        requires
            self.g_cost + self.h_cost <= u32::MAX,
        ensures
            r == self.f_cost_spec(),
    {
        self.g_cost + self.h_cost
    }

    /// The combined cost widened so that it never overflows.
    fn f_cost_wide(&self) -> (r: u64)
        ensures
            r == self.f_cost_spec(),
    {
        (self.g_cost as u64) + (self.h_cost as u64)
    }
}

impl PartialEq for Node {
    /// Nodes compare by combined cost alone.
    fn eq(&self, other: &Self) -> (r: bool) {
        self.f_cost_wide() == other.f_cost_wide()
    }
}

impl Eq for Node {

}

impl vstd::std_specs::cmp::PartialEqSpecImpl for Node {
    open spec fn obeys_eq_spec() -> bool {
        true
    }

    open spec fn eq_spec(&self, other: &Self) -> bool {
        self.f_cost_spec() == other.f_cost_spec()
    }
}

impl PartialOrd for Node {
    /// Nodes order by combined cost alone.
    fn partial_cmp(&self, other: &Self) -> (r: Option<Ordering>) {
        let a = self.f_cost_wide();
        let b = other.f_cost_wide();
        if a < b {
            Some(Ordering::Less)
        } else if a > b {
            Some(Ordering::Greater)
        } else {
            Some(Ordering::Equal)
        }
    }
}

impl vstd::std_specs::cmp::PartialOrdSpecImpl for Node {
    open spec fn obeys_partial_cmp_spec() -> bool {
        true
    }

    open spec fn partial_cmp_spec(&self, other: &Self) -> Option<Ordering> {
        if self.f_cost_spec() < other.f_cost_spec() {
            Some(Ordering::Less)
        } else if self.f_cost_spec() > other.f_cost_spec() {
            Some(Ordering::Greater)
        } else {
            Some(Ordering::Equal)
        }
    }
}

/// Takes the node with the lowest combined cost out of the open set; on
/// ties, the earliest such node.
fn pop_lowest_f_cost(open: &mut Vec<Node>) -> (r: Node)
    requires
        old(open)@.len() > 0,
    ensures
        exists|i: int|
            0 <= i < old(open)@.len() && r == old(open)@[i]
                && final(open)@ == old(open)@.remove(i),
        forall|i: int|
            0 <= i < old(open)@.len() ==> r.f_cost_spec() <= old(open)@[i].f_cost_spec(),
{
    let mut best: usize = 0;
    let mut best_cost: u64 = open[0].f_cost_wide();
    let mut i: usize = 1;
    while i < open.len()
        invariant
            open@.len() > 0,
            0 <= best < i <= open@.len(),
            best_cost == open@[best as int].f_cost_spec(),
            forall|k: int| 0 <= k < i ==> best_cost <= open@[k].f_cost_spec(),
        decreases open@.len() - i,
    {
        let c = open[i].f_cost_wide();
        if c < best_cost {
            best = i;
            best_cost = c;
        }
        i = i + 1;
    }
    let r = open.remove(best);
    r
}

/// The search skeleton of the unfinished pathfinder: the cheapest open
/// node moves to the closed set, and, with no neighbour expansion ever
/// written, the open set is then dropped. The coordinates come back in
/// the order they were visited: the start coordinate alone.
pub fn path_find(from_coord: GridCoord, to_coord: GridCoord) -> (r: Vec<GridCoord>)
    requires
        h_cost_fits(from_coord, to_coord),
    ensures
        r@ == seq![from_coord],
{
    let start = Node::init_start(from_coord, to_coord);
    let mut open_set: Vec<Node> = Vec::new();
    open_set.push(start);
    let mut closed_set: Vec<Node> = Vec::new();
    while open_set.len() > 0
        invariant
            closed_set@.len() == 0 ==> open_set@ == seq![start],
            closed_set@.len() > 0 ==> closed_set@ == seq![start] && open_set@.len() == 0,
        decreases open_set@.len(),
    {
        let lowest_f_cost = pop_lowest_f_cost(&mut open_set);
        proof {
            assert(lowest_f_cost == start);
        }
        closed_set.push(lowest_f_cost);
        open_set.clear();
    }
    let mut r: Vec<GridCoord> = Vec::new();
    let mut i: usize = 0;
    while i < closed_set.len()
        invariant
            closed_set@ == seq![start],
            i <= closed_set@.len(),
            r@ =~= closed_set@.take(i as int).map_values(|n: Node| n.coord),
        decreases closed_set@.len() - i,
    {
        let n: Node = closed_set[i];
        r.push(n.coord);
        proof {
            assert(closed_set@.take(i + 1) =~= closed_set@.take(i as int).push(n));
            assert(r@ =~= closed_set@.take(i + 1).map_values(|n2: Node| n2.coord));
        }
        i = i + 1;
    }
    proof {
        assert(closed_set@.take(closed_set@.len() as int) =~= closed_set@);
        assert(r@ =~= seq![from_coord]);
    }
    r
}

} // verus!
