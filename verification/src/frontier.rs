//! The candidates a search has still to look at, cheapest first.

use crate::astar::PathNode;
use vstd::prelude::*;

verus! {

/// The candidates that wait to be expanded. `pop` hands out one of least
/// total cost; among several of least total cost, the one pushed first.
#[derive(Debug)]
pub struct OpenSet {
    nodes: Vec<PathNode>,
}

impl View for OpenSet {
    type V = Seq<PathNode>;

    /// The waiting candidates in the order in which they were pushed.
    closed spec fn view(&self) -> Seq<PathNode> {
        self.nodes@
    }
}

/// `i` is the position of the first candidate of least total cost.
pub open spec fn first_cheapest(nodes: Seq<PathNode>, i: int) -> bool {
    &&& 0 <= i < nodes.len()
    &&& forall|j: int| 0 <= j < nodes.len() ==> nodes[i].spec_f_cost() <= (#[trigger] nodes[j]).spec_f_cost()
    &&& forall|j: int| 0 <= j < i ==> nodes[i].spec_f_cost() < (#[trigger] nodes[j]).spec_f_cost()
}

impl OpenSet {
    /// The empty set.
    pub fn new() -> (set: Self)
        ensures
            set@ == Seq::<PathNode>::empty(),
    {
        Self { nodes: Vec::new() }
    }

    /// The number of waiting candidates.
    pub fn len(&self) -> (n: usize)
        ensures
            n == self@.len(),
    {
        self.nodes.len()
    }

    /// Adds a candidate.
    pub fn push(&mut self, node: PathNode)
        ensures
            final(self)@ == old(self)@.push(node),
    {
        self.nodes.push(node);
    }

    /// Takes out the first candidate of least total cost; `None` when no
    /// candidate waits.
    pub fn pop(&mut self) -> (r: Option<PathNode>)
        ensures
            match r {
                Some(node) => exists|i: int|
                    {
                        &&& #[trigger] first_cheapest(old(self)@, i)
                        &&& node == old(self)@[i]
                        &&& final(self)@ == old(self)@.remove(i)
                    },
                None => old(self)@.len() == 0 && final(self)@ == old(self)@,
            },
    {
        let count = self.nodes.len();
        if count == 0 {
            return None;
        }
        let mut best: usize = 0;
        let mut best_cost: u32 = self.nodes[0].f_cost();
        let mut j: usize = 1;
        while j < count
            invariant
                count == self.nodes@.len(),
                1 <= j <= count,
                best < j,
                best_cost == self.nodes@[best as int].spec_f_cost(),
                forall|k: int| 0 <= k < j ==> best_cost <= (#[trigger] self.nodes@[k]).spec_f_cost(),
                forall|k: int| 0 <= k < best ==> best_cost < (#[trigger] self.nodes@[k]).spec_f_cost(),
            decreases count - j,
        {
            let cost = self.nodes[j].f_cost();
            if cost < best_cost {
                best = j;
                best_cost = cost;
            }
            j += 1;
        }
        let ghost before = self@;
        assert(first_cheapest(before, best as int));
        let node = self.nodes.remove(best);
        assert(self@ == before.remove(best as int));
        Some(node)
    }
}

} // verus!
