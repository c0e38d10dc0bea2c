//! One committed edge of the boundary graph.
//!
//! Each node of the graph holds the edge chosen for it: the cumulative
//! token count (`w`) and unknown-token count (`unk`) of the best path
//! ending there, the predecessor node it extends (`p`), and the rule that
//! produced it.

use vstd::prelude::*;

verus! {

/// The rule that produced an edge.
#[derive(Clone, Copy, PartialEq, Eq, Structural, Debug)]
pub enum EdgeType {
    /// The synthetic edge at node 0.
    Init,
    /// A complete dictionary word ends here.
    Dict,
    /// A single unrecognized character.
    Unk,
    /// A whole whitespace/punctuation run ends here.
    Space,
}

/// One edge of the boundary graph.
#[derive(Clone, Copy, PartialEq, Eq, Structural, Debug)]
pub struct Edge {
    /// Cumulative token count along the best path ending here.
    pub w: usize,
    /// Cumulative unknown-token count along that path.
    pub unk: usize,
    /// The node this edge extends.
    pub p: usize,
    /// The rule that produced this edge.
    pub etype: EdgeType,
}

/// Fewer unknown tokens wins; ties break toward fewer tokens overall.
pub open spec fn spec_better_than(a: Edge, b: Edge) -> bool {
    a.unk < b.unk || (a.unk == b.unk && a.w < b.w)
}

impl Edge {
    /// This edge is strictly preferable to `o`.
    pub fn better_than(&self, o: &Edge) -> (res: bool)
        ensures
            res == spec_better_than(*self, *o),
    {
        self.unk < o.unk || (self.unk == o.unk && self.w < o.w)
    }
}

} // verus!
