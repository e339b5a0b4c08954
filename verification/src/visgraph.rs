//! The visual graph that the writers render: nodes with their labels and
//! colours, edges between them, and nested groups of nodes.

use vstd::prelude::*;

verus! {

/// A node as it is drawn.
pub struct VisualNode {
    pub id: String,
    pub label: String,
    pub fill_color: String,
    pub text_color: String,
    pub group: String,
}

/// An edge as it is drawn: the positions of its ends in the graph's node
/// list, its kind (`defines` or `uses`) and its colour.
pub struct VisualEdge {
    pub source_idx: usize,
    pub target_idx: usize,
    pub flavor: String,
    pub color: String,
}

/// A graph to draw, or a group of nodes inside one.
pub struct VisualGraph {
    pub id: String,
    pub label: String,
    pub nodes: Vec<VisualNode>,
    pub edges: Vec<VisualEdge>,
    pub subgraphs: Vec<VisualGraph>,
    pub grouped: bool,
}

impl VisualGraph {
    /// Every edge joins two nodes of the graph's node list.
    pub open spec fn edges_in_range(&self) -> bool {
        forall|i: int| 0 <= i < self.edges@.len() ==> {
            &&& (#[trigger] self.edges@[i]).source_idx < self.nodes@.len()
            &&& self.edges@[i].target_idx < self.nodes@.len()
        }
    }
}

/// How deeply groups nest inside a graph.
pub open spec fn nesting_depth(g: VisualGraph) -> nat
    decreases g,
{
    1 + max_nesting_depth(g.subgraphs@)
}

/// The deepest nesting among a list of groups.
pub open spec fn max_nesting_depth(gs: Seq<VisualGraph>) -> nat
    decreases gs,
{
    if gs.len() == 0 {
        0
    } else {
        let a = max_nesting_depth(gs.drop_last());
        let b = nesting_depth(gs.last());
        if a >= b {
            a
        } else {
            b
        }
    }
}

} // verus!
