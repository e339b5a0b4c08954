//! Call-graph nodes: what each node stands for and where it was defined.

use vstd::prelude::*;
use vstd::string::StringExecFns;

verus! {

/// The position of a node in the graph's node list.
pub type NodeId = usize;

/// What kind of program entity a node stands for.
#[derive(Clone, Copy, PartialEq, Eq, Structural, Debug)]
pub enum Flavor {
    Unspecified,
    Unknown,
    Namespace,
    Attribute,
    ImportedItem,
    Module,
    Class,
    Function,
    Method,
    StaticMethod,
    ClassMethod,
    Name,
}

/// A node of the call graph.
pub struct Node {
    /// The namespace the node is defined in; `None` where it is unknown.
    pub namespace: Option<String>,
    pub name: String,
    pub flavor: Flavor,
    pub filename: Option<String>,
    pub line: Option<usize>,
}

/// The fully qualified name of a node: `*.name` where its namespace is
/// unknown, the bare name in the empty namespace, else `namespace.name`.
pub open spec fn full_name(namespace: Option<Seq<char>>, name: Seq<char>) -> Seq<char> {
    match namespace {
        None => seq!['*', '.'] + name,
        Some(ns) => if ns.len() == 0 {
            name
        } else {
            ns + seq!['.'] + name
        },
    }
}

impl Node {
    /// The namespace, as characters.
    pub open spec fn namespace_view(&self) -> Option<Seq<char>> {
        match self.namespace {
            Some(ns) => Some(ns@),
            None => None,
        }
    }

    /// The fully qualified name of this node.
    pub fn get_name(&self) -> (r: String)
        ensures
            r@ == full_name(self.namespace_view(), self.name@),
    {
        proof {
            reveal_strlit("*.");
            reveal_strlit(".");
        }
        match &self.namespace {
            None => {
                let mut r = "*.".to_owned();
                r.append(self.name.as_str());
                r
            },
            Some(ns) => {
                if ns.as_str().is_empty() {
                    self.name.clone()
                } else {
                    let mut r = ns.clone();
                    r.append(".");
                    r.append(self.name.as_str());
                    r
                }
            },
        }
    }
}

} // verus!
