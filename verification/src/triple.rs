use vstd::prelude::*;

verus! {

/// A directed edge as one endpoint sees it: the predicate, then the node at the other end.
pub type Edge = (u32, u32);

/// A fact of the graph: `sub` is related to `obj` by `pred`.
#[derive(Clone, Copy, Debug, PartialEq, Eq)]
pub struct Triple {
    pub sub: u32,
    pub pred: u32,
    pub obj: u32,
}

impl Triple {
    /// The subject when `is_sub` holds, else the object.
    pub open spec fn endpoint(self, is_sub: bool) -> u32 {
        if is_sub { self.sub } else { self.obj }
    }

    /// The edge that this fact contributes to the chosen endpoint: outgoing
    /// towards the object for the subject, incoming from the subject for the object.
    pub open spec fn edge(self, is_sub: bool) -> Edge {
        if is_sub { (self.pred, self.obj) } else { (self.pred, self.sub) }
    }
}

} // verus!
