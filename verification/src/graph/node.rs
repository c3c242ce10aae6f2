use vstd::prelude::*;

verus! {

/// A standalone node record: an identity together with the identities of its
/// direct successors, kept in order.
#[derive(Debug)]
pub struct Node {
    pub id: String,
    pub edges: Vec<String>,
}

impl Node {
    pub fn new(id: String, edges: Vec<String>) -> (r: Node)
        ensures
            r.id == id,
            r.edges == edges,
    {
        Node { id, edges }
    }
}

} // verus!
