use vstd::prelude::*;

verus! {

/// The abstract capability a graph storage must expose to be traversable.
///
/// Node identities are `u64` indices; payloads are the implementation's
/// `NodeValue` type. A storage is described by three mathematical views:
/// `node_map` (each registered index and its payload), `edge_seq` (the
/// ordered sequence of destination indices of a source, empty for an index
/// with no outgoing edges or an unknown one), and `key_seq` (the registered
/// indices in the storage's canonical, deterministic order).
pub trait GraphRepresentation: Sized {
    /// The payload type associated with an index.
    type NodeValue;

    /// The registered nodes: each index mapped to its payload.
    spec fn node_map(&self) -> Map<u64, Self::NodeValue>;

    /// The ordered sequence of destination indices for a source index.
    /// Duplicates are permitted and order is significant.
    spec fn edge_seq(&self, id: u64) -> Seq<u64>;

    /// The total number of edges: the sum of all outgoing edge-list lengths.
    spec fn edge_count(&self) -> nat;

    /// The registered indices, in the storage's canonical iteration order.
    spec fn key_seq(&self) -> Seq<u64>;

    /// The canonical order covers exactly the registered indices, so a
    /// storage holds finitely many nodes.
    proof fn keys_wf(&self)
        ensures
            self.key_seq().to_set() == self.node_map().dom(),
            self.node_map().dom().finite();

    /// The total edge count, not the node count.
    fn len(&self) -> (r: usize)
        ensures
            r == self.edge_count();

    /// The canonical entry point: the first index in iteration order, or
    /// absent if the graph has no nodes.
    fn first_index(&self) -> (r: Option<u64>)
        ensures
            self.key_seq().len() == 0 ==> r is None,
            self.key_seq().len() > 0 ==> r == Some(self.key_seq()[0]),
    ;

    /// The payload of the canonical entry point, or absent if the graph has
    /// no nodes.
    fn first(&self) -> (r: Option<&Self::NodeValue>)
        ensures
            self.key_seq().len() == 0 ==> r is None,
            self.key_seq().len() > 0 ==> (r matches Some(nv) && *nv == self.node_map()[self.key_seq()[0]]),
    ;

    /// The payload associated with `id`, or absent if `id` is unknown.
    fn get_node(&self, id: u64) -> (r: Option<&Self::NodeValue>)
        ensures
            r is Some <==> self.node_map().dom().contains(id),
            r matches Some(nv) ==> *nv == self.node_map()[id],
    ;

    /// All registered (index, payload) pairs, in canonical iteration order;
    /// each registered index is listed exactly once.
    fn get_nodes(&self) -> (r: Vec<(u64, &Self::NodeValue)>)
        ensures
            self.key_seq().no_duplicates(),
            r@.len() == self.key_seq().len(),
            forall|i: int|
                0 <= i < r@.len() ==> r@[i].0 == self.key_seq()[i]
                    && *(r@[i].1) == self.node_map()[self.key_seq()[i]],
    ;

    /// The ordered destination indices of `id`; empty if `id` is unknown or
    /// has no outgoing edges.
    fn get_edges(&self, id: u64) -> (r: Vec<u64>)
        ensures
            r@ == self.edge_seq(id),
    ;
}

} // verus!
