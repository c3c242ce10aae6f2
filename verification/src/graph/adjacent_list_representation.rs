use vstd::prelude::*;

use crate::graph::graph_representation::GraphRepresentation;

verus! {

/// Adjacency-list storage with deterministic, insertion-ordered iteration.
///
/// Node identity (`u64` index) is kept apart from the node payload `TNode`.
/// Nodes live in an association list with pairwise-distinct keys; edges live
/// as a flat `(source, destination)` sequence in insertion order, so the
/// total edge count is exact and per-source edge lists keep both duplicates
/// and insertion order.
pub struct AdjacentList<TNode> {
    nodes: Vec<(u64, TNode)>,
    edges: Vec<(u64, u64)>,
}

/// The finite map an association sequence denotes; later entries win.
pub open spec fn map_of<TNode>(s: Seq<(u64, TNode)>) -> Map<u64, TNode>
    decreases s.len(),
{
    if s.len() == 0 {
        Map::empty()
    } else {
        map_of(s.drop_last()).insert(s.last().0, s.last().1)
    }
}

/// The keys of an association sequence, in order.
pub open spec fn keys_of<TNode>(s: Seq<(u64, TNode)>) -> Seq<u64> {
    s.map_values(|p: (u64, TNode)| p.0)
}

/// The destinations of the edges leaving `src`, in insertion order.
pub open spec fn dsts_of(s: Seq<(u64, u64)>, src: u64) -> Seq<u64>
    decreases s.len(),
{
    if s.len() == 0 {
        Seq::empty()
    } else if s.last().0 == src {
        dsts_of(s.drop_last(), src).push(s.last().1)
    } else {
        dsts_of(s.drop_last(), src)
    }
}

/// The key order after an upsert: unchanged for a known key, appended for a
/// new one.
pub open spec fn upsert_keys(ks: Seq<u64>, k: u64) -> Seq<u64> {
    if ks.contains(k) {
        ks
    } else {
        ks.push(k)
    }
}

proof fn lemma_map_of_dom<TNode>(s: Seq<(u64, TNode)>)
    ensures
        forall|k: u64| #[trigger] map_of(s).dom().contains(k) <==> keys_of(s).contains(k),
        map_of(s).dom().finite(),
    decreases s.len(),
{
    if s.len() == 0 {
        assert(forall|k: u64| !(#[trigger] keys_of(s).contains(k)));
    } else {
        lemma_map_of_dom(s.drop_last());
        assert forall|k: u64| #[trigger] map_of(s).dom().contains(k) <==> keys_of(s).contains(k) by {
            if map_of(s).dom().contains(k) {
                if k == s.last().0 {
                    assert(keys_of(s)[s.len() - 1] == k);
                } else {
                    let j = choose|j: int|
                        0 <= j < s.drop_last().len() && keys_of(s.drop_last())[j] == k;
                    assert(keys_of(s)[j] == k);
                }
            }
            if keys_of(s).contains(k) {
                let j = choose|j: int| 0 <= j < s.len() && keys_of(s)[j] == k;
                if j == s.len() - 1 {
                    assert(map_of(s).dom().contains(k));
                } else {
                    assert(keys_of(s.drop_last())[j] == k);
                    assert(keys_of(s.drop_last()).contains(k));
                }
            }
        }
    }
}

proof fn lemma_map_of_get<TNode>(s: Seq<(u64, TNode)>, i: int)
    requires
        keys_of(s).no_duplicates(),
        0 <= i < s.len(),
    ensures
        map_of(s).dom().contains(s[i].0),
        map_of(s)[s[i].0] == s[i].1,
    decreases s.len(),
{
    if i == s.len() - 1 {
    } else {
        assert(keys_of(s.drop_last()) =~= keys_of(s).drop_last());
        assert(forall|a: int, b: int|
            0 <= a < b < keys_of(s).drop_last().len() ==> keys_of(s).drop_last()[a]
                != keys_of(s).drop_last()[b]);
        lemma_map_of_get(s.drop_last(), i);
        assert(keys_of(s)[i] != keys_of(s)[s.len() - 1]);
        assert(s[i].0 != s.last().0);
    }
}

proof fn lemma_map_of_push<TNode>(s: Seq<(u64, TNode)>, p: (u64, TNode))
    ensures
        map_of(s.push(p)) == map_of(s).insert(p.0, p.1),
        keys_of(s.push(p)) == keys_of(s).push(p.0),
{
    assert(s.push(p).drop_last() =~= s);
    assert(s.push(p).last() == p);
    assert(keys_of(s.push(p)) =~= keys_of(s).push(p.0));
}

proof fn lemma_map_of_update<TNode>(s: Seq<(u64, TNode)>, i: int, p: (u64, TNode))
    requires
        keys_of(s).no_duplicates(),
        0 <= i < s.len(),
        s[i].0 == p.0,
    ensures
        map_of(s.update(i, p)) == map_of(s).insert(p.0, p.1),
        keys_of(s.update(i, p)) == keys_of(s),
    decreases s.len(),
{
    assert(keys_of(s.update(i, p)) =~= keys_of(s));
    if i == s.len() - 1 {
        assert(s.update(i, p).drop_last() =~= s.drop_last());
        assert(s.update(i, p).last() == p);
        assert(map_of(s.drop_last()).insert(s.last().0, s.last().1).insert(p.0, p.1) =~= map_of(
            s.drop_last(),
        ).insert(p.0, p.1));
    } else {
        assert(keys_of(s.drop_last()) =~= keys_of(s).drop_last());
        assert(forall|a: int, b: int|
            0 <= a < b < keys_of(s).drop_last().len() ==> keys_of(s).drop_last()[a]
                != keys_of(s).drop_last()[b]);
        lemma_map_of_update(s.drop_last(), i, p);
        assert(s.update(i, p).drop_last() =~= s.drop_last().update(i, p));
        assert(s.update(i, p).last() == s.last());
        assert(keys_of(s)[i] != keys_of(s)[s.len() - 1]);
        assert(s[i].0 != s.last().0);
        assert(map_of(s.drop_last()).insert(p.0, p.1).insert(s.last().0, s.last().1) =~= map_of(
            s.drop_last(),
        ).insert(s.last().0, s.last().1).insert(p.0, p.1));
    }
}

proof fn lemma_dsts_of_push(s: Seq<(u64, u64)>, e: (u64, u64), src: u64)
    ensures
        dsts_of(s.push(e), src) == if e.0 == src {
            dsts_of(s, src).push(e.1)
        } else {
            dsts_of(s, src)
        },
{
    assert(s.push(e).drop_last() =~= s);
    assert(s.push(e).last() == e);
}

/// The position of `id` among the keys of an association list, if present.
fn key_position<TNode>(nodes: &Vec<(u64, TNode)>, id: u64) -> (r: Option<usize>)
    ensures
        r matches Some(i) ==> i < nodes@.len() && nodes@[i as int].0 == id,
        r is None ==> forall|j: int| 0 <= j < nodes@.len() ==> (#[trigger] nodes@[j]).0 != id,
{
    let mut i: usize = 0;
    while i < nodes.len()
        invariant
            i <= nodes@.len(),
            forall|j: int| 0 <= j < i ==> (#[trigger] nodes@[j]).0 != id,
        decreases nodes@.len() - i,
    {
        if nodes[i].0 == id {
            return Some(i);
        }
        i = i + 1;
    }
    None
}

impl<TNode> AdjacentList<TNode> {
    /// Distinct node keys: each index is registered at most once.
    #[verifier::type_invariant]
    closed spec fn inv(&self) -> bool {
        keys_of(self.nodes@).no_duplicates()
    }

    /// An empty graph: no nodes, no edges.
    pub fn new() -> (r: AdjacentList<TNode>)
        ensures
            r.node_map() == Map::<u64, TNode>::empty(),
            r.key_seq() == Seq::<u64>::empty(),
            r.edge_count() == 0,
            forall|n: u64| #[trigger] r.edge_seq(n) == Seq::<u64>::empty(),
    {
        let nodes: Vec<(u64, TNode)> = Vec::new();
        let edges: Vec<(u64, u64)> = Vec::new();
        proof {
            assert(keys_of(nodes@) =~= Seq::<u64>::empty());
            assert(map_of(nodes@) =~= Map::<u64, TNode>::empty());
        }
        AdjacentList { nodes, edges }
    }

    /// Upserts the payload for `node.0`: a known index keeps its place in the
    /// iteration order, a new index is appended to it.
    pub fn add_node(&mut self, node: (u64, TNode))
        ensures
            final(self).node_map() == old(self).node_map().insert(node.0, node.1),
            final(self).key_seq() == upsert_keys(old(self).key_seq(), node.0),
            final(self).edge_count() == old(self).edge_count(),
            forall|n: u64| #[trigger] final(self).edge_seq(n) == old(self).edge_seq(n),
    {
        proof {
            use_type_invariant(&*self);
            assert(keys_of(Seq::<(u64, TNode)>::empty()).no_duplicates());
        }
        let mut nodes: Vec<(u64, TNode)> = Vec::new();
        std::mem::swap(&mut nodes, &mut self.nodes);
        match key_position(&nodes, node.0) {
            Some(i) => {
                proof {
                    assert(keys_of(nodes@)[i as int] == node.0);
                    assert(keys_of(nodes@).contains(node.0));
                    lemma_map_of_update(nodes@, i as int, node);
                }
                nodes[i] = node;
            },
            None => {
                proof {
                    if keys_of(nodes@).contains(node.0) {
                        let j = choose|j: int|
                            0 <= j < nodes@.len() && keys_of(nodes@)[j] == node.0;
                        assert(nodes@[j].0 == node.0);
                    }
                    lemma_map_of_push(nodes@, node);
                    assert(keys_of(nodes@).push(node.0).no_duplicates());
                }
                nodes.push(node);
            },
        }
        self.nodes = nodes;
    }

    /// Upserts payloads for both endpoints (registering either if previously
    /// unknown), then appends `r.0` to `l.0`'s ordered edge list. Duplicate
    /// edges are preserved verbatim, never deduplicated.
    pub fn add_edge(&mut self, l: (u64, TNode), r: (u64, TNode))
        ensures
            final(self).node_map() == old(self).node_map().insert(l.0, l.1).insert(r.0, r.1),
            final(self).key_seq() == upsert_keys(upsert_keys(old(self).key_seq(), l.0), r.0),
            final(self).edge_count() == old(self).edge_count() + 1,
            final(self).edge_seq(l.0) == old(self).edge_seq(l.0).push(r.0),
            forall|n: u64| n != l.0 ==> #[trigger] final(self).edge_seq(n) == old(self).edge_seq(
                n,
            ),
    {
        let l_id = l.0;
        let r_id = r.0;
        self.add_node(l);
        let ghost s1 = *self;
        self.add_node(r);
        let ghost s2 = *self;
        proof {
            use_type_invariant(&*self);
        }
        let mut edges: Vec<(u64, u64)> = Vec::new();
        std::mem::swap(&mut edges, &mut self.edges);
        edges.push((l_id, r_id));
        self.edges = edges;
        proof {
            assert(self.edges@ == s2.edges@.push((l_id, r_id)));
            assert forall|n: u64| #[trigger] self.edge_seq(n) == if n == l_id {
                old(self).edge_seq(n).push(r_id)
            } else {
                old(self).edge_seq(n)
            } by {
                lemma_dsts_of_push(s2.edges@, (l_id, r_id), n);
                assert(s2.edge_seq(n) == s1.edge_seq(n));
                assert(s1.edge_seq(n) == old(self).edge_seq(n));
                assert(self.edge_seq(n) == dsts_of(s2.edges@.push((l_id, r_id)), n));
            }
        }
    }
}

impl<TNode> GraphRepresentation for AdjacentList<TNode> {
    type NodeValue = TNode;

    closed spec fn node_map(&self) -> Map<u64, TNode> {
        map_of(self.nodes@)
    }

    closed spec fn edge_seq(&self, id: u64) -> Seq<u64> {
        dsts_of(self.edges@, id)
    }

    closed spec fn edge_count(&self) -> nat {
        self.edges@.len()
    }

    closed spec fn key_seq(&self) -> Seq<u64> {
        keys_of(self.nodes@)
    }

    proof fn keys_wf(&self) {
        lemma_map_of_dom(self.nodes@);
        assert(keys_of(self.nodes@).to_set() =~= map_of(self.nodes@).dom());
    }

    fn len(&self) -> (r: usize) {
        self.edges.len()
    }

    fn first_index(&self) -> (r: Option<u64>) {
        if self.nodes.len() == 0 {
            None
        } else {
            Some(self.nodes[0].0)
        }
    }

    fn first(&self) -> (r: Option<&TNode>) {
        proof {
            if self.nodes@.len() > 0 {
                use_type_invariant(self);
                lemma_map_of_get(self.nodes@, 0);
            }
        }
        match self.first_index() {
            None => None,
            Some(id) => self.get_node(id),
        }
    }

    fn get_node(&self, id: u64) -> (r: Option<&TNode>) {
        proof {
            use_type_invariant(self);
            lemma_map_of_dom(self.nodes@);
        }
        let mut i: usize = 0;
        while i < self.nodes.len()
            invariant
                i <= self.nodes@.len(),
                forall|j: int| 0 <= j < i ==> (#[trigger] self.nodes@[j]).0 != id,
                keys_of(self.nodes@).no_duplicates(),
                forall|k: u64| #[trigger]
                    map_of(self.nodes@).dom().contains(k) <==> keys_of(self.nodes@).contains(k),
            decreases self.nodes@.len() - i,
        {
            if self.nodes[i].0 == id {
                proof {
                    lemma_map_of_get(self.nodes@, i as int);
                }
                return Some(&self.nodes[i].1);
            }
            i = i + 1;
        }
        proof {
            if keys_of(self.nodes@).contains(id) {
                let j = choose|j: int|
                    0 <= j < self.nodes@.len() && keys_of(self.nodes@)[j] == id;
                assert(self.nodes@[j].0 == id);
            }
        }
        None
    }

    fn get_nodes(&self) -> (r: Vec<(u64, &TNode)>) {
        proof {
            use_type_invariant(self);
        }
        let mut r: Vec<(u64, &TNode)> = Vec::new();
        let mut i: usize = 0;
        while i < self.nodes.len()
            invariant
                i <= self.nodes@.len(),
                r@.len() == i,
                keys_of(self.nodes@).no_duplicates(),
                forall|j: int|
                    0 <= j < i ==> (#[trigger] r@[j]).0 == keys_of(self.nodes@)[j] && *(r@[j].1)
                        == map_of(self.nodes@)[keys_of(self.nodes@)[j]],
            decreases self.nodes@.len() - i,
        {
            proof {
                lemma_map_of_get(self.nodes@, i as int);
            }
            let p = &self.nodes[i];
            r.push((p.0, &p.1));
            i = i + 1;
        }
        r
    }

    fn get_edges(&self, id: u64) -> (r: Vec<u64>) {
        let mut r: Vec<u64> = Vec::new();
        let mut i: usize = 0;
        while i < self.edges.len()
            invariant
                i <= self.edges@.len(),
                r@ == dsts_of(self.edges@.subrange(0, i as int), id),
            decreases self.edges@.len() - i,
        {
            proof {
                assert(self.edges@.subrange(0, i + 1) =~= self.edges@.subrange(0, i as int).push(
                    self.edges@[i as int],
                ));
                lemma_dsts_of_push(self.edges@.subrange(0, i as int), self.edges@[i as int], id);
            }
            let e = self.edges[i];
            if e.0 == id {
                r.push(e.1);
            }
            i = i + 1;
        }
        proof {
            assert(self.edges@.subrange(0, self.edges@.len() as int) =~= self.edges@);
        }
        r
    }
}

/// The sum of the outgoing edge-list lengths of `srcs`, taken in order.
pub open spec fn degree_sum<G: GraphRepresentation>(g: &G, srcs: Seq<u64>) -> nat
    decreases srcs.len(),
{
    if srcs.len() == 0 {
        0
    } else {
        degree_sum(g, srcs.drop_last()) + g.edge_seq(srcs.last()).len()
    }
}

spec fn flat_degree_sum(flat: Seq<(u64, u64)>, srcs: Seq<u64>) -> nat
    decreases srcs.len(),
{
    if srcs.len() == 0 {
        0
    } else {
        flat_degree_sum(flat, srcs.drop_last()) + dsts_of(flat, srcs.last()).len()
    }
}

proof fn lemma_flat_degree_sum_empty(srcs: Seq<u64>)
    ensures
        flat_degree_sum(Seq::empty(), srcs) == 0,
    decreases srcs.len(),
{
    if srcs.len() > 0 {
        lemma_flat_degree_sum_empty(srcs.drop_last());
    }
}

proof fn lemma_flat_degree_sum_same(flat: Seq<(u64, u64)>, e: (u64, u64), srcs: Seq<u64>)
    requires
        !srcs.contains(e.0),
    ensures
        flat_degree_sum(flat.push(e), srcs) == flat_degree_sum(flat, srcs),
    decreases srcs.len(),
{
    if srcs.len() > 0 {
        assert(srcs[srcs.len() - 1] == srcs.last());
        assert(srcs.last() != e.0);
        assert(!srcs.drop_last().contains(e.0)) by {
            if srcs.drop_last().contains(e.0) {
                let j = choose|j: int|
                    0 <= j < srcs.drop_last().len() && srcs.drop_last()[j] == e.0;
                assert(srcs[j] == e.0);
            }
        }
        lemma_flat_degree_sum_same(flat, e, srcs.drop_last());
        lemma_dsts_of_push(flat, e, srcs.last());
    }
}

proof fn lemma_flat_degree_sum_bump(flat: Seq<(u64, u64)>, e: (u64, u64), srcs: Seq<u64>)
    requires
        srcs.no_duplicates(),
        srcs.contains(e.0),
    ensures
        flat_degree_sum(flat.push(e), srcs) == flat_degree_sum(flat, srcs) + 1,
    decreases srcs.len(),
{
    lemma_dsts_of_push(flat, e, srcs.last());
    if srcs.last() == e.0 {
        assert(!srcs.drop_last().contains(e.0)) by {
            if srcs.drop_last().contains(e.0) {
                let j = choose|j: int|
                    0 <= j < srcs.drop_last().len() && srcs.drop_last()[j] == e.0;
                assert(srcs[j] == srcs[srcs.len() - 1]);
            }
        }
        lemma_flat_degree_sum_same(flat, e, srcs.drop_last());
    } else {
        assert(srcs.drop_last().contains(e.0)) by {
            let j = choose|j: int| 0 <= j < srcs.len() && srcs[j] == e.0;
            assert(srcs.drop_last()[j] == e.0);
        }
        assert(forall|a: int, b: int|
            0 <= a < b < srcs.drop_last().len() ==> srcs.drop_last()[a] != srcs.drop_last()[b]);
        lemma_flat_degree_sum_bump(flat, e, srcs.drop_last());
    }
}

proof fn lemma_flat_degree_sum_total(flat: Seq<(u64, u64)>, srcs: Seq<u64>)
    requires
        srcs.no_duplicates(),
        forall|n: u64| !srcs.contains(n) ==> (#[trigger] dsts_of(flat, n)).len() == 0,
    ensures
        flat_degree_sum(flat, srcs) == flat.len(),
    decreases flat.len(),
{
    if flat.len() == 0 {
        lemma_flat_degree_sum_empty(srcs);
        assert(flat =~= Seq::<(u64, u64)>::empty());
    } else {
        let e = flat.last();
        let f0 = flat.drop_last();
        assert(flat =~= f0.push(e));
        lemma_dsts_of_push(f0, e, e.0);
        assert(srcs.contains(e.0));
        assert forall|n: u64| !srcs.contains(n) implies (#[trigger] dsts_of(f0, n)).len() == 0 by {
            lemma_dsts_of_push(f0, e, n);
        }
        lemma_flat_degree_sum_total(f0, srcs);
        lemma_flat_degree_sum_bump(f0, e, srcs);
    }
}

proof fn lemma_degree_sum_is_flat<TNode>(g: &AdjacentList<TNode>, srcs: Seq<u64>)
    ensures
        degree_sum(g, srcs) == flat_degree_sum(g.edges@, srcs),
    decreases srcs.len(),
{
    if srcs.len() > 0 {
        lemma_degree_sum_is_flat(g, srcs.drop_last());
    }
}

/// The total edge count equals the sum of the outgoing edge-list lengths, for
/// any duplicate-free family of sources that covers every edge — independent
/// of the node count and of duplicate or self edges.
pub proof fn lemma_edge_count_is_degree_sum<TNode>(g: &AdjacentList<TNode>, srcs: Seq<u64>)
    requires
        srcs.no_duplicates(),
        forall|n: u64| !srcs.contains(n) ==> (#[trigger] g.edge_seq(n)).len() == 0,
    ensures
        degree_sum(g, srcs) == g.edge_count(),
{
    lemma_degree_sum_is_flat(g, srcs);
    assert forall|n: u64| !srcs.contains(n) implies (#[trigger] dsts_of(g.edges@, n)).len()
        == 0 by {
        assert(g.edge_seq(n) == dsts_of(g.edges@, n));
    }
    lemma_flat_degree_sum_total(g.edges@, srcs);
}

} // verus!
