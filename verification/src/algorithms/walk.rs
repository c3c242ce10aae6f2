use vstd::prelude::*;

use crate::graph::graph_representation::GraphRepresentation;

verus! {

/// The registered node identities of a graph.
pub open spec fn nodes_of<G: GraphRepresentation>(g: &G) -> Set<u64> {
    g.node_map().dom()
}

/// One step of the recursive reference depth-first walk: emit `n` (skipped if
/// unknown or already visited), then explore its edges in order. Returns the
/// emission order of the step and the visited set it leaves behind.
pub open spec fn walk_node<G: GraphRepresentation>(g: &G, n: u64, v: Set<u64>) -> (Seq<
    u64,
>, Set<u64>)
    decreases nodes_of(g).len() - v.len(), 0int,
        when v.subset_of(nodes_of(g)) && nodes_of(g).finite()
{
    if !nodes_of(g).contains(n) || v.contains(n) {
        (Seq::empty(), v)
    } else {
        proof {
            vstd::set_lib::lemma_len_subset(v, nodes_of(g));
            vstd::set_lib::lemma_len_subset(v.insert(n), nodes_of(g));
            vstd::set::axiom_set_insert_len(v, n);
        }
        let (s, v2) = walk_edges(g, n, 0, v.insert(n));
        (seq![n] + s, v2)
    }
}

/// The tail of the reference walk at node `n`: explore the edges of `n` from
/// position `i` on, in order, recursing into each destination.
pub open spec fn walk_edges<G: GraphRepresentation>(g: &G, n: u64, i: int, v: Set<u64>) -> (Seq<
    u64,
>, Set<u64>)
    decreases nodes_of(g).len() - v.len(), g.edge_seq(n).len() - i + 1,
        when v.subset_of(nodes_of(g)) && nodes_of(g).finite() && 0 <= i
{
    if i >= g.edge_seq(n).len() {
        (Seq::empty(), v)
    } else {
        let (s1, v1) = walk_node(g, g.edge_seq(n)[i], v);
        let v1c = v.union(v1.intersect(nodes_of(g)));
        proof {
            vstd::set_lib::lemma_len_subset(v1c, nodes_of(g));
            vstd::set_lib::lemma_len_subset(v, v1c);
        }
        let (s2, v2) = walk_edges(g, n, i + 1, v1c);
        (s1 + s2, v2)
    }
}

/// The recursive reference depth-first walk from `start`, on empty history.
pub open spec fn walk_from<G: GraphRepresentation>(g: &G, start: u64) -> Seq<u64> {
    walk_node(g, start, Set::empty()).0
}

/// A path: consecutive indices linked by the adjacency relation, all of them
/// registered.
pub open spec fn valid_path<G: GraphRepresentation>(g: &G, p: Seq<u64>) -> bool {
    &&& p.len() >= 1
    &&& forall|k: int| 0 <= k < p.len() ==> nodes_of(g).contains(#[trigger] p[k])
    &&& forall|k: int| 0 <= k < p.len() - 1 ==> g.edge_seq(#[trigger] p[k]).contains(p[k + 1])
}

/// `b` is reachable from `a` via the adjacency relation.
pub open spec fn reaches<G: GraphRepresentation>(g: &G, a: u64, b: u64) -> bool {
    exists|p: Seq<u64>| #[trigger] valid_path(g, p) && p.first() == a && p.last() == b
}

/// Every set of indices first visited during a walk step is closed under the
/// adjacency relation, restricted to registered destinations.
pub open spec fn succ_closed<G: GraphRepresentation>(g: &G, v0: Set<u64>, v2: Set<u64>) -> bool {
    forall|a: u64, k: int|
        #![trigger v2.contains(a), g.edge_seq(a)[k]]
        v2.contains(a) && !v0.contains(a) && 0 <= k < g.edge_seq(a).len() && nodes_of(g).contains(
            g.edge_seq(a)[k],
        ) ==> v2.contains(g.edge_seq(a)[k])
}

pub proof fn lemma_reaches_self<G: GraphRepresentation>(g: &G, a: u64)
    requires
        nodes_of(g).contains(a),
    ensures
        reaches(g, a, a),
{
    let p = seq![a];
    assert(valid_path(g, p));
    assert(p.first() == a && p.last() == a);
}

pub proof fn lemma_reaches_prepend<G: GraphRepresentation>(g: &G, a: u64, b: u64, c: u64)
    requires
        nodes_of(g).contains(a),
        g.edge_seq(a).contains(b),
        reaches(g, b, c),
    ensures
        reaches(g, a, c),
{
    let p = choose|p: Seq<u64>| #[trigger] valid_path(g, p) && p.first() == b && p.last() == c;
    let q = seq![a] + p;
    assert forall|k: int| 0 <= k < q.len() implies nodes_of(g).contains(#[trigger] q[k]) by {
        if k > 0 {
            assert(q[k] == p[k - 1]);
        }
    }
    assert forall|k: int| 0 <= k < q.len() - 1 implies g.edge_seq(#[trigger] q[k]).contains(
        q[k + 1],
    ) by {
        if k == 0 {
            assert(q[1] == p[0]);
        } else {
            assert(q[k] == p[k - 1] && q[k + 1] == p[k]);
        }
    }
    assert(valid_path(g, q));
    assert(q.first() == a && q.last() == c);
}

/// The reference walk's step invariants: the visited set only grows, stays
/// registered, and gains exactly the emitted indices; each index is emitted
/// at most once; newly visited indices are closed under registered
/// successors and reachable from the step's node.
pub proof fn lemma_walk_node_props<G: GraphRepresentation>(g: &G, n: u64, v: Set<u64>)
    requires
        v.subset_of(nodes_of(g)),
        nodes_of(g).finite(),
    ensures
        ({
            let (s, v2) = walk_node(g, n, v);
            &&& v.subset_of(v2)
            &&& v2.subset_of(nodes_of(g))
            &&& forall|x: u64|
                #[trigger] s.contains(x) <==> (v2.contains(x) && !v.contains(x))
            &&& s.no_duplicates()
            &&& (nodes_of(g).contains(n) ==> v2.contains(n))
            &&& succ_closed(g, v, v2)
            &&& forall|x: u64| v2.contains(x) && !v.contains(x) ==> reaches(g, n, x)
        }),
    decreases nodes_of(g).len() - v.len(), 0int,
{
    if !nodes_of(g).contains(n) || v.contains(n) {
        let (s, v2) = walk_node(g, n, v);
        assert(s == Seq::<u64>::empty());
        assert(forall|x: u64| !(#[trigger] s.contains(x)));
    } else {
        vstd::set_lib::lemma_len_subset(v, nodes_of(g));
        vstd::set_lib::lemma_len_subset(v.insert(n), nodes_of(g));
        vstd::set::axiom_set_insert_len(v, n);
        let vi = v.insert(n);
        lemma_walk_edges_props(g, n, 0, vi);
        let (s, v2) = walk_edges(g, n, 0, vi);
        let (sn, vn) = walk_node(g, n, v);
        assert(sn == seq![n] + s);
        assert(vn == v2);
        assert forall|x: u64| #[trigger] sn.contains(x) <==> (v2.contains(x) && !v.contains(
            x,
        )) by {
            if sn.contains(x) {
                let j = choose|j: int| 0 <= j < sn.len() && sn[j] == x;
                if j == 0 {
                    assert(x == n);
                } else {
                    assert(s[j - 1] == x);
                    assert(s.contains(x));
                }
            }
            if v2.contains(x) && !v.contains(x) {
                if x == n {
                    assert(sn[0] == n);
                } else {
                    assert(s.contains(x));
                    let j = choose|j: int| 0 <= j < s.len() && s[j] == x;
                    assert(sn[j + 1] == x);
                }
            }
        }
        assert(sn.no_duplicates()) by {
            assert(!s.contains(n));
            assert forall|a: int, b: int| 0 <= a < b < sn.len() implies sn[a] != sn[b] by {
                if a == 0 {
                    assert(sn[b] == s[b - 1]);
                    assert(s.contains(s[b - 1]));
                } else {
                    assert(sn[a] == s[a - 1] && sn[b] == s[b - 1]);
                }
            }
        }
        assert(succ_closed(g, v, vn)) by {
            assert forall|a: u64, k: int|
                #![trigger vn.contains(a), g.edge_seq(a)[k]]
                vn.contains(a) && !v.contains(a) && 0 <= k < g.edge_seq(a).len() && nodes_of(
                    g,
                ).contains(g.edge_seq(a)[k]) implies vn.contains(g.edge_seq(a)[k]) by {
                if a == n {
                    assert(v2.contains(g.edge_seq(n)[k]));
                } else {
                    assert(vi.contains(a) || !vi.contains(a));
                }
            }
        }
        assert forall|x: u64| vn.contains(x) && !v.contains(x) implies reaches(g, n, x) by {
            if x == n {
                lemma_reaches_self(g, n);
            }
        }
    }
}

/// The reference walk's edge-tail invariants; in addition, every registered
/// destination from position `i` on is visited by the end of the tail.
pub proof fn lemma_walk_edges_props<G: GraphRepresentation>(g: &G, n: u64, i: int, v: Set<u64>)
    requires
        v.subset_of(nodes_of(g)),
        nodes_of(g).finite(),
        nodes_of(g).contains(n),
        0 <= i,
    ensures
        ({
            let (s, v2) = walk_edges(g, n, i, v);
            &&& v.subset_of(v2)
            &&& v2.subset_of(nodes_of(g))
            &&& forall|x: u64|
                #[trigger] s.contains(x) <==> (v2.contains(x) && !v.contains(x))
            &&& s.no_duplicates()
            &&& forall|j: int|
                i <= j < g.edge_seq(n).len() && nodes_of(g).contains(#[trigger] g.edge_seq(n)[j])
                    ==> v2.contains(g.edge_seq(n)[j])
            &&& succ_closed(g, v, v2)
            &&& forall|x: u64| v2.contains(x) && !v.contains(x) ==> reaches(g, n, x)
        }),
    decreases nodes_of(g).len() - v.len(), g.edge_seq(n).len() - i + 1,
{
    if i >= g.edge_seq(n).len() {
        let (s, v2) = walk_edges(g, n, i, v);
        assert(s == Seq::<u64>::empty());
        assert(forall|x: u64| !(#[trigger] s.contains(x)));
    } else {
        let dst = g.edge_seq(n)[i];
        lemma_walk_node_props(g, dst, v);
        let (s1, v1) = walk_node(g, dst, v);
        assert(v.union(v1.intersect(nodes_of(g))) =~= v1);
        vstd::set_lib::lemma_len_subset(v1, nodes_of(g));
        vstd::set_lib::lemma_len_subset(v, v1);
        lemma_walk_edges_props(g, n, i + 1, v1);
        let (s2, v2) = walk_edges(g, n, i + 1, v1);
        let (s, vr) = walk_edges(g, n, i, v);
        assert(s == s1 + s2);
        assert(vr == v2);
        assert forall|x: u64| #[trigger] s.contains(x) <==> (v2.contains(x) && !v.contains(
            x,
        )) by {
            if s.contains(x) {
                let j = choose|j: int| 0 <= j < s.len() && s[j] == x;
                if j < s1.len() {
                    assert(s1[j] == x);
                    assert(s1.contains(x));
                } else {
                    assert(s2[j - s1.len()] == x);
                    assert(s2.contains(x));
                }
            }
            if v2.contains(x) && !v.contains(x) {
                if v1.contains(x) {
                    assert(s1.contains(x));
                    let j = choose|j: int| 0 <= j < s1.len() && s1[j] == x;
                    assert(s[j] == x);
                } else {
                    assert(s2.contains(x));
                    let j = choose|j: int| 0 <= j < s2.len() && s2[j] == x;
                    assert(s[s1.len() + j] == x);
                }
            }
        }
        assert(s.no_duplicates()) by {
            assert forall|a: int, b: int| 0 <= a < b < s.len() implies s[a] != s[b] by {
                if b < s1.len() {
                    assert(s[a] == s1[a] && s[b] == s1[b]);
                } else if a >= s1.len() {
                    assert(s[a] == s2[a - s1.len()] && s[b] == s2[b - s1.len()]);
                } else {
                    assert(s[a] == s1[a] && s[b] == s2[b - s1.len()]);
                    assert(s1.contains(s[a]));
                    assert(s2.contains(s[b]));
                }
            }
        }
        assert forall|j: int|
            i <= j < g.edge_seq(n).len() && nodes_of(g).contains(
                #[trigger] g.edge_seq(n)[j],
            ) implies v2.contains(g.edge_seq(n)[j]) by {
            if j == i {
                assert(v1.contains(dst));
            }
        }
        assert(succ_closed(g, v, v2)) by {
            assert forall|a: u64, k: int|
                #![trigger v2.contains(a), g.edge_seq(a)[k]]
                v2.contains(a) && !v.contains(a) && 0 <= k < g.edge_seq(a).len() && nodes_of(
                    g,
                ).contains(g.edge_seq(a)[k]) implies v2.contains(g.edge_seq(a)[k]) by {
                if v1.contains(a) {
                    assert(v1.contains(g.edge_seq(a)[k]));
                }
            }
        }
        assert forall|x: u64| v2.contains(x) && !v.contains(x) implies reaches(g, n, x) by {
            if v1.contains(x) {
                assert(reaches(g, dst, x));
                assert(g.edge_seq(n).contains(dst));
                lemma_reaches_prepend(g, n, dst, x);
            }
        }
    }
}

proof fn lemma_path_stays<G: GraphRepresentation>(g: &G, p: Seq<u64>, v2: Set<u64>)
    requires
        valid_path(g, p),
        v2.contains(p.first()),
        succ_closed(g, Set::empty(), v2),
    ensures
        v2.contains(p.last()),
    decreases p.len(),
{
    if p.len() > 1 {
        assert(g.edge_seq(p[0]).contains(p[1]));
        let k = choose|k: int| 0 <= k < g.edge_seq(p[0]).len() && g.edge_seq(p[0])[k] == p[1];
        assert(v2.contains(p[0]));
        assert(v2.contains(g.edge_seq(p[0])[k]));
        let q = p.drop_first();
        assert forall|j: int| 0 <= j < q.len() implies nodes_of(g).contains(#[trigger] q[j]) by {
            assert(q[j] == p[j + 1]);
        }
        assert forall|j: int| 0 <= j < q.len() - 1 implies g.edge_seq(#[trigger] q[j]).contains(
            q[j + 1],
        ) by {
            assert(q[j] == p[j + 1] && q[j + 1] == p[j + 2]);
        }
        assert(valid_path(g, q));
        lemma_path_stays(g, q, v2);
        assert(q.last() == p.last());
    }
}

/// Every index reachable from `start` via the adjacency relation appears
/// exactly once in the reference walk's output, and no other index appears.
pub proof fn lemma_walk_visits_reachable_exactly_once<G: GraphRepresentation>(g: &G, start: u64)
    requires
        nodes_of(g).finite(),
    ensures
        walk_from(g, start).no_duplicates(),
        forall|x: u64| #[trigger] walk_from(g, start).contains(x) <==> reaches(g, start, x),
{
    let v0 = Set::<u64>::empty();
    assert(v0.subset_of(nodes_of(g)));
    lemma_walk_node_props(g, start, v0);
    let (s, v2) = walk_node(g, start, v0);
    assert forall|x: u64| reaches(g, start, x) implies #[trigger] walk_from(g, start).contains(
        x,
    ) by {
        let p = choose|p: Seq<u64>| #[trigger] valid_path(g, p) && p.first() == start && p.last()
            == x;
        assert(nodes_of(g).contains(p[0]));
        assert(v2.contains(start));
        lemma_path_stays(g, p, v2);
        assert(v2.contains(x) && !v0.contains(x));
    }
}

} // verus!
