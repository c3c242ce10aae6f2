use vstd::prelude::*;

use crate::algorithms::walk::{
    lemma_walk_node_props, nodes_of, walk_edges, walk_from, walk_node,
};
use crate::graph::graph_representation::GraphRepresentation;

verus! {

/// A depth-first traversal request: a graph and the start index.
pub struct Dfs<'a, G>(pub &'a G, pub u64);

/// The lazy traversal engine: a LIFO frontier stack holding one resumable
/// edge cursor per frame, and the emitted indices in emission order. The
/// underlying graph must not be structurally mutated while the engine is
/// active; the borrow held here enforces that statically.
pub struct DfsIntoIterator<'a, G> {
    graph: &'a G,
    stack: Vec<(u64, usize)>,
    visited: Vec<u64>,
}

/// What the stack still produces, top frame first: each frame `(n, c)`
/// resumes the reference walk over the edges of `n` at cursor `c`, threading
/// the visited set downwards.
spec fn frames<G: GraphRepresentation>(g: &G, st: Seq<(u64, usize)>, v: Set<u64>) -> (Seq<
    u64,
>, Set<u64>)
    decreases st.len(),
{
    if st.len() == 0 {
        (Seq::empty(), v)
    } else {
        let fr = st.last();
        let (s1, v1) = walk_edges(g, fr.0, fr.1 as int, v);
        let (s2, v2) = frames(g, st.drop_last(), v1);
        (s1 + s2, v2)
    }
}

/// The edges not yet consumed by the cursors on the stack.
spec fn slack<G: GraphRepresentation>(g: &G, st: Seq<(u64, usize)>) -> int
    decreases st.len(),
{
    if st.len() == 0 {
        0
    } else {
        slack(g, st.drop_last()) + g.edge_seq(st.last().0).len() - st.last().1
    }
}

/// The engine's internal invariant: stack frames hold registered, pairwise
/// distinct indices with in-range cursors; every frame below the top is
/// already visited; an unvisited top has an untouched cursor; the emission
/// record is duplicate-free and registered.
spec fn state_wf<G: GraphRepresentation>(g: &G, st: Seq<(u64, usize)>, vis: Seq<u64>) -> bool {
    let v = vis.to_set();
    &&& forall|j: int|
        0 <= j < st.len() ==> nodes_of(g).contains((#[trigger] st[j]).0) && st[j].1 <= g.edge_seq(
            st[j].0,
        ).len()
    &&& forall|a: int, b: int| 0 <= a < b < st.len() ==> st[a].0 != st[b].0
    &&& forall|j: int| 0 <= j < st.len() - 1 ==> v.contains((#[trigger] st[j]).0)
    &&& (st.len() > 0 && !v.contains(st.last().0) ==> st.last().1 == 0)
    &&& vis.no_duplicates()
    &&& v.subset_of(nodes_of(g))
}

/// The indices the machine state still has to emit, in order: an unvisited
/// top is emitted first, then the stack's frames resume the reference walk.
spec fn state_pending<G: GraphRepresentation>(g: &G, st: Seq<(u64, usize)>, vis: Seq<u64>) -> Seq<
    u64,
> {
    let v = vis.to_set();
    if st.len() == 0 {
        Seq::empty()
    } else if !v.contains(st.last().0) {
        seq![st.last().0] + frames(g, st, v.insert(st.last().0)).0
    } else {
        frames(g, st, v).0
    }
}

proof fn lemma_slack_nonneg<G: GraphRepresentation>(g: &G, st: Seq<(u64, usize)>)
    requires
        forall|j: int|
            0 <= j < st.len() ==> (#[trigger] st[j]).1 <= g.edge_seq(st[j].0).len(),
    ensures
        slack(g, st) >= 0,
    decreases st.len(),
{
    if st.len() > 0 {
        assert(forall|j: int|
            0 <= j < st.drop_last().len() ==> (#[trigger] st.drop_last()[j]).1 <= g.edge_seq(
                st.drop_last()[j].0,
            ).len());
        lemma_slack_nonneg(g, st.drop_last());
    }
}

/// Popping a frame whose cursor is exhausted produces nothing.
proof fn lemma_frames_pop<G: GraphRepresentation>(g: &G, st: Seq<(u64, usize)>, v: Set<u64>)
    requires
        st.len() > 0,
        st.last().1 >= g.edge_seq(st.last().0).len(),
        v.subset_of(nodes_of(g)),
        nodes_of(g).finite(),
    ensures
        frames(g, st, v) == frames(g, st.drop_last(), v),
{
    let fr = st.last();
    let (s1, v1) = walk_edges(g, fr.0, fr.1 as int, v);
    assert(s1 == Seq::<u64>::empty() && v1 == v);
    assert(Seq::<u64>::empty() + frames(g, st.drop_last(), v).0 =~= frames(g, st.drop_last(), v).0);
}

/// Advancing a cursor past a visited or unregistered destination changes
/// nothing in the remaining output.
proof fn lemma_frames_skip<G: GraphRepresentation>(
    g: &G,
    st: Seq<(u64, usize)>,
    c2: usize,
    v: Set<u64>,
)
    requires
        st.len() > 0,
        v.subset_of(nodes_of(g)),
        nodes_of(g).finite(),
        nodes_of(g).contains(st.last().0),
        st.last().1 < g.edge_seq(st.last().0).len(),
        c2 == st.last().1 + 1,
        ({
            let dst = g.edge_seq(st.last().0)[st.last().1 as int];
            v.contains(dst) || !nodes_of(g).contains(dst)
        }),
    ensures
        frames(g, st, v) == frames(g, st.drop_last().push((st.last().0, c2)), v),
{
    let t = st.last().0;
    let c = st.last().1 as int;
    let dst = g.edge_seq(t)[c];
    assert(walk_node(g, dst, v) == (Seq::<u64>::empty(), v));
    assert(v.union(v.intersect(nodes_of(g))) =~= v);
    let (s2, v2) = walk_edges(g, t, c + 1, v);
    assert(walk_edges(g, t, c, v) == (Seq::<u64>::empty() + s2, v2));
    assert(Seq::<u64>::empty() + s2 =~= s2);
    let st2 = st.drop_last().push((t, c2));
    assert(st2.last() == (t, c2));
    assert(st2.drop_last() =~= st.drop_last());
}

/// Advancing a cursor onto a fresh registered destination and pushing that
/// destination peels it off the remaining output.
proof fn lemma_frames_push<G: GraphRepresentation>(
    g: &G,
    st: Seq<(u64, usize)>,
    c2: usize,
    v: Set<u64>,
)
    requires
        st.len() > 0,
        v.subset_of(nodes_of(g)),
        nodes_of(g).finite(),
        nodes_of(g).contains(st.last().0),
        st.last().1 < g.edge_seq(st.last().0).len(),
        c2 == st.last().1 + 1,
        ({
            let dst = g.edge_seq(st.last().0)[st.last().1 as int];
            !v.contains(dst) && nodes_of(g).contains(dst)
        }),
    ensures
        ({
            let dst = g.edge_seq(st.last().0)[st.last().1 as int];
            let st2 = st.drop_last().push((st.last().0, c2)).push((dst, 0usize));
            frames(g, st, v).0 == seq![dst] + frames(g, st2, v.insert(dst)).0 && frames(g, st, v).1
                == frames(g, st2, v.insert(dst)).1
        }),
{
    let t = st.last().0;
    let c = st.last().1 as int;
    let dst = g.edge_seq(t)[c];
    lemma_walk_node_props(g, dst, v);
    let (sd, vd) = walk_edges(g, dst, 0, v.insert(dst));
    let (snode, vnode) = walk_node(g, dst, v);
    assert(snode == seq![dst] + sd && vnode == vd);
    assert(v.union(vnode.intersect(nodes_of(g))) =~= vnode);
    let (s2, v2) = walk_edges(g, t, c + 1, vnode);
    assert(walk_edges(g, t, c, v) == (snode + s2, v2));
    let rest = st.drop_last();
    let (sr, v3) = frames(g, rest, v2);
    assert(frames(g, st, v) == ((snode + s2) + sr, v3));
    let stm = st.drop_last().push((t, c2));
    let st2 = stm.push((dst, 0usize));
    assert(st2.last() == (dst, 0usize));
    assert(st2.drop_last() =~= stm);
    assert(stm.last() == (t, c2));
    assert(stm.drop_last() =~= rest);
    assert(walk_edges(g, t, c2 as int, vd) == (s2, v2));
    assert(frames(g, stm, vd) == (s2 + sr, v3));
    assert(frames(g, st2, v.insert(dst)) == (sd + (s2 + sr), v3));
    assert(((seq![dst] + sd) + s2) + sr =~= seq![dst] + (sd + (s2 + sr)));
}

/// Linear membership scan.
fn vec_has(xs: &Vec<u64>, x: u64) -> (b: bool)
    ensures
        b == xs@.contains(x),
{
    let mut i: usize = 0;
    while i < xs.len()
        invariant
            i <= xs@.len(),
            forall|j: int| 0 <= j < i ==> xs@[j] != x,
        decreases xs@.len() - i,
    {
        if xs[i] == x {
            return true;
        }
        i = i + 1;
    }
    proof {
        if xs@.contains(x) {
            let j = choose|j: int| 0 <= j < xs@.len() && xs@[j] == x;
        }
    }
    false
}

impl<'a, G: GraphRepresentation> Dfs<'a, G> {
    /// Builds the engine: pending output is exactly the recursive reference
    /// depth-first walk from the start index (empty if the start index is
    /// not registered).
    pub fn into_iter(self) -> (it: DfsIntoIterator<'a, G>)
        ensures
            it.wf(),
            it.graph_of() == self.0,
            it.emitted() == Seq::<u64>::empty(),
            it.pending() == walk_from(self.0, self.1),
    {
        let g = self.0;
        let start = self.1;
        let mut stack: Vec<(u64, usize)> = Vec::new();
        let known = g.get_node(start).is_some();
        if known {
            stack.push((start, 0));
        }
        let visited: Vec<u64> = Vec::new();
        let it = DfsIntoIterator { graph: g, stack, visited };
        proof {
            g.keys_wf();
            let v0 = Set::<u64>::empty();
            assert(visited@.to_set() =~= v0);
            assert(v0.subset_of(nodes_of(g)));
            if known {
                let w = v0.insert(start);
                assert(stack@ =~= seq![(start, 0usize)]);
                assert(stack@.last() == (start, 0usize));
                assert(stack@.drop_last() =~= Seq::<(u64, usize)>::empty());
                let (s, v1) = walk_edges(g, start, 0, w);
                assert(frames(g, stack@.drop_last(), v1) == (Seq::<u64>::empty(), v1));
                assert(s + Seq::<u64>::empty() =~= s);
                assert(frames(g, stack@, w).0 == s);
                assert(walk_node(g, start, v0) == (seq![start] + s, v1));
                assert(state_pending(g, stack@, visited@) == walk_from(g, start));
            } else {
                assert(stack@.len() == 0);
                assert(walk_node(g, start, v0) == (Seq::<u64>::empty(), v0));
                assert(state_pending(g, stack@, visited@) == walk_from(g, start));
            }
        }
        it
    }
}

impl<'a, G: GraphRepresentation> DfsIntoIterator<'a, G> {
    /// The traversed graph.
    pub closed spec fn graph_of(self) -> &'a G {
        self.graph
    }

    /// The indices emitted so far, in emission order.
    pub closed spec fn emitted(self) -> Seq<u64> {
        self.visited@
    }

    /// The indices still to be emitted, in order.
    pub closed spec fn pending(self) -> Seq<u64> {
        state_pending(self.graph, self.stack@, self.visited@)
    }

    pub closed spec fn wf(self) -> bool {
        state_wf(self.graph, self.stack@, self.visited@)
    }

    /// Produces the next value of the traversal: the payload of the first
    /// pending index, or `None` once the traversal is exhausted. Every call
    /// terminates, also on cyclic graphs.
    #[verifier::loop_isolation(false)]
    pub fn next(&mut self) -> (r: Option<&'a G::NodeValue>)
        requires
            old(self).wf(),
        ensures
            final(self).wf(),
            final(self).graph_of() == old(self).graph_of(),
            old(self).pending().len() == 0 ==> r is None && final(self).emitted() == old(
                self,
            ).emitted() && final(self).pending() == old(self).pending(),
            old(self).pending().len() > 0 ==> ({
                &&& r matches Some(nv) && *nv == old(self).graph_of().node_map()[old(
                    self,
                ).pending()[0]]
                &&& final(self).emitted() == old(self).emitted().push(old(self).pending()[0])
                &&& final(self).pending() == old(self).pending().drop_first()
                &&& nodes_of(old(self).graph_of()).contains(old(self).pending()[0])
                &&& !old(self).emitted().contains(old(self).pending()[0])
            }),
    {
        proof {
            self.graph.keys_wf();
        }
        while self.stack.len() > 0
            invariant
                self.graph == old(self).graph,
                self.visited@ == old(self).visited@,
                state_wf(self.graph, self.stack@, self.visited@),
                state_pending(self.graph, self.stack@, self.visited@) == old(self).pending(),
            decreases
                    (if self.stack@.len() > 0 && !self.visited@.to_set().contains(
                        self.stack@.last().0,
                    ) {
                        0int
                    } else {
                        1int
                    }),
                    slack(self.graph, self.stack@),
                    self.stack@.len(),
        {
            let ghost st0 = self.stack@;
            let ghost vis0 = self.visited@;
            let ghost v0 = vis0.to_set();
            let last_i = self.stack.len() - 1;
            let t = self.stack[last_i].0;
            let c = self.stack[last_i].1;
            let t_visited = vec_has(&self.visited, t);
            let es = self.graph.get_edges(t);
            proof {
                self.graph.keys_wf();
                assert(st0.last() == (t, c));
            }
            if c < es.len() {
                let dst = es[c];
                let _fr = self.stack.pop().unwrap();
                self.stack.push((t, c + 1));
                let dst_known = self.graph.get_node(dst).is_some();
                let dst_visited = vec_has(&self.visited, dst);
                proof {
                    assert(self.stack@ =~= st0.drop_last().push((t, (c + 1) as usize)));
                }
                // An unregistered destination is skipped silently, never an
                // error. A self-loop on a just-discovered top is not pushed:
                // the node is marked visited in this same step, so the
                // duplicate frame could produce nothing.
                if dst_known && !dst_visited && dst != t {
                    self.stack.push((dst, 0));
                    proof {
                        assert(self.stack@ =~= st0.drop_last().push((t, (c + 1) as usize)).push(
                            (dst, 0usize),
                        ));
                    }
                }
            } else {
                let _fr = self.stack.pop().unwrap();
                proof {
                    assert(self.stack@ =~= st0.drop_last());
                }
            }
            if !t_visited {
                // the top was freshly discovered: cursor untouched, emit it
                self.visited.push(t);
                proof {
                    vis0.lemma_push_to_set_commute(t);
                    let w = v0.insert(t);
                    assert(self.visited@.to_set() == w);
                    assert(c == 0);
                    if c >= es.len() {
                        lemma_frames_pop(self.graph, st0, w);
                        assert(state_pending(self.graph, st0, vis0) == seq![t] + state_pending(
                            self.graph,
                            self.stack@,
                            self.visited@,
                        ));
                    } else {
                        let dst = g_edge(self.graph, t, c as int);
                        if w.contains(dst) || !nodes_of(self.graph).contains(dst) {
                            lemma_frames_skip(self.graph, st0, (c + 1) as usize, w);
                            assert(state_pending(self.graph, st0, vis0) == seq![t]
                                + state_pending(self.graph, self.stack@, self.visited@));
                        } else {
                            lemma_frames_push(self.graph, st0, (c + 1) as usize, w);
                            assert(!w.contains(dst));
                            assert(state_pending(self.graph, st0, vis0) == seq![t]
                                + state_pending(self.graph, self.stack@, self.visited@));
                        }
                    }
                    let pending0 = old(self).pending();
                    assert(pending0 == seq![t] + state_pending(self.graph, self.stack@, self.visited@));
                    assert(pending0[0] == t);
                    assert(pending0.drop_first() =~= state_pending(
                        self.graph,
                        self.stack@,
                        self.visited@,
                    ));
                    assert(state_wf(self.graph, self.stack@, self.visited@));
                }
                let node = self.graph.get_node(t);
                return Some(node.unwrap());
            }
            proof {
                let v = v0;
                assert(v.contains(t));
                if c >= es.len() {
                    lemma_frames_pop(self.graph, st0, v);
                    assert(state_pending(self.graph, self.stack@, self.visited@)
                        == state_pending(self.graph, st0, vis0));
                } else {
                    let dst = g_edge(self.graph, t, c as int);
                    if v.contains(dst) || !nodes_of(self.graph).contains(dst) {
                        lemma_frames_skip(self.graph, st0, (c + 1) as usize, v);
                        assert(state_pending(self.graph, self.stack@, self.visited@)
                            == state_pending(self.graph, st0, vis0));
                    } else {
                        lemma_frames_push(self.graph, st0, (c + 1) as usize, v);
                        assert(state_pending(self.graph, self.stack@, self.visited@)
                            == state_pending(self.graph, st0, vis0));
                    }
                }
                assert(state_wf(self.graph, self.stack@, self.visited@));
                // termination bookkeeping
                lemma_slack_nonneg(self.graph, self.stack@);
                if c < es.len() {
                    let stm = st0.drop_last().push((t, (c + 1) as usize));
                    assert(stm.drop_last() =~= st0.drop_last());
                    assert(stm.last() == (t, (c + 1) as usize));
                    assert(slack(self.graph, stm) == slack(self.graph, st0.drop_last())
                        + self.graph.edge_seq(t).len() - (c + 1));
                    assert(slack(self.graph, st0) == slack(self.graph, st0.drop_last())
                        + self.graph.edge_seq(t).len() - c);
                    if self.stack@.len() != stm.len() {
                        let dst = g_edge(self.graph, t, c as int);
                        assert(self.stack@ =~= stm.push((dst, 0usize)));
                        assert(self.stack@.drop_last() =~= stm);
                        assert(slack(self.graph, self.stack@) == slack(self.graph, stm)
                            + self.graph.edge_seq(dst).len());
                    }
                } else {
                    assert(slack(self.graph, st0.drop_last()) == slack(self.graph, st0));
                }
            }
        }
        proof {
            assert(state_pending(self.graph, self.stack@, self.visited@) == Seq::<u64>::empty());
        }
        None
    }

    /// Drains the traversal and returns the full emission order. The loop
    /// provably terminates: the output is finite even on cyclic graphs.
    pub fn run(&mut self) -> (out: Vec<u64>)
        requires
            old(self).wf(),
        ensures
            final(self).wf(),
            final(self).pending().len() == 0,
            out@ == old(self).emitted() + old(self).pending(),
    {
        let ghost emitted0 = old(self).emitted();
        let ghost pending0 = old(self).pending();
        loop
            invariant
                self.wf(),
                self.emitted() + self.pending() == emitted0 + pending0,
            ensures
                self.wf(),
                self.emitted() + self.pending() == emitted0 + pending0,
                self.pending().len() == 0,
            decreases self.pending().len(),
        {
            let ghost pre_emitted = self.emitted();
            let ghost pre_pending = self.pending();
            let n = self.next();
            if n.is_none() {
                proof {
                    assert(pre_pending.len() == 0);
                    assert(self.emitted() == pre_emitted && self.pending() == pre_pending);
                    assert(self.emitted() + self.pending() =~= self.emitted());
                    assert(self.visited@ == emitted0 + pending0);
                }
                break;
            }
            proof {
                assert(pre_emitted.push(pre_pending[0]) + pre_pending.drop_first() =~= pre_emitted
                    + pre_pending);
            }
        }
        proof {
            assert(self.emitted() + self.pending() =~= self.emitted());
        }
        let mut out: Vec<u64> = Vec::new();
        let mut i: usize = 0;
        while i < self.visited.len()
            invariant
                i <= self.visited@.len(),
                out@ == self.visited@.subrange(0, i as int),
            decreases self.visited@.len() - i,
        {
            out.push(self.visited[i]);
            proof {
                assert(self.visited@.subrange(0, i + 1) =~= self.visited@.subrange(
                    0,
                    i as int,
                ).push(self.visited@[i as int]));
            }
            i = i + 1;
        }
        proof {
            assert(self.visited@.subrange(0, self.visited@.len() as int) =~= self.visited@);
        }
        out
    }
}

/// A destination read from an edge list, as the specification sees it.
spec fn g_edge<G: GraphRepresentation>(g: &G, n: u64, i: int) -> u64 {
    g.edge_seq(n)[i]
}

} // verus!
