use vstd::prelude::*;
use crate::dag::{
    acyclic, dag_add_edge, dag_add_node, dag_edges, dag_new, dag_size, is_walk, lemma_add_edge_keeps_acyclic, reaches,
    topological_order, RefGraph,
};
use crate::message_id::{id_views, same_id, MessageId};
use crate::structured::{extract_references, refs_in, StructuredValue};

verus! {

/// Why no order could be given.
#[derive(Clone, Copy, Debug, PartialEq, Eq, Structural)]
pub enum CausalSortError {
    /// Some messages reference each other in a loop, which honestly
    /// produced messages cannot do.
    Cycle,
    /// The identifiers and references, duplicates counted, number
    /// `usize::MAX` or more: more nodes than the graph can index.
    TooManyNodes,
}

/// No two entries name the same content.
pub open spec fn distinct_ids(ids: Seq<MessageId>) -> bool {
    forall|a: int, b: int| 0 <= a < b < ids.len() ==> ids[a]@ != ids[b]@
}

/// Message `j` is the first among `msgs` with its identifier.
pub open spec fn is_first<K>(msgs: Seq<(MessageId, K, StructuredValue)>, j: int) -> bool {
    &&& 0 <= j < msgs.len()
    &&& forall|k: int| 0 <= k < j ==> msgs[k].0@ != msgs[j].0@
}

/// The number of message identifiers and references in the first `n`
/// messages, duplicates counted.
pub open spec fn total_ids<K>(msgs: Seq<(MessageId, K, StructuredValue)>, n: int) -> int
    decreases n,
{
    if n <= 0 || n > msgs.len() {
        0
    } else {
        total_ids(msgs, n - 1) + 1 + refs_in(msgs[n - 1].2).len()
    }
}

/// `order` lists the messages newest first: each distinct identifier once,
/// by the index of its first message, and whenever a message with the
/// identifier of `order[i]` references the identifier of `order[j]`, `i`
/// comes before `j`.
pub open spec fn is_causal_order<K>(msgs: Seq<(MessageId, K, StructuredValue)>, order: Seq<usize>) -> bool {
    &&& forall|i: int| 0 <= i < order.len() ==> is_first(msgs, #[trigger] order[i] as int)
    &&& forall|i: int, j: int| 0 <= i < j < order.len() ==> order[i] != order[j]
    &&& forall|j: usize| is_first(msgs, j as int) ==> #[trigger] order.contains(j)
    &&& forall|i: int, j: int, k: int|
        0 <= i < order.len() && 0 <= j < order.len() && 0 <= k < msgs.len()
            && #[trigger] msgs[k].0@ == #[trigger] msgs[order[i] as int].0@
            && refs_in(msgs[k].2).contains(#[trigger] msgs[order[j] as int].0@) ==> i < j
}

/// The node that stands for `id`, made (with no first message yet) if no
/// node does.
fn node_for(ids: &mut Vec<MessageId>, first: &mut Vec<Option<usize>>, g: &mut RefGraph, id: &MessageId) -> (n: usize)
    requires
        old(ids)@.len() == old(first)@.len(),
        old(ids)@.len() == dag_size(*old(g)),
        old(ids)@.len() < usize::MAX,
        distinct_ids(old(ids)@),
    ensures
        n < final(ids)@.len(),
        final(ids)@[n as int]@ == id@,
        final(ids)@.len() == final(first)@.len(),
        final(ids)@.len() == dag_size(*final(g)),
        dag_edges(*final(g)) == dag_edges(*old(g)),
        distinct_ids(final(ids)@),
        (n < old(ids)@.len() && final(ids)@ == old(ids)@ && final(first)@ == old(first)@)
            || (n == old(ids)@.len() && final(ids)@ == old(ids)@.push(*id)
                && final(first)@ == old(first)@.push(None)),
{
    let mut i: usize = 0;
    while i < ids.len()
        invariant
            i <= ids@.len(),
            ids@ == old(ids)@,
            first@ == old(first)@,
            *g == *old(g),
            ids@.len() == first@.len(),
            ids@.len() == dag_size(*g),
            ids@.len() < usize::MAX,
            distinct_ids(ids@),
            forall|x: int| 0 <= x < i ==> ids@[x]@ != id@,
        decreases ids@.len() - i,
    {
        if same_id(&ids[i], id) {
            return i;
        }
        i = i + 1;
    }
    let n = dag_add_node(g);
    ids.push(*id);
    first.push(None);
    n
}

/// Some message with identifier `a` references `b`.
pub open spec fn depends<K>(msgs: Seq<(MessageId, K, StructuredValue)>, a: (bool, Seq<u8>), b: (bool, Seq<u8>)) -> bool {
    exists|k: int| 0 <= k < msgs.len() && msgs[k].0@ == a && #[trigger] refs_in(msgs[k].2).contains(b)
}

/// Following references from message to message leads back to where it
/// started.
pub open spec fn has_cycle<K>(msgs: Seq<(MessageId, K, StructuredValue)>) -> bool {
    exists|p: Seq<(bool, Seq<u8>)>| {
        &&& p.len() >= 2
        &&& p[0] == p.last()
        &&& forall|i: int| 0 <= i < p.len() - 1 ==> #[trigger] depends(msgs, p[i], p[i + 1])
    }
}

/// Some edge joins a node with identifier `a` to a node with identifier `b`.
pub open spec fn has_edge(ids: Seq<MessageId>, edges: Seq<(int, int)>, a: (bool, Seq<u8>), b: (bool, Seq<u8>)) -> bool {
    exists|e: int| 0 <= e < edges.len() && #[trigger] ids[edges[e].0]@ == a && ids[edges[e].1]@ == b
}

/// Some node stands for identifier `a`.
pub open spec fn registered(ids: Seq<MessageId>, a: (bool, Seq<u8>)) -> bool {
    exists|x: int| 0 <= x < ids.len() && #[trigger] ids[x]@ == a
}

/// What holds while the graph is built: node `x` stands for `ids[x]`, and
/// `first[x]` is the first message with that identifier once one of the
/// first `seen` messages has it; the references of the first `done`
/// messages are edges.
pub open spec fn graph_inv<K>(
    msgs: Seq<(MessageId, K, StructuredValue)>,
    ids: Seq<MessageId>,
    first: Seq<Option<usize>>,
    edges: Seq<(int, int)>,
    seen: int,
    done: int,
) -> bool {
    &&& ids.len() == first.len()
    &&& distinct_ids(ids)
    &&& 0 <= done <= seen <= msgs.len()
    &&& forall|e: int| 0 <= e < edges.len() ==> 0 <= #[trigger] edges[e].0 < ids.len() && 0 <= edges[e].1 < ids.len()
    &&& forall|e: int| 0 <= e < edges.len() ==> depends(msgs, ids[#[trigger] edges[e].0]@, ids[edges[e].1]@)
    &&& forall|x: int| 0 <= x < first.len() && #[trigger] first[x] is Some ==> {
        &&& first[x]->0 < seen
        &&& is_first(msgs, first[x]->0 as int)
        &&& msgs[first[x]->0 as int].0@ == ids[x]@
    }
    &&& forall|x: int, k: int| 0 <= x < ids.len() && 0 <= k < seen && #[trigger] msgs[k].0@ == #[trigger] ids[x]@ ==> first[x] is Some
    &&& forall|k: int| 0 <= k < seen ==> #[trigger] registered(ids, msgs[k].0@)
    &&& forall|k: int, q: int| 0 <= k < done && 0 <= q < refs_in(msgs[k].2).len()
        ==> #[trigger] has_edge(ids, edges, msgs[k].0@, #[trigger] refs_in(msgs[k].2)[q])
}

proof fn lemma_has_edge_extend(ids: Seq<MessageId>, edges: Seq<(int, int)>, ids2: Seq<MessageId>, edges2: Seq<(int, int)>, a: (bool, Seq<u8>), b: (bool, Seq<u8>))
    requires
        has_edge(ids, edges, a, b),
        forall|e: int| 0 <= e < edges.len() ==> 0 <= #[trigger] edges[e].0 < ids.len() && 0 <= edges[e].1 < ids.len(),
        ids.len() <= ids2.len(),
        forall|x: int| 0 <= x < ids.len() ==> ids2[x] == ids[x],
        edges.len() <= edges2.len(),
        forall|e: int| 0 <= e < edges.len() ==> edges2[e] == edges[e],
    ensures
        has_edge(ids2, edges2, a, b),
{
    let e = choose|e: int| 0 <= e < edges.len() && #[trigger] ids[edges[e].0]@ == a && ids[edges[e].1]@ == b;
    assert(ids2[edges2[e].0]@ == a && ids2[edges2[e].1]@ == b);
}

/// Growing the graph by new nodes (for identifiers of none of the first
/// `seen` messages) and new edges keeps the invariant.
proof fn lemma_graph_inv_extend<K>(
    msgs: Seq<(MessageId, K, StructuredValue)>,
    ids: Seq<MessageId>,
    first: Seq<Option<usize>>,
    edges: Seq<(int, int)>,
    ids2: Seq<MessageId>,
    first2: Seq<Option<usize>>,
    edges2: Seq<(int, int)>,
    seen: int,
    done: int,
)
    requires
        graph_inv(msgs, ids, first, edges, seen, done),
        distinct_ids(ids2),
        ids.len() <= ids2.len(),
        ids2.len() == first2.len(),
        forall|x: int| 0 <= x < ids.len() ==> ids2[x] == ids[x],
        forall|x: int| 0 <= x < ids.len() ==> first2[x] == first[x],
        forall|x: int| ids.len() <= x < ids2.len() ==> first2[x] is None,
        edges.len() <= edges2.len(),
        forall|e: int| 0 <= e < edges.len() ==> edges2[e] == edges[e],
        forall|e: int| edges.len() <= e < edges2.len() ==> 0 <= #[trigger] edges2[e].0 < ids2.len() && 0 <= edges2[e].1 < ids2.len(),
        forall|e: int| edges.len() <= e < edges2.len() ==> depends(msgs, ids2[#[trigger] edges2[e].0]@, ids2[edges2[e].1]@),
    ensures
        graph_inv(msgs, ids2, first2, edges2, seen, done),
{
    assert forall|x: int| 0 <= x < first2.len() && #[trigger] first2[x] is Some implies {
        &&& first2[x]->0 < seen
        &&& is_first(msgs, first2[x]->0 as int)
        &&& msgs[first2[x]->0 as int].0@ == ids2[x]@
    } by {
        assert(x < ids.len());
        assert(first[x] is Some);
    }
    assert forall|e: int| 0 <= e < edges2.len() implies 0 <= #[trigger] edges2[e].0 < ids2.len() && 0 <= edges2[e].1 < ids2.len() by {
        if e < edges.len() {
            assert(edges2[e] == edges[e]);
        }
    }
    assert forall|e: int| 0 <= e < edges2.len() implies depends(msgs, ids2[#[trigger] edges2[e].0]@, ids2[edges2[e].1]@) by {
        if e < edges.len() {
            assert(edges2[e] == edges[e]);
            assert(depends(msgs, ids[edges[e].0]@, ids[edges[e].1]@));
            assert(ids2[edges2[e].0] == ids[edges[e].0]);
            assert(ids2[edges2[e].1] == ids[edges[e].1]);
        }
    }
    assert forall|x: int, k: int| 0 <= x < ids2.len() && 0 <= k < seen && #[trigger] msgs[k].0@ == #[trigger] ids2[x]@ implies first2[x] is Some by {
        assert(registered(ids, msgs[k].0@));
        let y = choose|y: int| 0 <= y < ids.len() && #[trigger] ids[y]@ == msgs[k].0@;
        assert(ids2[y]@ == msgs[k].0@);
        if x != y {
            assert(ids2[x]@ != ids2[y]@);
        }
    }
    assert forall|k: int| 0 <= k < seen implies #[trigger] registered(ids2, msgs[k].0@) by {
        assert(registered(ids, msgs[k].0@));
        let y = choose|y: int| 0 <= y < ids.len() && #[trigger] ids[y]@ == msgs[k].0@;
        assert(ids2[y]@ == msgs[k].0@);
    }
    assert forall|k: int, q: int| 0 <= k < done && 0 <= q < refs_in(msgs[k].2).len()
        implies #[trigger] has_edge(ids2, edges2, msgs[k].0@, #[trigger] refs_in(msgs[k].2)[q]) by {
        lemma_has_edge_extend(ids, edges, ids2, edges2, msgs[k].0@, refs_in(msgs[k].2)[q]);
    }
}


proof fn lemma_total_ids_monotone<K>(msgs: Seq<(MessageId, K, StructuredValue)>, a: int, b: int)
    requires
        0 <= a <= b <= msgs.len(),
    ensures
        a <= total_ids(msgs, a) <= total_ids(msgs, b),
    decreases b,
{
    if a < b {
        lemma_total_ids_monotone(msgs, a, b - 1);
    } else if a > 0 {
        lemma_total_ids_monotone(msgs, a - 1, a - 1);
    }
}

proof fn lemma_cycle_from_walk<K>(
    msgs: Seq<(MessageId, K, StructuredValue)>,
    ids: Seq<MessageId>,
    first: Seq<Option<usize>>,
    edges: Seq<(int, int)>,
    seen: int,
    done: int,
    a: int,
    b: int,
)
    requires
        graph_inv(msgs, ids, first, edges, seen, done),
        0 <= a < ids.len(),
        0 <= b < ids.len(),
        depends(msgs, ids[a]@, ids[b]@),
        reaches(edges, b, a),
    ensures
        has_cycle(msgs),
{
    let w = choose|w: Seq<int>| #[trigger] is_walk(edges, w) && w[0] == b && w.last() == a;
    let p = seq![ids[a]@] + w.map_values(|x: int| ids[x]@);
    assert forall|i: int| 0 <= i < p.len() - 1 implies #[trigger] depends(msgs, p[i], p[i + 1]) by {
        if i == 0 {
            assert(p[1] == ids[b]@);
        } else {
            assert(edges.contains((w[i - 1], w[i - 1 + 1])));
            let e = choose|e: int| 0 <= e < edges.len() && edges[e] == (w[i - 1], w[i]);
            assert(depends(msgs, ids[edges[e].0]@, ids[edges[e].1]@));
            assert(p[i] == ids[w[i - 1]]@);
            assert(p[i + 1] == ids[w[i]]@);
        }
    }
    assert(p.last() == ids[a]@);
}

/// Adds a node for every identifier and an edge from each message to each of
/// its references; `false` as soon as an edge would close a cycle.
fn build_graph<K>(
    msgs: &[(MessageId, K, StructuredValue)],
    all_refs: &Vec<Vec<MessageId>>,
    ids: &mut Vec<MessageId>,
    first: &mut Vec<Option<usize>>,
    g: &mut RefGraph,
) -> (ok: bool)
    requires
        old(ids)@.len() == 0,
        old(first)@.len() == 0,
        dag_size(*old(g)) == 0,
        dag_edges(*old(g)).len() == 0,
        all_refs@.len() == msgs@.len(),
        forall|j: int| 0 <= j < msgs@.len() ==> id_views(#[trigger] all_refs@[j]@) == refs_in(msgs@[j].2),
        total_ids(msgs@, msgs@.len() as int) < usize::MAX,
    ensures
        final(ids)@.len() == dag_size(*final(g)),
        ok ==> graph_inv(msgs@, final(ids)@, final(first)@, dag_edges(*final(g)), msgs@.len() as int, msgs@.len() as int),
        ok ==> acyclic(dag_edges(*final(g))),
        !ok ==> has_cycle(msgs@),
{
    proof {
        assert forall|p: Seq<int>| #[trigger] is_walk(dag_edges(*g), p) && p.len() >= 2 implies p[0] != p.last() by {
            assert(dag_edges(*g).contains((p[0], p[0int + 1])));
        }
    }
    let mut j: usize = 0;
    while j < msgs.len()
        invariant
            j <= msgs@.len(),
            all_refs@.len() == msgs@.len(),
            forall|j: int| 0 <= j < msgs@.len() ==> id_views(#[trigger] all_refs@[j]@) == refs_in(msgs@[j].2),
            total_ids(msgs@, msgs@.len() as int) < usize::MAX,
            ids@.len() == dag_size(*g),
            ids@.len() <= total_ids(msgs@, j as int),
            graph_inv(msgs@, ids@, first@, dag_edges(*g), j as int, j as int),
            acyclic(dag_edges(*g)),
        decreases msgs@.len() - j,
    {
        proof {
            lemma_total_ids_monotone(msgs@, j as int + 1, msgs@.len() as int);
            assert(total_ids(msgs@, j as int + 1) == total_ids(msgs@, j as int) + 1 + refs_in(msgs@[j as int].2).len());
        }
        let ghost ids0 = ids@;
        let ghost first0 = first@;
        let ghost edges0 = dag_edges(*g);
        let key = node_for(ids, first, g, &msgs[j].0);
        proof {
            lemma_graph_inv_extend(msgs@, ids0, first0, edges0, ids@, first@, dag_edges(*g), j as int, j as int);
        }
        if first[key].is_none() {
            let ghost first1 = first@;
            first.set(key, Some(j));
            assert forall|x: int| 0 <= x < first@.len() && #[trigger] first@[x] is Some implies {
                &&& first@[x]->0 < j + 1
                &&& is_first(msgs@, first@[x]->0 as int)
                &&& msgs@[first@[x]->0 as int].0@ == ids@[x]@
            } by {
                if x == key {
                    assert forall|k: int| 0 <= k < j implies msgs@[k].0@ != msgs@[j as int].0@ by {
                        if msgs@[k].0@ == msgs@[j as int].0@ {
                            assert(first1[key as int] is Some);
                        }
                    }
                } else {
                    assert(first1[x] is Some);
                }
            }
        }
        assert forall|x: int, k: int| 0 <= x < ids@.len() && 0 <= k < j + 1 && #[trigger] msgs@[k].0@ == #[trigger] ids@[x]@ implies first@[x] is Some by {
            if k == j && x != key {
                assert(ids@[x]@ != ids@[key as int]@);
            }
        }
        assert(registered(ids@, msgs@[j as int].0@));
        assert(graph_inv(msgs@, ids@, first@, dag_edges(*g), j as int + 1, j as int));
        let refs = &all_refs[j];
        let ghost rv = refs_in(msgs@[j as int].2);
        assert(id_views(refs@) == rv);
        let mut t: usize = 0;
        while t < refs.len()
            invariant
                j < msgs@.len(),
                t <= refs@.len(),
                id_views(refs@) == rv,
                rv == refs_in(msgs@[j as int].2),
                ids@.len() == dag_size(*g),
                ids@.len() <= total_ids(msgs@, j as int) + 1 + t,
                total_ids(msgs@, j as int) + 1 + refs@.len() < usize::MAX,
                key < ids@.len(),
                ids@[key as int]@ == msgs@[j as int].0@,
                graph_inv(msgs@, ids@, first@, dag_edges(*g), j as int + 1, j as int),
                acyclic(dag_edges(*g)),
                forall|q: int| 0 <= q < t ==> #[trigger] has_edge(ids@, dag_edges(*g), msgs@[j as int].0@, rv[q]),
            decreases refs@.len() - t,
        {
            let ghost ids0 = ids@;
            let ghost first0 = first@;
            let ghost edges0 = dag_edges(*g);
            let r = node_for(ids, first, g, &refs[t]);
            proof {
                lemma_graph_inv_extend(msgs@, ids0, first0, edges0, ids@, first@, dag_edges(*g), j as int + 1, j as int);
            }
            assert(ids@[key as int] == ids0[key as int]);
            assert(id_views(refs@)[t as int] == refs@[t as int]@);
            let ghost edges1 = dag_edges(*g);
            if !dag_add_edge(g, key, r) {
                proof {
                    assert(refs_in(msgs@[j as int].2).contains(rv[t as int]));
                    assert(depends(msgs@, ids@[key as int]@, ids@[r as int]@));
                    lemma_cycle_from_walk(msgs@, ids@, first@, edges1, j as int + 1, j as int, key as int, r as int);
                }
                return false;
            }
            proof {
                lemma_add_edge_keeps_acyclic(edges1, key as int, r as int);
                assert(refs_in(msgs@[j as int].2).contains(rv[t as int]));
                assert(depends(msgs@, ids@[key as int]@, ids@[r as int]@));
                assert(dag_edges(*g)[edges0.len() as int] == (key as int, r as int));
                lemma_graph_inv_extend(msgs@, ids@, first@, edges0, ids@, first@, dag_edges(*g), j as int + 1, j as int);
                let edges = dag_edges(*g);
                let e = edges0.len() as int;
                assert(edges[e] == (key as int, r as int));
                assert(ids@[edges[e].0]@ == msgs@[j as int].0@);
                assert(ids@[edges[e].1]@ == rv[t as int]);
                assert(refs@[t as int]@ == rv[t as int]);
                assert(has_edge(ids@, edges, msgs@[j as int].0@, rv[t as int]));
                assert forall|q: int| 0 <= q < t + 1 implies #[trigger] has_edge(ids@, edges, msgs@[j as int].0@, rv[q]) by {
                    if q < t {
                        lemma_has_edge_extend(ids0, edges0, ids@, edges, msgs@[j as int].0@, rv[q]);
                    }
                }
            }
            t = t + 1;
        }
        j = j + 1;
    }
    true
}


/// The first messages of the graph's nodes, in topological order; nodes
/// that no message stands for are left out.
fn restrict<K>(msgs: &[(MessageId, K, StructuredValue)], ids: &Vec<MessageId>, first: &Vec<Option<usize>>, g: &RefGraph) -> (order: Vec<usize>)
    requires
        graph_inv(msgs@, ids@, first@, dag_edges(*g), msgs@.len() as int, msgs@.len() as int),
        ids@.len() == dag_size(*g),
        acyclic(dag_edges(*g)),
    ensures
        is_causal_order(msgs@, order@),
{
    let topo = topological_order(g);
    let mut out: Vec<usize> = Vec::new();
    let ghost mut pos: Seq<int> = seq![];
    let mut t: usize = 0;
    while t < topo.len()
        invariant
            t <= topo@.len(),
            topo@.len() == ids@.len(),
            forall|i: int| 0 <= i < topo@.len() ==> #[trigger] topo@[i] < ids@.len(),
            ids@.len() == first@.len(),
            out@.len() == pos.len(),
            forall|i: int| 0 <= i < pos.len() ==> 0 <= #[trigger] pos[i] < t,
            forall|i: int, i2: int| 0 <= i < i2 < pos.len() ==> pos[i] < pos[i2],
            forall|i: int| 0 <= i < pos.len() ==> first@[topo@[#[trigger] pos[i]] as int] == Some(out@[i]),
            forall|s: int| 0 <= s < t && (#[trigger] first@[topo@[s] as int]) is Some ==> pos.contains(s),
        decreases topo@.len() - t,
    {
        let ghost pos0 = pos;
        match first[topo[t]] {
            Some(m) => {
                out.push(m);
                proof {
                    pos = pos.push(t as int);
                    assert(pos[pos.len() - 1] == t);
                }
            },
            None => {},
        }
        proof {
            assert forall|s: int| 0 <= s < t + 1 && (#[trigger] first@[topo@[s] as int]) is Some implies pos.contains(s) by {
                if s == t {
                    assert(pos[pos.len() - 1] == t);
                } else {
                    assert(pos0.contains(s));
                    let i = choose|i: int| 0 <= i < pos0.len() && pos0[i] == s;
                    assert(pos[i] == s);
                }
            }
        }
        t = t + 1;
    }
    proof {
        let ms = msgs@;
        let n = ms.len() as int;
        let edges = dag_edges(*g);
        assert forall|i: int| 0 <= i < out@.len() implies is_first(ms, #[trigger] out@[i] as int) by {
            let x = topo@[pos[i]] as int;
            assert(first@[x] is Some);
        }
        assert forall|i: int, i2: int| 0 <= i < i2 < out@.len() implies out@[i] != out@[i2] by {
            let x = topo@[pos[i]] as int;
            let x2 = topo@[pos[i2]] as int;
            assert(first@[x] is Some);
            assert(first@[x2] is Some);
            if out@[i] == out@[i2] {
                assert(ids@[x]@ == ids@[x2]@);
                assert(x == x2);
                assert(pos[i] < pos[i2]);
            }
        }
        assert forall|j: usize| is_first(ms, j as int) implies #[trigger] out@.contains(j) by {
            assert(registered(ids@, ms[j as int].0@));
            let x = choose|x: int| 0 <= x < ids@.len() && #[trigger] ids@[x]@ == ms[j as int].0@;
            assert(first@[x] is Some);
            let m = first@[x]->0;
            assert(is_first(ms, m as int));
            if (m as int) < (j as int) {
                assert(ms[m as int].0@ == ms[j as int].0@);
            }
            if (j as int) < (m as int) {
                assert(ms[j as int].0@ == ms[m as int].0@);
            }
            assert(topo@.contains(x as usize));
            let s = choose|s: int| 0 <= s < topo@.len() && topo@[s] == x as usize;
            assert(first@[topo@[s] as int] is Some);
            assert(pos.contains(s));
            let i = choose|i: int| 0 <= i < pos.len() && pos[i] == s;
            assert(out@[i] == j);
        }
        assert forall|i: int, j2: int, k: int|
            0 <= i < out@.len() && 0 <= j2 < out@.len() && 0 <= k < n
                && #[trigger] ms[k].0@ == #[trigger] ms[out@[i] as int].0@
                && refs_in(ms[k].2).contains(#[trigger] ms[out@[j2] as int].0@) implies i < j2 by {
            let x = topo@[pos[i]] as int;
            let y = topo@[pos[j2]] as int;
            assert(first@[x] is Some);
            assert(first@[y] is Some);
            let rs = refs_in(ms[k].2);
            let q = choose|q: int| 0 <= q < rs.len() && rs[q] == ms[out@[j2] as int].0@;
            assert(has_edge(ids@, edges, ms[k].0@, rs[q]));
            let e = choose|e: int| 0 <= e < edges.len() && #[trigger] ids@[edges[e].0]@ == ms[k].0@ && ids@[edges[e].1]@ == rs[q];
            assert(0 <= edges[e].0 < ids@.len());
            assert(edges[e].0 == x);
            assert(edges[e].1 == y);
            assert(pos[i] < pos[j2]);
            if j2 < i {
                assert(pos[j2] < pos[i]);
            }
        }
    }
    out
}


/// Some supplied message has identifier `x`.
pub open spec fn supplied<K>(msgs: Seq<(MessageId, K, StructuredValue)>, x: (bool, Seq<u8>)) -> bool {
    exists|k: int| 0 <= k < msgs.len() && #[trigger] msgs[k].0@ == x
}

/// A position of identifier `x` in `order`.
pub open spec fn position_of<K>(msgs: Seq<(MessageId, K, StructuredValue)>, order: Seq<usize>, x: (bool, Seq<u8>)) -> int {
    choose|i: int| 0 <= i < order.len() && #[trigger] msgs[order[i] as int].0@ == x
}

proof fn lemma_first_occurrence<K>(msgs: Seq<(MessageId, K, StructuredValue)>, k: int) -> (j: int)
    requires
        0 <= k < msgs.len(),
    ensures
        is_first(msgs, j),
        msgs[j].0@ == msgs[k].0@,
    decreases k,
{
    if exists|k2: int| 0 <= k2 < k && #[trigger] msgs[k2].0@ == msgs[k].0@ {
        let k2 = choose|k2: int| 0 <= k2 < k && #[trigger] msgs[k2].0@ == msgs[k].0@;
        lemma_first_occurrence(msgs, k2)
    } else {
        k
    }
}

proof fn lemma_position<K>(msgs: Seq<(MessageId, K, StructuredValue)>, order: Seq<usize>, x: (bool, Seq<u8>))
    requires
        is_causal_order(msgs, order),
        msgs.len() <= usize::MAX,
        supplied(msgs, x),
    ensures
        0 <= position_of(msgs, order, x) < order.len(),
        msgs[order[position_of(msgs, order, x)] as int].0@ == x,
{
    let k = choose|k: int| 0 <= k < msgs.len() && #[trigger] msgs[k].0@ == x;
    let j = lemma_first_occurrence(msgs, k);
    assert(is_first(msgs, (j as usize) as int));
    assert(order.contains(j as usize));
    let i = choose|i: int| 0 <= i < order.len() && order[i] == j as usize;
    assert(msgs[order[i] as int].0@ == x);
}

proof fn lemma_walk_rises<K>(msgs: Seq<(MessageId, K, StructuredValue)>, order: Seq<usize>, p: Seq<(bool, Seq<u8>)>, i: int)
    requires
        is_causal_order(msgs, order),
        msgs.len() <= usize::MAX,
        1 <= i < p.len(),
        forall|t: int| 0 <= t < p.len() ==> #[trigger] supplied(msgs, p[t]),
        forall|t: int| 0 <= t < p.len() - 1 ==> #[trigger] depends(msgs, p[t], p[t + 1]),
    ensures
        position_of(msgs, order, p[0]) < position_of(msgs, order, p[i]),
    decreases i,
{
    if i > 1 {
        lemma_walk_rises(msgs, order, p, i - 1);
    }
    let t = i - 1;
    assert(supplied(msgs, p[t]));
    assert(supplied(msgs, p[i]));
    lemma_position(msgs, order, p[t]);
    lemma_position(msgs, order, p[i]);
    assert(depends(msgs, p[t], p[t + 1]));
    let k = choose|k: int| 0 <= k < msgs.len() && msgs[k].0@ == p[t] && #[trigger] refs_in(msgs[k].2).contains(p[t + 1]);
    let a = position_of(msgs, order, p[t]);
    let b = position_of(msgs, order, p[i]);
    assert(msgs[k].0@ == msgs[order[a] as int].0@);
    assert(refs_in(msgs[k].2).contains(msgs[order[b] as int].0@));
}

/// Where the messages can be put in causal order, following references
/// never leads back to where it started.
pub proof fn lemma_causal_order_has_no_cycle<K>(msgs: Seq<(MessageId, K, StructuredValue)>, order: Seq<usize>)
    requires
        is_causal_order(msgs, order),
        msgs.len() <= usize::MAX,
    ensures
        !has_cycle(msgs),
{
    if has_cycle(msgs) {
        let p = choose|p: Seq<(bool, Seq<u8>)>| {
            &&& p.len() >= 2
            &&& p[0] == p.last()
            &&& forall|i: int| 0 <= i < p.len() - 1 ==> #[trigger] depends(msgs, p[i], p[i + 1])
        };
        assert forall|t: int| 0 <= t < p.len() implies #[trigger] supplied(msgs, p[t]) by {
            let u = if t == p.len() - 1 { 0 } else { t };
            assert(depends(msgs, p[u], p[u + 1]));
            let k = choose|k: int| 0 <= k < msgs.len() && msgs[k].0@ == p[u] && #[trigger] refs_in(msgs[k].2).contains(p[u + 1]);
            assert(msgs[k].0@ == p[t]);
        }
        lemma_walk_rises(msgs, order, p, p.len() - 1);
    }
}

/// In a causal order every supplied identifier stands exactly once.
pub proof fn lemma_each_identifier_once<K>(msgs: Seq<(MessageId, K, StructuredValue)>, order: Seq<usize>, x: (bool, Seq<u8>))
    requires
        is_causal_order(msgs, order),
        msgs.len() <= usize::MAX,
        supplied(msgs, x),
    ensures
        exists|i: int| 0 <= i < order.len() && #[trigger] msgs[order[i] as int].0@ == x,
        forall|i: int, i2: int|
            0 <= i < order.len() && 0 <= i2 < order.len() && #[trigger] msgs[order[i] as int].0@ == x
                && #[trigger] msgs[order[i2] as int].0@ == x ==> i == i2,
{
    lemma_position(msgs, order, x);
    assert forall|i: int, i2: int|
        0 <= i < order.len() && 0 <= i2 < order.len() && #[trigger] msgs[order[i] as int].0@ == x
            && #[trigger] msgs[order[i2] as int].0@ == x implies i == i2 by {
        let a = order[i] as int;
        let b = order[i2] as int;
        assert(is_first(msgs, a));
        assert(is_first(msgs, b));
        if a < b {
            assert(msgs[a].0@ == msgs[b].0@);
        } else if b < a {
            assert(msgs[b].0@ == msgs[a].0@);
        }
        if i < i2 {
            assert(order[i] != order[i2]);
        } else if i2 < i {
            assert(order[i2] != order[i]);
        }
    }
}

/// A message that references nothing and that nothing references still
/// stands in a causal order, exactly once.
pub proof fn lemma_orphan_appears_once<K>(msgs: Seq<(MessageId, K, StructuredValue)>, order: Seq<usize>, j: int)
    requires
        is_causal_order(msgs, order),
        msgs.len() <= usize::MAX,
        is_first(msgs, j),
        refs_in(msgs[j].2).len() == 0,
        forall|k: int| 0 <= k < msgs.len() ==> !(#[trigger] refs_in(msgs[k].2)).contains(msgs[j].0@),
    ensures
        exists|i: int| 0 <= i < order.len() && order[i] == j,
        forall|i: int, i2: int| 0 <= i < order.len() && 0 <= i2 < order.len() && order[i] == j && order[i2] == j ==> i == i2,
{
    assert(order.contains(j as usize));
    assert forall|i: int, i2: int| 0 <= i < order.len() && 0 <= i2 < order.len() && order[i] == j && order[i2] == j implies i == i2 by {
        if i < i2 {
            assert(order[i] != order[i2]);
        } else if i2 < i {
            assert(order[i2] != order[i]);
        }
    }
}

/// The references of every message; `None` where they and the messages
/// together are too many to number.
fn extract_all<K>(msgs: &[(MessageId, K, StructuredValue)]) -> (r: Option<Vec<Vec<MessageId>>>)
    ensures
        r is None <==> total_ids(msgs@, msgs@.len() as int) >= usize::MAX,
        r matches Some(all) ==> {
            &&& all@.len() == msgs@.len()
            &&& forall|j: int| 0 <= j < msgs@.len() ==> id_views(#[trigger] all@[j]@) == refs_in(msgs@[j].2)
        },
{
    let mut all: Vec<Vec<MessageId>> = Vec::new();
    let mut count: usize = 0;
    let mut j: usize = 0;
    while j < msgs.len()
        invariant
            j <= msgs@.len(),
            count == total_ids(msgs@, j as int),
            count < usize::MAX,
            all@.len() == j,
            forall|k: int| 0 <= k < j ==> id_views(#[trigger] all@[k]@) == refs_in(msgs@[k].2),
        decreases msgs@.len() - j,
    {
        let refs = extract_references(&msgs[j].2);
        assert(total_ids(msgs@, j as int + 1) == total_ids(msgs@, j as int) + 1 + refs_in(msgs@[j as int].2).len());
        assert(id_views(refs@).len() == refs@.len());
        if refs.len() >= usize::MAX - 1 - count {
            proof {
                lemma_total_ids_monotone(msgs@, j as int + 1, msgs@.len() as int);
            }
            return None;
        }
        count = count + 1 + refs.len();
        all.push(refs);
        j = j + 1;
    }
    Some(all)
}

/// Orders the messages newest first: a message comes before every supplied
/// message that it references, at any depth of its body. Each distinct
/// identifier appears once, with the key of its first message; identifiers
/// that are only referenced are left out. Messages with no path between them
/// keep no fixed order (they come as petgraph's topological traversal
/// meets them).
pub fn causal_sort<K: Copy>(msgs: &[(MessageId, K, StructuredValue)]) -> (r: Result<Vec<K>, CausalSortError>)
    ensures
        (r == Err::<Vec<K>, CausalSortError>(CausalSortError::TooManyNodes)) <==> total_ids(msgs@, msgs@.len() as int) >= usize::MAX,
        r matches Ok(keys) ==> exists|order: Seq<usize>|
            is_causal_order(msgs@, order) && keys@ == order.map_values(|m: usize| msgs@[m as int].1),
        r == Err::<Vec<K>, CausalSortError>(CausalSortError::Cycle) <==> (has_cycle(msgs@)
            && total_ids(msgs@, msgs@.len() as int) < usize::MAX),
        r is Ok <==> (!has_cycle(msgs@) && total_ids(msgs@, msgs@.len() as int) < usize::MAX),
{
    let all_refs = match extract_all(msgs) {
        Some(all) => all,
        None => {
            return Err(CausalSortError::TooManyNodes);
        },
    };
    let mut ids: Vec<MessageId> = Vec::new();
    let mut first: Vec<Option<usize>> = Vec::new();
    let mut g = dag_new();
    if !build_graph(msgs, &all_refs, &mut ids, &mut first, &mut g) {
        return Err(CausalSortError::Cycle);
    }
    let order = restrict(msgs, &ids, &first, &g);
    let count = msgs.len();
    proof {
        assert(msgs@.len() == count);
        lemma_causal_order_has_no_cycle(msgs@, order@);
    }
    let mut keys: Vec<K> = Vec::new();
    let mut i: usize = 0;
    while i < order.len()
        invariant
            i <= order@.len(),
            forall|t: int| 0 <= t < order@.len() ==> #[trigger] order@[t] < msgs@.len(),
            keys@ == order@.subrange(0, i as int).map_values(|m: usize| msgs@[m as int].1),
        decreases order@.len() - i,
    {
        keys.push(msgs[order[i]].1);
        assert(order@.subrange(0, i as int + 1) == order@.subrange(0, i as int).push(order@[i as int]));
        i = i + 1;
    }
    assert(order@.subrange(0, order@.len() as int) == order@);
    Ok(keys)
}

} // verus!
