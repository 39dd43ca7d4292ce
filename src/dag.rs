use vstd::prelude::*;

verus! {

/// A directed acyclic graph of `daggy`, seen only through `dag_size` and
/// `dag_edges`.
#[verifier::external_body]
pub struct RefGraph {
    dag: daggy::Dag<u32, u32, usize>,
}

/// The number of nodes in a graph; its nodes are `0 .. dag_size(d)`.
pub uninterp spec fn dag_size(d: RefGraph) -> nat;

/// The edges of a graph as (source, target) node pairs, in insertion order.
pub uninterp spec fn dag_edges(d: RefGraph) -> Seq<(int, int)>;

/// `p` is a walk along `edges`: one or more nodes, each joined to the next
/// by an edge.
pub open spec fn is_walk(edges: Seq<(int, int)>, p: Seq<int>) -> bool {
    &&& p.len() >= 1
    &&& forall|i: int| 0 <= i < p.len() - 1 ==> #[trigger] edges.contains((p[i], p[i + 1]))
}

/// Some walk along `edges` leads from `from` to `to` (every node reaches
/// itself).
pub open spec fn reaches(edges: Seq<(int, int)>, from: int, to: int) -> bool {
    exists|p: Seq<int>| #[trigger] is_walk(edges, p) && p[0] == from && p.last() == to
}

/// No walk along `edges` of two or more nodes returns to where it started.
pub open spec fn acyclic(edges: Seq<(int, int)>) -> bool {
    forall|p: Seq<int>| #[trigger] is_walk(edges, p) && p.len() >= 2 ==> p[0] != p.last()
}

proof fn lemma_reaches_trans(edges: Seq<(int, int)>, u: int, v: int, w: int)
    requires
        reaches(edges, u, v),
        reaches(edges, v, w),
    ensures
        reaches(edges, u, w),
{
    let p = choose|p: Seq<int>| #[trigger] is_walk(edges, p) && p[0] == u && p.last() == v;
    let q = choose|q: Seq<int>| #[trigger] is_walk(edges, q) && q[0] == v && q.last() == w;
    let r = p + q.subrange(1, q.len() as int);
    assert forall|i: int| 0 <= i < r.len() - 1 implies #[trigger] edges.contains((r[i], r[i + 1])) by {
        if i < p.len() - 1 {
            assert(edges.contains((p[i], p[i + 1])));
        } else {
            let t = i - (p.len() - 1);
            assert(edges.contains((q[t], q[t + 1])));
            assert(r[i] == q[t]);
        }
    }
    assert(is_walk(edges, r));
    if q.len() > 1 {
        assert(r.last() == q.last());
    }
}

/// A walk along `edges` plus `(a, b)` either keeps to `edges` or leads, along
/// `edges`, from its start to `a`.
proof fn lemma_walk_reaches_source(edges: Seq<(int, int)>, a: int, b: int, p: Seq<int>)
    requires
        is_walk(edges.push((a, b)), p),
    ensures
        is_walk(edges, p) || reaches(edges, p[0], a),
    decreases p.len(),
{
    if p.len() > 1 {
        let n = p.len() - 1;
        let q = p.subrange(0, n);
        assert forall|i: int| 0 <= i < q.len() - 1 implies #[trigger] edges.push((a, b)).contains((q[i], q[i + 1])) by {
            assert(edges.push((a, b)).contains((p[i], p[i + 1])));
        }
        lemma_walk_reaches_source(edges, a, b, q);
        if !reaches(edges, p[0], a) {
            assert(is_walk(edges, q));
            assert(edges.push((a, b)).contains((p[n - 1], p[n - 1 + 1])));
            if edges.contains((p[n - 1], p[n])) {
                assert forall|i: int| 0 <= i < p.len() - 1 implies #[trigger] edges.contains((p[i], p[i + 1])) by {
                    if i < n - 1 {
                        assert(edges.contains((q[i], q[i + 1])));
                    }
                }
            } else {
                let k = choose|k: int| 0 <= k < edges.push((a, b)).len() && edges.push((a, b))[k] == (p[n - 1], p[n]);
                if k < edges.len() {
                    assert(edges.contains((p[n - 1], p[n])));
                }
                assert(q.last() == a);
            }
        }
    }
}

/// A walk along `edges` plus `(a, b)` either keeps to `edges` or leads, along
/// `edges`, from `b` to its end.
proof fn lemma_walk_reaches_end(edges: Seq<(int, int)>, a: int, b: int, p: Seq<int>)
    requires
        is_walk(edges.push((a, b)), p),
    ensures
        is_walk(edges, p) || reaches(edges, b, p.last()),
    decreases p.len(),
{
    if p.len() > 1 {
        let q = p.subrange(1, p.len() as int);
        assert forall|i: int| 0 <= i < q.len() - 1 implies #[trigger] edges.push((a, b)).contains((q[i], q[i + 1])) by {
            assert(edges.push((a, b)).contains((p[i + 1], p[i + 1 + 1])));
        }
        lemma_walk_reaches_end(edges, a, b, q);
        assert(q.last() == p.last());
        if !reaches(edges, b, p.last()) {
            assert(is_walk(edges, q));
            assert(edges.push((a, b)).contains((p[0], p[0int + 1])));
            if edges.contains((p[0], p[1])) {
                assert forall|i: int| 0 <= i < p.len() - 1 implies #[trigger] edges.contains((p[i], p[i + 1])) by {
                    if i > 0 {
                        assert(edges.contains((q[i - 1], q[i - 1 + 1])));
                    }
                }
            } else {
                let k = choose|k: int| 0 <= k < edges.push((a, b)).len() && edges.push((a, b))[k] == (p[0], p[1]);
                if k < edges.len() {
                    assert(edges.contains((p[0], p[1])));
                }
                assert(q[0] == b);
            }
        }
    }
}

/// Adding the edge `a -> b` to a graph without cycles, where no walk leads
/// from `b` to `a`, leaves it without cycles.
pub proof fn lemma_add_edge_keeps_acyclic(edges: Seq<(int, int)>, a: int, b: int)
    requires
        acyclic(edges),
        !reaches(edges, b, a),
    ensures
        acyclic(edges.push((a, b))),
{
    assert forall|p: Seq<int>| #[trigger] is_walk(edges.push((a, b)), p) && p.len() >= 2 implies p[0] != p.last() by {
        if p[0] == p.last() {
            lemma_walk_reaches_source(edges, a, b, p);
            lemma_walk_reaches_end(edges, a, b, p);
            if !is_walk(edges, p) {
                lemma_reaches_trans(edges, b, p[0], a);
            }
        }
    }
}

/// Relies on `daggy::Dag::new`: a graph with no nodes and no edges.
#[verifier::external_body]
pub(crate) fn dag_new() -> (d: RefGraph)
    ensures
        dag_size(d) == 0,
        dag_edges(d) == Seq::<(int, int)>::empty(),
{
    RefGraph { dag: daggy::Dag::new() }
}

/// Relies on `daggy::Dag::add_node`: the new node's index is the old number
/// of nodes; the edges stay as they were.
#[verifier::external_body]
pub(crate) fn dag_add_node(d: &mut RefGraph) -> (n: usize)
    ensures
        n == dag_size(*old(d)),
        dag_size(*final(d)) == dag_size(*old(d)) + 1,
        dag_edges(*final(d)) == dag_edges(*old(d)),
{
    d.dag.add_node(1).index()
}

/// Relies on `daggy::Dag::add_edge`: the edge `a -> b` is added unless a
/// path already leads from `b` to `a` (which includes `a == b`), in which
/// case the graph keeps its edges and the call reports the would-be cycle.
#[verifier::external_body]
pub(crate) fn dag_add_edge(d: &mut RefGraph, a: usize, b: usize) -> (added: bool)
    requires
        a < dag_size(*old(d)),
        b < dag_size(*old(d)),
    ensures
        dag_size(*final(d)) == dag_size(*old(d)),
        added == !reaches(dag_edges(*old(d)), b as int, a as int),
        added ==> dag_edges(*final(d)) == dag_edges(*old(d)).push((a as int, b as int)),
        !added ==> dag_edges(*final(d)) == dag_edges(*old(d)),
{
    d.dag.add_edge(daggy::NodeIndex::new(a), daggy::NodeIndex::new(b), 1).is_ok()
}

/// Relies on `petgraph::visit::Topo` over `daggy::Dag::graph`: on a graph
/// without cycles the traversal visits every node once, each before every
/// node that an edge leads to.
#[verifier::external_body]
pub(crate) fn topological_order(d: &RefGraph) -> (r: Vec<usize>)
    requires
        acyclic(dag_edges(*d)),
    ensures
        r@.len() == dag_size(*d),
        forall|i: int| 0 <= i < r@.len() ==> r@[i] < dag_size(*d),
        forall|i: int, j: int| 0 <= i < j < r@.len() ==> r@[i] != r@[j],
        forall|n: usize| n < dag_size(*d) ==> #[trigger] r@.contains(n),
        forall|k: int, i: int, j: int|
            0 <= k < dag_edges(*d).len() && 0 <= i < r@.len() && 0 <= j < r@.len()
                && r@[i] == dag_edges(*d)[k].0 && r@[j] == dag_edges(*d)[k].1 ==> i < j,
{
    let g = d.dag.graph();
    petgraph::visit::Walker::iter(petgraph::visit::Topo::new(g), g).map(|n| n.index()).collect()
}

} // verus!
