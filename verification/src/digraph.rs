use vstd::prelude::*;
use petgraph::algo::toposort;
use petgraph::graph::{EdgeIndex, NodeIndex};
use petgraph::visit::EdgeRef;
use petgraph::Direction::{Incoming, Outgoing};
use petgraph::{Directed, Graph};

verus! {

#[verifier::external_type_specification]
#[verifier::external_body]
#[verifier::reject_recursive_types(N)]
#[verifier::reject_recursive_types(E)]
#[verifier::reject_recursive_types(Ty)]
#[verifier::reject_recursive_types(Ix)]
pub struct ExGraph<N, E, Ty, Ix>(Graph<N, E, Ty, Ix>);

#[verifier::external_type_specification]
#[verifier::external_body]
pub struct ExDirected(Directed);

/// The node weights of a graph, by node index.
pub uninterp spec fn graph_nodes(g: Graph<String, i32>) -> Seq<Seq<char>>;

/// The edges of a graph, by edge index, each as `(source, target, weight)`.
pub uninterp spec fn graph_edges(g: Graph<String, i32>) -> Seq<(u32, u32, i32)>;

/// Every edge joins two existing nodes.
pub open spec fn edges_within(edges: Seq<(u32, u32, i32)>, n: nat) -> bool {
    forall|k: int| 0 <= k < edges.len() ==> (#[trigger] edges[k]).0 < n && edges[k].1 < n
}

/// `rank` increases along every edge.
pub open spec fn ranked_by(edges: Seq<(u32, u32, i32)>, rank: Seq<int>) -> bool {
    forall|k: int|
        0 <= k < edges.len() ==> rank[(#[trigger] edges[k]).0 as int] < rank[edges[k].1 as int]
}

/// The graph has no cycle: some ranking of its nodes increases along every edge.
pub open spec fn acyclic(edges: Seq<(u32, u32, i32)>) -> bool {
    exists|rank: Seq<int>| ranked_by(edges, rank)
}

/// `order` lists each of the `n` nodes once, every edge from an earlier to a
/// later entry.
pub open spec fn topological(order: Seq<u32>, edges: Seq<(u32, u32, i32)>, n: nat) -> bool {
    &&& order.len() == n
    &&& order.no_duplicates()
    &&& forall|j: int| 0 <= j < order.len() ==> (#[trigger] order[j]) < n
    &&& forall|v: u32| v < n ==> #[trigger] order.contains(v)
    &&& forall|k: int, i: int, j: int|
        #![trigger edges[k], order[i], order[j]]
        0 <= k < edges.len() && 0 <= i < order.len() && 0 <= j < order.len() && order[i]
            == edges[k].0 && order[j] == edges[k].1 ==> i < j
}

/// An empty directed graph (`Graph::new`).
#[verifier::external_body]
pub(crate) fn graph_new() -> (g: Graph<String, i32>)
    ensures
        graph_nodes(g) == Seq::<Seq<char>>::empty(),
        graph_edges(g) == Seq::<(u32, u32, i32)>::empty(),
{
    Graph::new()
}

/// Adds a node with the given weight (`Graph::add_node`); its index is the
/// former node count. The crate panics once the count reaches `u32::MAX`.
#[verifier::external_body]
pub(crate) fn graph_add_node(g: &mut Graph<String, i32>, weight: String) -> (r: u32)
    requires
        graph_nodes(*old(g)).len() < u32::MAX,
    ensures
        r == graph_nodes(*old(g)).len(),
        graph_nodes(*final(g)) == graph_nodes(*old(g)).push(weight@),
        graph_edges(*final(g)) == graph_edges(*old(g)),
{
    g.add_node(weight).index() as u32
}

/// Adds an edge from `a` to `b` (`Graph::add_edge`); its index is the former
/// edge count. The crate panics on a missing node and once the edge count
/// reaches `u32::MAX`.
#[verifier::external_body]
pub(crate) fn graph_add_edge(g: &mut Graph<String, i32>, a: u32, b: u32, weight: i32) -> (r: u32)
    requires
        a < graph_nodes(*old(g)).len(),
        b < graph_nodes(*old(g)).len(),
        graph_edges(*old(g)).len() < u32::MAX,
    ensures
        r == graph_edges(*old(g)).len(),
        graph_nodes(*final(g)) == graph_nodes(*old(g)),
        graph_edges(*final(g)) == graph_edges(*old(g)).push((a, b, weight)),
{
    g.add_edge(NodeIndex::new(a as usize), NodeIndex::new(b as usize), weight).index() as u32
}

/// Removes edge `e` (`Graph::remove_edge`), returning its weight; the last
/// edge takes over index `e`.
#[verifier::external_body]
pub(crate) fn graph_remove_edge(g: &mut Graph<String, i32>, e: u32) -> (r: Option<i32>)
    requires
        e < graph_edges(*old(g)).len(),
    ensures
        r == Some(graph_edges(*old(g))[e as int].2),
        graph_nodes(*final(g)) == graph_nodes(*old(g)),
        graph_edges(*final(g)) == graph_edges(*old(g)).update(
            e as int,
            graph_edges(*old(g)).last(),
        ).drop_last(),
{
    g.remove_edge(EdgeIndex::new(e as usize))
}

/// The weight of node `a`, cloned (`Graph::node_weight`); `None` when there
/// is no such node.
#[verifier::external_body]
pub(crate) fn graph_node_weight(g: &Graph<String, i32>, a: u32) -> (r: Option<String>)
    ensures
        a < graph_nodes(*g).len() ==> r is Some && r.unwrap()@ == graph_nodes(*g)[a as int],
        a >= graph_nodes(*g).len() ==> r is None,
{
    g.node_weight(NodeIndex::new(a as usize)).cloned()
}

/// The edges into `a` (`Graph::edges_directed` with `Incoming`), each as
/// `(edge index, source, weight)`: every edge into `a` once. The order of
/// the list is left unsaid.
#[verifier::external_body]
pub(crate) fn graph_incoming(g: &Graph<String, i32>, a: u32) -> (r: Vec<(u32, u32, i32)>)
    requires
        a < graph_nodes(*g).len(),
    ensures
        forall|i: int|
            0 <= i < r.len() ==> (#[trigger] r[i]).0 < graph_edges(*g).len() && graph_edges(
                *g,
            )[r[i].0 as int] == (r[i].1, a, r[i].2),
        forall|k: int|
            0 <= k < graph_edges(*g).len() && (#[trigger] graph_edges(*g)[k]).1 == a ==> exists|
                i: int,
            | 0 <= i < r.len() && (#[trigger] r[i]).0 == k,
        forall|i: int, j: int| 0 <= i < j < r.len() ==> (#[trigger] r[i]).0 != (#[trigger] r[j]).0,
{
    g.edges_directed(NodeIndex::new(a as usize), Incoming).map(
        |e| (e.id().index() as u32, e.source().index() as u32, *e.weight()),
    ).collect()
}

/// The edges out of `a` (`Graph::edges_directed` with `Outgoing`), each as
/// `(edge index, target, weight)`: every edge out of `a` once. The order of
/// the list is left unsaid.
#[verifier::external_body]
pub(crate) fn graph_outgoing(g: &Graph<String, i32>, a: u32) -> (r: Vec<(u32, u32, i32)>)
    requires
        a < graph_nodes(*g).len(),
    ensures
        forall|i: int|
            0 <= i < r.len() ==> (#[trigger] r[i]).0 < graph_edges(*g).len() && graph_edges(
                *g,
            )[r[i].0 as int] == (a, r[i].1, r[i].2),
        forall|k: int|
            0 <= k < graph_edges(*g).len() && (#[trigger] graph_edges(*g)[k]).0 == a ==> exists|
                i: int,
            | 0 <= i < r.len() && (#[trigger] r[i]).0 == k,
        forall|i: int, j: int| 0 <= i < j < r.len() ==> (#[trigger] r[i]).0 != (#[trigger] r[j]).0,
{
    g.edges_directed(NodeIndex::new(a as usize), Outgoing).map(
        |e| (e.id().index() as u32, e.target().index() as u32, *e.weight()),
    ).collect()
}

/// A topological order of the nodes (`petgraph::algo::toposort`): every
/// node once, each before the targets of its edges. The crate returns an
/// error exactly on a graph with a cycle, here `None`.
#[verifier::external_body]
pub(crate) fn graph_toposort(g: &Graph<String, i32>) -> (r: Option<Vec<u32>>)
    requires
        edges_within(graph_edges(*g), graph_nodes(*g).len()),
    ensures
        r matches Some(order) ==> topological(order@, graph_edges(*g), graph_nodes(*g).len()),
        acyclic(graph_edges(*g)) ==> r is Some,
{
    match toposort(g, None) {
        Ok(order) => Some(order.into_iter().map(|n| n.index() as u32).collect()),
        Err(_) => None,
    }
}

/// Appending an edge that is not yet there keeps the edges distinct and
/// adds exactly that edge.
pub proof fn lemma_push_edge(s: Seq<(u32, u32, i32)>, x: (u32, u32, i32))
    requires
        s.no_duplicates(),
        !s.contains(x),
    ensures
        s.push(x).no_duplicates(),
        forall|y: (u32, u32, i32)| #[trigger] s.push(x).contains(y) <==> s.contains(y) || y == x,
{
    let t = s.push(x);
    assert forall|i: int, j: int| 0 <= i < t.len() && 0 <= j < t.len() && i != j implies t[i]
        != t[j] by {
        if i < s.len() && j < s.len() {
            assert(t[i] == s[i] && t[j] == s[j]);
        } else if i < s.len() {
            assert(t[i] == s[i]);
        } else {
            assert(t[j] == s[j]);
        }
    }
    assert forall|y: (u32, u32, i32)| #[trigger] t.contains(y) <==> s.contains(y) || y == x by {
        if t.contains(y) {
            let i = choose|i: int| 0 <= i < t.len() && t[i] == y;
            if i < s.len() {
                assert(s[i] == y);
            }
        }
        if s.contains(y) {
            let i = choose|i: int| 0 <= i < s.len() && s[i] == y;
            assert(t[i] == y);
        }
        if y == x {
            assert(t[s.len() as int] == y);
        }
    }
}

/// Removing edge `e` the way `graph_remove_edge` does keeps the edges
/// distinct and takes out exactly that edge.
pub proof fn lemma_swap_remove_edge(s: Seq<(u32, u32, i32)>, e: int)
    requires
        s.no_duplicates(),
        0 <= e < s.len(),
    ensures
        s.update(e, s.last()).drop_last().no_duplicates(),
        forall|y: (u32, u32, i32)| #[trigger]
            s.update(e, s.last()).drop_last().contains(y) <==> s.contains(y) && y != s[e],
        s.update(e, s.last()).drop_last().len() == s.len() - 1,
{
    let t = s.update(e, s.last()).drop_last();
    let last = s.len() - 1;
    assert forall|i: int| 0 <= i < t.len() implies #[trigger] t[i] == (if i == e {
        s[last]
    } else {
        s[i]
    }) by {}
    assert forall|i: int, j: int| 0 <= i < t.len() && 0 <= j < t.len() && i != j implies t[i]
        != t[j] by {
        let si = if i == e {
            last
        } else {
            i
        };
        let sj = if j == e {
            last
        } else {
            j
        };
        assert(t[i] == s[si] && t[j] == s[sj]);
    }
    assert forall|y: (u32, u32, i32)| #[trigger] t.contains(y) <==> s.contains(y) && y != s[e] by {
        if t.contains(y) {
            let i = choose|i: int| 0 <= i < t.len() && t[i] == y;
            let si = if i == e {
                last
            } else {
                i
            };
            assert(s[si] == y);
            assert(si != e);
        }
        if s.contains(y) && y != s[e] {
            let i = choose|i: int| 0 <= i < s.len() && s[i] == y;
            assert(i != e);
            if i == last {
                assert(t[e] == y);
            } else {
                assert(t[i] == y);
            }
        }
    }
}

} // verus!
