use vstd::prelude::*;
use biodivine_lib_bdd::{Bdd, BddVariableSet};
use petgraph::Graph;
use crate::bdd::{
    bdd_nodes, bdd_wf, bdd_size, bdd_var_of, bdd_low_link_of, bdd_high_link_of, num_vars, nodes_wf,
    has_parent, eval_node, strings_view, var_set_names, var_set_variable_names, bdd_eval,
};
use crate::graph::{
    Node, CopyNode, OpNode, UpdownBDD, step_level, run_levels, initial_state, levels_of, width_of,
    updown_wf, updown_eval,
};
use crate::digraph::{
    ranked_by, acyclic, edges_within, graph_edges, graph_incoming, graph_outgoing, graph_nodes, graph_toposort,
    topological, graph_new, graph_add_node, graph_add_edge, graph_remove_edge, graph_node_weight,
    lemma_push_edge, lemma_swap_remove_edge,
};

verus! {

/// `lev` gives each of the `n` nodes the length of a longest path into it:
/// 0 for a node without an edge in, else one more than the highest level
/// among the sources of its edges in.
pub open spec fn longest_path_levels(edges: Seq<(u32, u32, i32)>, lev: Seq<usize>, n: nat) -> bool {
    &&& lev.len() == n
    &&& forall|k: int|
        0 <= k < edges.len() ==> lev[(#[trigger] edges[k]).0 as int] + 1 <= lev[edges[k].1 as int]
    &&& forall|v: int|
        0 <= v < n && #[trigger] lev[v] != 0 ==> exists|k: int|
            0 <= k < edges.len() && (#[trigger] edges[k]).1 == v && lev[edges[k].0 as int] + 1
                == lev[v]
    &&& forall|v: int| 0 <= v < n ==> #[trigger] lev[v] < n
}

/// The level of every node of an acyclic graph: the length of a longest path
/// into it, computed along a topological order.
pub fn levels_for_graph(graph: &Graph<String, i32>) -> (r: Vec<usize>)
    requires
        edges_within(graph_edges(*graph), graph_nodes(*graph).len()),
        acyclic(graph_edges(*graph)),
        graph_nodes(*graph).len() <= u32::MAX,
    ensures
        longest_path_levels(graph_edges(*graph), r@, graph_nodes(*graph).len()),
{
    let ghost edges = graph_edges(*graph);
    let ghost n = graph_nodes(*graph).len();
    let top_sort = graph_toposort(graph);
    let top_sort = top_sort.unwrap();
    let ghost ord = top_sort@;
    let len = top_sort.len();
    let mut level_map: Vec<usize> = Vec::new();
    let mut i: usize = 0;
    while i < len
        invariant
            i <= len,
            len == n,
            level_map@.len() == i,
            forall|j: int| 0 <= j < i ==> #[trigger] level_map@[j] == 0,
        decreases len - i,
    {
        level_map.push(0);
        i = i + 1;
    }
    let mut i: usize = 0;
    while i < len
        invariant
            i <= len,
            len == n,
            edges == graph_edges(*graph),
            n == graph_nodes(*graph).len(),
            n <= u32::MAX,
            edges_within(edges, n),
            ord == top_sort@,
            topological(ord, edges, n),
            level_map@.len() == n,
            forall|j: int| i <= j < n ==> #[trigger] level_map@[ord[j] as int] == 0,
            forall|j: int| 0 <= j < i ==> #[trigger] level_map@[ord[j] as int] <= j,
            forall|j: int, k: int|
                #![trigger ord[j], edges[k]]
                0 <= j < i && 0 <= k < edges.len() && edges[k].1 == ord[j] ==> level_map@[edges[k].0 as int]
                    + 1 <= level_map@[ord[j] as int],
            forall|j: int|
                0 <= j < i && #[trigger] level_map@[ord[j] as int] != 0 ==> exists|k: int|
                    0 <= k < edges.len() && (#[trigger] edges[k]).1 == ord[j] && level_map@[edges[k].0 as int] + 1
                        == level_map@[ord[j] as int],
        decreases len - i,
    {
        let v = top_sort[i];
        let incoming = graph_incoming(graph, v);
        let mut level: usize = 0;
        let mut e: usize = 0;
        while e < incoming.len()
            invariant
                e <= incoming@.len(),
                i < len,
                len == n,
                v == ord[i as int],
                edges == graph_edges(*graph),
                edges_within(edges, n),
                topological(ord, edges, n),
                level_map@.len() == n,
                forall|j: int| 0 <= j < i ==> #[trigger] level_map@[ord[j] as int] <= j,
                forall|q: int|
                    0 <= q < incoming@.len() ==> (#[trigger] incoming@[q]).0 < edges.len()
                        && edges[incoming@[q].0 as int] == (incoming@[q].1, v, incoming@[q].2),
                level <= i,
                forall|q: int| 0 <= q < e ==> level_map@[(#[trigger] incoming@[q]).1 as int] + 1 <= level,
                level == 0 || exists|q: int|
                    0 <= q < e && level_map@[(#[trigger] incoming@[q]).1 as int] + 1 == level,
            decreases incoming@.len() - e,
        {
            let src = incoming[e].1;
            proof {
                let k = incoming@[e as int].0 as int;
                assert(edges[k] == (src, v, incoming@[e as int].2));
                assert(src < n);
                assert(ord.contains(src));
                let j = choose|j: int| 0 <= j < ord.len() && ord[j] == src;
                assert(j < i);
                assert(level_map@[src as int] <= j);
            }
            let cand = level_map[src as usize] + 1;
            if cand > level {
                level = cand;
            }
            e = e + 1;
        }
        proof {
            assert forall|k: int|
                #![trigger edges[k]]
                0 <= k < edges.len() && edges[k].1 == v implies level_map@[edges[k].0 as int] + 1
                <= level by {
                let q = choose|q: int| 0 <= q < incoming@.len() && (#[trigger] incoming@[q]).0 == k;
                assert(level_map@[(incoming@[q]).1 as int] + 1 <= level);
            }
            assert forall|j: int, k: int|
                #![trigger ord[j], edges[k]]
                0 <= j < i && 0 <= k < edges.len() && edges[k].1 == ord[j] implies edges[k].0 != v by {
                assert(ord.contains(edges[k].0));
                let j2 = choose|j2: int| 0 <= j2 < ord.len() && ord[j2] == edges[k].0;
                assert(j2 < j);
                assert(ord[i as int] != ord[j2]);
            }
        }
        let ghost before = level_map@;
        level_map.set(v as usize, level);
        proof {
            assert forall|j: int| 0 <= j < n && j != i implies ord[j] != v by {}
            assert forall|j: int|
                0 <= j < i + 1 && #[trigger] level_map@[ord[j] as int] != 0 implies exists|k: int|
                    0 <= k < edges.len() && (#[trigger] edges[k]).1 == ord[j] && level_map@[edges[k].0 as int] + 1
                        == level_map@[ord[j] as int] by {
                if j < i {
                    let k = choose|k: int|
                        0 <= k < edges.len() && (#[trigger] edges[k]).1 == ord[j] && before[edges[k].0 as int] + 1
                            == before[ord[j] as int];
                    assert(edges[k].0 != v);
                } else {
                    let q = choose|q: int|
                        0 <= q < e && before[(#[trigger] incoming@[q]).1 as int] + 1 == level;
                    let k = incoming@[q].0 as int;
                    assert(edges[k].1 == ord[j]);
                    assert(edges[k].0 != v) by {
                        assert(ord.contains(edges[k].0));
                        let j2 = choose|j2: int| 0 <= j2 < ord.len() && ord[j2] == edges[k].0;
                        assert(j2 < i);
                    }
                }
            }
        }
        i = i + 1;
    }
    proof {
        assert forall|v: int| 0 <= v < n implies #[trigger] level_map@[v] < n by {
            assert(ord.contains(v as u32));
            let j = choose|j: int| 0 <= j < ord.len() && ord[j] == v as u32;
            assert(level_map@[ord[j] as int] <= j);
        }
        assert forall|k: int|
            0 <= k < edges.len() implies level_map@[(#[trigger] edges[k]).0 as int] + 1 <= level_map@[edges[k].1 as int] by {
            assert(ord.contains(edges[k].1));
            let j = choose|j: int| 0 <= j < ord.len() && ord[j] == edges[k].1;
            assert(level_map@[edges[k].0 as int] + 1 <= level_map@[ord[j] as int]);
        }
        assert forall|v: int|
            0 <= v < n && #[trigger] level_map@[v] != 0 implies exists|k: int|
                0 <= k < edges.len() && (#[trigger] edges[k]).1 == v && level_map@[edges[k].0 as int] + 1
                    == level_map@[v] by {
            assert(ord.contains(v as u32));
            let j = choose|j: int| 0 <= j < ord.len() && ord[j] == v as u32;
            assert(level_map@[ord[j] as int] != 0);
        }
    }
    level_map
}

/// The child that the edge of weight `w` into decision node `t` comes from:
/// the low link for weight 0, the high link for weight 1.
pub open spec fn child_of(n: Seq<(u16, u32, u32)>, t: int, w: int) -> int {
    if w == 0 {
        n[t].1 as int
    } else {
        n[t].2 as int
    }
}

/// `y` has the shape of an edge into decision node `y.1`, of weight 0 (from
/// the low link) or 1 (from the high link).
pub open spec fn data_shape(n: Seq<(u16, u32, u32)>, y: (u32, u32, i32)) -> bool {
    2 <= y.1 < n.len() && (y.2 == 0 || y.2 == 1)
}

/// `y` is an edge of the inverted diagram: from a child to its parent.
pub open spec fn bdd_edge(n: Seq<(u16, u32, u32)>, y: (u32, u32, i32)) -> bool {
    data_shape(n, y) && y.0 == child_of(n, y.1 as int, y.2 as int)
}

/// The weight of graph node `p` of the inverted diagram: the terminal's
/// value or the name of the node's variable.
pub open spec fn node_tag(n: Seq<(u16, u32, u32)>, names: Seq<Seq<char>>, p: int) -> Seq<char> {
    if p == 0 {
        seq!['0']
    } else if p == 1 {
        seq!['1']
    } else {
        names[n[p].0 as int]
    }
}

/// The diagram inverted: node `p` of the graph is node `p` of the diagram
/// (the two terminals included), and each decision node gets an edge from
/// its high link of weight 1 and one from its low link of weight 0.
fn build_inverse_graph(bdd: &Bdd, var_names: &Vec<String>) -> (g: Graph<String, i32>)
    requires
        bdd_wf(*bdd),
        bdd_nodes(*bdd).len() >= 2,
        2 * bdd_nodes(*bdd).len() < u32::MAX,
        var_names@.len() == num_vars(*bdd),
    ensures
        graph_nodes(g).len() == bdd_nodes(*bdd).len(),
        forall|p: int|
            0 <= p < bdd_nodes(*bdd).len() ==> #[trigger] graph_nodes(g)[p] == node_tag(
                bdd_nodes(*bdd),
                var_names@.map_values(|s: String| s@),
                p,
            ),
        graph_edges(g).no_duplicates(),
        graph_edges(g).len() <= 2 * bdd_nodes(*bdd).len(),
        forall|y: (u32, u32, i32)| #[trigger]
            graph_edges(g).contains(y) <==> bdd_edge(bdd_nodes(*bdd), y),
{
    let ghost n = bdd_nodes(*bdd);
    let ghost names = var_names@.map_values(|s: String| s@);
    let size = bdd_size(bdd);
    let mut graph = graph_new();
    let zero = "0".to_owned();
    let one = "1".to_owned();
    proof {
        reveal_strlit("0");
        reveal_strlit("1");
    }
    graph_add_node(&mut graph, zero);
    graph_add_node(&mut graph, one);
    let mut p: usize = 2;
    while p < size
        invariant
            2 <= p <= size,
            size == n.len(),
            n == bdd_nodes(*bdd),
            bdd_wf(*bdd),
            2 * n.len() < u32::MAX,
            names == var_names@.map_values(|s: String| s@),
            var_names@.len() == num_vars(*bdd),
            graph_nodes(graph).len() == p,
            forall|q: int| 0 <= q < p ==> #[trigger] graph_nodes(graph)[q] == node_tag(n, names, q),
            graph_edges(graph) == Seq::<(u32, u32, i32)>::empty(),
        decreases size - p,
    {
        let var = bdd_var_of(bdd, p);
        assert(n[p as int].0 < n[0].0);
        let name = var_names[var].clone();
        graph_add_node(&mut graph, name);
        p = p + 1;
    }
    let mut p: usize = 2;
    while p < size
        invariant
            2 <= p <= size,
            size == n.len(),
            n == bdd_nodes(*bdd),
            bdd_wf(*bdd),
            2 * n.len() < u32::MAX,
            graph_nodes(graph).len() == n.len(),
            forall|q: int| 0 <= q < n.len() ==> #[trigger] graph_nodes(graph)[q] == node_tag(n, names, q),
            graph_edges(graph).no_duplicates(),
            graph_edges(graph).len() == 2 * (p - 2),
            forall|y: (u32, u32, i32)| #[trigger]
                graph_edges(graph).contains(y) <==> bdd_edge(n, y) && y.1 < p,
        decreases size - p,
    {
        let high = bdd_high_link_of(bdd, p);
        let low = bdd_low_link_of(bdd, p);
        let ghost yh = (high as u32, p as u32, 1i32);
        let ghost yl = (low as u32, p as u32, 0i32);
        proof {
            assert(!graph_edges(graph).contains(yh));
            lemma_push_edge(graph_edges(graph), yh);
        }
        graph_add_edge(&mut graph, high as u32, p as u32, 1);
        proof {
            assert(!graph_edges(graph).contains(yl));
            lemma_push_edge(graph_edges(graph), yl);
        }
        graph_add_edge(&mut graph, low as u32, p as u32, 0);
        proof {
            assert forall|y: (u32, u32, i32)| #[trigger]
                graph_edges(graph).contains(y) <==> bdd_edge(n, y) && y.1 < p + 1 by {
                if bdd_edge(n, y) && y.1 == p {
                    if y.2 == 0 {
                        assert(y == yl);
                    } else {
                        assert(y == yh);
                    }
                }
            }
        }
        p = p + 1;
    }
    graph
}

/// `y`'s source stands for the child that `y` comes from and lies on the
/// level just below `y`'s target.
pub open spec fn levelled_source(
    n: Seq<(u16, u32, u32)>,
    lev: Seq<usize>,
    orig: Seq<int>,
    glev: Seq<usize>,
    y: (u32, u32, i32),
) -> bool {
    &&& y.0 < orig.len()
    &&& orig[y.0 as int] == child_of(n, y.1 as int, y.2 as int)
    &&& glev[y.0 as int] + 1 == lev[y.1 as int]
}

/// `y` joins two consecutive nodes of one chain: its target is a copy and
/// its source stands for the same diagram node one level lower.
pub open spec fn copy_edge(nn: int, orig: Seq<int>, glev: Seq<usize>, y: (u32, u32, i32)) -> bool {
    &&& y.2 == 2
    &&& nn <= y.1 < orig.len()
    &&& y.0 < orig.len()
    &&& orig[y.0 as int] == orig[y.1 as int]
    &&& glev[y.0 as int] + 1 == glev[y.1 as int]
}

/// The edges of the graph while it is levelised node by node: the edges out
/// of the diagram nodes before `v` start from the chain node one level below
/// their targets, those out of later nodes are untouched, and those out of
/// `v` are either untouched or, once `removed`, the ones in `done`; every
/// copy is joined to the one before it on its chain.
pub open spec fn edge_model(
    n: Seq<(u16, u32, u32)>,
    lev: Seq<usize>,
    orig: Seq<int>,
    glev: Seq<usize>,
    v: int,
    done: Seq<(u32, u32, i32)>,
    removed: bool,
    y: (u32, u32, i32),
) -> bool {
    ||| data_shape(n, y) && {
        let c = child_of(n, y.1 as int, y.2 as int);
        if c < v {
            levelled_source(n, lev, orig, glev, y)
        } else if c > v || !removed {
            y.0 == c
        } else {
            levelled_source(n, lev, orig, glev, y) && done.contains(y)
        }
    }
    ||| copy_edge(n.len() as int, orig, glev, y)
}

/// The levels of the inverted diagram: every edge climbs at least one level
/// and every level is below the node count.
pub open spec fn bdd_levels(n: Seq<(u16, u32, u32)>, lev: Seq<usize>) -> bool {
    &&& lev.len() == n.len()
    &&& n.len() >= 2 ==> lev[0] == 0 && lev[1] == 0
    &&& forall|t: int, w: int|
        2 <= t < n.len() && (w == 0 || w == 1) ==> lev[#[trigger] child_of(n, t, w)] + 1 <= lev[t]
    &&& forall|u: int| 0 <= u < n.len() ==> #[trigger] lev[u] < n.len()
}

/// Decision node `t` of `n` has `u` as a child.
pub open spec fn is_parent(n: Seq<(u16, u32, u32)>, t: int, u: int) -> bool {
    2 <= t < n.len() && (child_of(n, t, 0) == u || child_of(n, t, 1) == u)
}

/// The highest level among node `u` and its parents below `k`.
pub open spec fn top_upto(n: Seq<(u16, u32, u32)>, lev: Seq<usize>, u: int, k: int) -> int
    decreases k,
{
    if k <= 0 {
        lev[u] as int
    } else {
        let prev = top_upto(n, lev, u, k - 1);
        if is_parent(n, k - 1, u) && lev[k - 1] > prev {
            lev[k - 1] as int
        } else {
            prev
        }
    }
}

/// The number of copies that levelising gives node `u`: one per level
/// strictly between its own and that of its highest parent.
pub open spec fn copy_count(n: Seq<(u16, u32, u32)>, lev: Seq<usize>, u: int) -> nat {
    let t = top_upto(n, lev, u, n.len() as int);
    if t > lev[u] + 1 {
        (t - lev[u] - 1) as nat
    } else {
        0
    }
}

/// The number of copies of the nodes below `k`.
pub open spec fn copies_upto(n: Seq<(u16, u32, u32)>, lev: Seq<usize>, k: int) -> nat
    decreases k,
{
    if k <= 0 {
        0
    } else {
        copies_upto(n, lev, k - 1) + copy_count(n, lev, k - 1)
    }
}

/// The decision depth of every node of `n`: the levels of its inverted graph.
pub open spec fn depths(n: Seq<(u16, u32, u32)>) -> Seq<usize> {
    Seq::new(n.len(), |i: int| decision_depth(n, i) as usize)
}

/// The number of nodes of the levelised graph of `n`: its own nodes and the
/// copies.
pub open spec fn levelled_node_count(n: Seq<(u16, u32, u32)>) -> nat {
    n.len() + copies_upto(n, depths(n), n.len() as int)
}

/// Whether the levelised graph of `bdd` fits `u32` indices: its nodes
/// (the diagram's and the copies) together with one more per diagram node,
/// which bounds its edges, stay below `u32::MAX`.
pub fn levelled_fits(bdd: &Bdd) -> (r: bool)
    requires
        bdd_wf(*bdd),
    ensures
        r == (levelled_node_count(bdd_nodes(*bdd)) + bdd_nodes(*bdd).len() < u32::MAX),
{
    let ghost n = bdd_nodes(*bdd);
    let ghost lev = depths(n);
    let size = bdd_size(bdd);
    // the decision depth of every node
    let mut depth: Vec<usize> = Vec::new();
    let mut i: usize = 0;
    while i < size
        invariant
            i <= size,
            size == n.len(),
            n == bdd_nodes(*bdd),
            bdd_wf(*bdd),
            depth@.len() == i,
            forall|j: int| 0 <= j < i ==> #[trigger] depth@[j] == decision_depth(n, j) && depth@[j] <= j,
        decreases size - i,
    {
        if i < 2 {
            depth.push(0);
        } else {
            let lo = bdd_low_link_of(bdd, i);
            let hi = bdd_high_link_of(bdd, i);
            let dl = depth[lo];
            let dh = depth[hi];
            let d = if dl >= dh { dl } else { dh };
            depth.push(d + 1);
        }
        i = i + 1;
    }
    proof {
        assert forall|j: int| 0 <= j < n.len() implies #[trigger] lev[j] == depth@[j] by {}
    }
    // the highest level among each node and its parents
    let mut top: Vec<usize> = Vec::new();
    let mut i: usize = 0;
    while i < size
        invariant
            i <= size,
            size == n.len(),
            depth@.len() == size,
            top@.len() == i,
            forall|j: int| 0 <= j < i ==> #[trigger] top@[j] == depth@[j],
        decreases size - i,
    {
        top.push(depth[i]);
        i = i + 1;
    }
    let mut t: usize = if size < 2 { size } else { 2 };
    proof {
        assert forall|u: int| 0 <= u < n.len() implies #[trigger] top@[u] == top_upto(n, lev, u, t as int) by {
            assert(!is_parent(n, 0, u) && !is_parent(n, 1, u));
            assert(top_upto(n, lev, u, 1) == top_upto(n, lev, u, 0));
        }
    }
    while t < size
        invariant
            t <= size,
            size >= 2 ==> t >= 2,
            size < 2 ==> t == size,
            forall|j: int| 0 <= j < size ==> #[trigger] depth@[j] <= j,
            size == n.len(),
            n == bdd_nodes(*bdd),
            bdd_wf(*bdd),
            lev == depths(n),
            depth@.len() == size,
            forall|j: int| 0 <= j < size ==> #[trigger] lev[j] == depth@[j],
            top@.len() == size,
            forall|u: int| 0 <= u < size ==> #[trigger] top@[u] == top_upto(n, lev, u, t as int),
        decreases size - t,
    {
        let lo = bdd_low_link_of(bdd, t);
        let hi = bdd_high_link_of(bdd, t);
        let d = depth[t];
        let ghost before = top@;
        if d > top[lo] {
            top.set(lo, d);
        }
        if d > top[hi] {
            top.set(hi, d);
        }
        proof {
            assert(nodes_wf(n));
            assert(2 <= t < n.len());
            assert(n[t as int].1 != n[t as int].2);
            assert(lo != hi);
            assert forall|u: int| 0 <= u < size implies #[trigger] top@[u] == top_upto(n, lev, u, t + 1) by {
                if u == lo || u == hi {
                    assert(is_parent(n, t as int, u));
                } else {
                    assert(!is_parent(n, t as int, u));
                }
            }
        }
        t = t + 1;
    }
    // the copies, counted while the total stays small
    proof {
        assert forall|j: int| 0 <= j < size implies #[trigger] top@[j] < size by {
            lemma_top_upto(n, lev, j, size as int);
            if top_upto(n, lev, j, size as int) != lev[j] {
                let p = choose|p: int| 0 <= p < size && #[trigger] is_parent(n, p, j) && top_upto(n, lev, j, size as int) == lev[p];
                assert(lev[p] == depth@[p]);
            } else {
                assert(lev[j] == depth@[j]);
            }
        }
    }
    let limit: u64 = 4294967295;
    if 2 * (size as u64) >= limit {
        return false;
    }
    let mut sum: u64 = 0;
    let mut u: usize = 0;
    while u < size
        invariant
            u <= size,
            size == n.len(),
            n == bdd_nodes(*bdd),
            n.len() <= u32::MAX,
            lev == depths(n),
            depth@.len() == size,
            top@.len() == size,
            forall|j: int| 0 <= j < size ==> #[trigger] lev[j] == depth@[j],
            forall|j: int| 0 <= j < size ==> #[trigger] top@[j] == top_upto(n, lev, j, size as int),
            sum == copies_upto(n, lev, u as int),
            forall|j: int| 0 <= j < size ==> #[trigger] depth@[j] <= j,
            forall|j: int| 0 <= j < size ==> #[trigger] top@[j] < size,
            2 * size + sum < limit,
            limit == u32::MAX,
        decreases size - u,
    {
        let c: u64 = if top[u] > depth[u] + 1 { (top[u] - depth[u] - 1) as u64 } else { 0 };
        proof {
            assert(c == copy_count(n, lev, u as int));
        }
        if 2 * (size as u64) + sum + c >= limit {
            proof {
                assert(copies_upto(n, lev, u + 1) == sum + c);
                lemma_copies_monotone(n, lev, u + 1, size as int);
                assert(levelled_node_count(n) == n.len() + copies_upto(n, lev, size as int));
                assert(levelled_node_count(n) + n.len() >= u32::MAX);
            }
            return false;
        }
        sum = sum + c;
        u = u + 1;
    }
    true
}

/// A decision node lies no deeper than its index.
proof fn lemma_depth_below_index(n: Seq<(u16, u32, u32)>, i: int)
    requires
        nodes_wf(n),
        0 <= i < n.len(),
    ensures
        decision_depth(n, i) <= i,
    decreases i,
{
    if i >= 2 {
        lemma_depth_below_index(n, n[i].1 as int);
        lemma_depth_below_index(n, n[i].2 as int);
    }
}

/// The levelised graph of a well-formed diagram of `s` nodes has at most
/// `s + s * s` nodes.
pub proof fn lemma_levelled_count_bound(n: Seq<(u16, u32, u32)>)
    requires
        nodes_wf(n),
    ensures
        levelled_node_count(n) <= n.len() + n.len() * n.len(),
{
    let lev = depths(n);
    let nn = n.len() as int;
    assert forall|u: int| 0 <= u < nn implies #[trigger] lev[u] < nn by {
        lemma_depth_below_index(n, u);
    }
    assert forall|u: int| 0 <= u < nn implies #[trigger] copy_count(n, lev, u) <= nn by {
        lemma_top_upto(n, lev, u, nn);
        if top_upto(n, lev, u, nn) != lev[u] {
            let p = choose|p: int| 0 <= p < nn && #[trigger] is_parent(n, p, u) && top_upto(n, lev, u, nn) == lev[p];
        }
    }
    lemma_copies_bound(n, lev, nn, nn);
    assert(copies_upto(n, lev, nn) <= nn * nn);
}

proof fn lemma_copies_bound(n: Seq<(u16, u32, u32)>, lev: Seq<usize>, k: int, m: int)
    requires
        0 <= k <= n.len(),
        0 <= m,
        forall|u: int| 0 <= u < n.len() ==> #[trigger] copy_count(n, lev, u) <= m,
    ensures
        copies_upto(n, lev, k) <= k * m,
    decreases k,
{
    if k > 0 {
        lemma_copies_bound(n, lev, k - 1, m);
        assert(copy_count(n, lev, k - 1) <= m);
        assert((k - 1) * m + m == k * m) by (nonlinear_arith);
    }
}

/// Counting copies over more nodes gives no fewer.
proof fn lemma_copies_monotone(n: Seq<(u16, u32, u32)>, lev: Seq<usize>, j: int, k: int)
    requires
        0 <= j <= k,
    ensures
        copies_upto(n, lev, j) <= copies_upto(n, lev, k),
    decreases k - j,
{
    if j < k {
        lemma_copies_monotone(n, lev, j, k - 1);
    }
}

/// The highest level among `u` and its parents below `k` bounds each of
/// them and is one of them.
proof fn lemma_top_upto(n: Seq<(u16, u32, u32)>, lev: Seq<usize>, u: int, k: int)
    requires
        0 <= k,
    ensures
        lev[u] <= top_upto(n, lev, u, k),
        forall|t: int| 0 <= t < k && #[trigger] is_parent(n, t, u) ==> lev[t] <= top_upto(n, lev, u, k),
        top_upto(n, lev, u, k) == lev[u] || exists|t: int|
            0 <= t < k && #[trigger] is_parent(n, t, u) && top_upto(n, lev, u, k) == lev[t],
    decreases k,
{
    if k > 0 {
        lemma_top_upto(n, lev, u, k - 1);
        if !(top_upto(n, lev, u, k) == lev[u]) {
            if top_upto(n, lev, u, k) == top_upto(n, lev, u, k - 1) {
                let t = choose|t: int| 0 <= t < k - 1 && #[trigger] is_parent(n, t, u) && top_upto(n, lev, u, k - 1) == lev[t];
                assert(is_parent(n, t, u));
            } else {
                assert(is_parent(n, k - 1, u));
            }
        }
    }
}

/// The graph node of the copy of diagram node `u` on level `l`.
pub open spec fn copy_index(base: Seq<int>, lev: Seq<usize>, u: int, l: int) -> int {
    base[u] + l - lev[u] - 1
}

/// The state of the graph while it is levelised: node `s` stands for
/// diagram node `orig[s]` on level `glev[s]`; the diagram nodes keep their
/// indices, the copies of diagram node `u` are numbered from `base[u]` on,
/// one per level strictly between `lev[u]` and `tops[u]`, the highest level
/// among `u`'s parents; no two nodes stand for the same diagram node on the
/// same level; the edges are those of `edge_model`, each once.
pub open spec fn level_state(
    nodes: Seq<Seq<char>>,
    edges: Seq<(u32, u32, i32)>,
    n: Seq<(u16, u32, u32)>,
    names: Seq<Seq<char>>,
    lev: Seq<usize>,
    orig: Seq<int>,
    glev: Seq<usize>,
    tops: Seq<int>,
    base: Seq<int>,
    v: int,
    done: Seq<(u32, u32, i32)>,
    removed: bool,
) -> bool {
    &&& nodes.len() == orig.len()
    &&& glev.len() == orig.len()
    &&& n.len() <= orig.len()
    &&& tops.len() == n.len()
    &&& base.len() == n.len()
    &&& forall|s: int| 0 <= s < n.len() ==> #[trigger] orig[s] == s && glev[s] == lev[s]
    &&& forall|s: int| 2 <= s < n.len() ==> #[trigger] nodes[s] == names[n[s].0 as int]
    &&& forall|s: int| n.len() <= s < orig.len() ==> #[trigger] nodes[s] == nodes[orig[s]]
    &&& forall|s: int|
        n.len() <= s < orig.len() ==> 0 <= #[trigger] orig[s] < n.len() && (orig[s] < v || (removed
            && orig[s] == v)) && lev[orig[s]] < glev[s] && glev[s] < tops[orig[s]]
    &&& forall|s1: int, s2: int|
        0 <= s1 < orig.len() && 0 <= s2 < orig.len() && s1 != s2 && #[trigger] orig[s1]
            == #[trigger] orig[s2] ==> glev[s1] != glev[s2]
    &&& forall|u: int, l: int|
        0 <= u < v && lev[u] < l < tops[u] ==> {
            let s = #[trigger] copy_index(base, lev, u, l);
            &&& n.len() <= s < orig.len()
            &&& orig[s] == u
            &&& glev[s] == l
        }
    &&& forall|t: int, w: int|
        2 <= t < n.len() && (w == 0 || w == 1) && #[trigger] child_of(n, t, w) < v ==> lev[t]
            <= tops[child_of(n, t, w)]
    &&& forall|u: int| 0 <= u < v ==> lev[u] <= #[trigger] tops[u] < n.len()
    &&& edges.no_duplicates()
    &&& forall|y: (u32, u32, i32)| #[trigger]
        edges.contains(y) <==> edge_model(n, lev, orig, glev, v, done, removed, y)
}

/// An injective map from `len` values into `bound` values needs
/// `len <= bound`.
pub proof fn lemma_pigeonhole(f: spec_fn(int) -> int, len: int, bound: int)
    requires
        0 <= len,
        0 <= bound,
        forall|i: int| 0 <= i < len ==> 0 <= #[trigger] f(i) < bound,
        forall|i: int, j: int| 0 <= i < len && 0 <= j < len && i != j ==> #[trigger] f(i) != #[trigger] f(j),
    ensures
        len <= bound,
    decreases len,
{
    if len > 0 {
        let m = f(len - 1);
        let g = |i: int| if f(i) == bound - 1 { m } else { f(i) };
        assert forall|i: int| 0 <= i < len - 1 implies 0 <= #[trigger] g(i) < bound - 1 by {
            assert(f(i) != f(len - 1));
        }
        assert forall|i: int, j: int|
            0 <= i < len - 1 && 0 <= j < len - 1 && i != j implies #[trigger] g(i) != #[trigger] g(j) by {
            assert(f(i) != f(j));
            assert(f(i) != f(len - 1));
            assert(f(j) != f(len - 1));
        }
        assert(0 <= f(0) < bound);
        lemma_pigeonhole(g, len - 1, bound - 1);
    }
}

/// An injective map from `len` values into `len` values reaches each of
/// them.
pub proof fn lemma_injective_onto(f: spec_fn(int) -> int, len: int, q: int)
    requires
        0 <= q < len,
        forall|i: int| 0 <= i < len ==> 0 <= #[trigger] f(i) < len,
        forall|i: int, j: int| 0 <= i < len && 0 <= j < len && i != j ==> #[trigger] f(i) != #[trigger] f(j),
    ensures
        exists|i: int| 0 <= i < len && #[trigger] f(i) == q,
{
    if !exists|i: int| 0 <= i < len && #[trigger] f(i) == q {
        let h = |i: int| if f(i) > q { f(i) - 1 } else { f(i) };
        assert forall|i: int| 0 <= i < len implies 0 <= #[trigger] h(i) < len - 1 by {
            assert(f(i) != q);
        }
        assert forall|i: int, j: int| 0 <= i < len && 0 <= j < len && i != j implies #[trigger] h(i) != #[trigger] h(j) by {
            assert(f(i) != f(j));
            assert(f(i) != q && f(j) != q);
        }
        lemma_pigeonhole(h, len, len - 1);
    }
}

/// In a well-formed diagram every node below the root lies on a lower level
/// than the root.
pub proof fn lemma_root_highest(n: Seq<(u16, u32, u32)>, lev: Seq<usize>, u: int)
    requires
        nodes_wf(n),
        n.len() >= 3,
        bdd_levels(n, lev),
        0 <= u < n.len() - 1,
    ensures
        lev[u] < lev[n.len() - 1],
    decreases n.len() - u,
{
    let r = n.len() - 1;
    if u >= 2 {
        assert(has_parent(n, u));
        let j = choose|j: int| u < j < n.len() && ((#[trigger] n[j]).1 == u || n[j].2 == u);
        if n[j].1 == u {
            assert(lev[child_of(n, j, 0)] + 1 <= lev[j]);
        } else {
            assert(lev[child_of(n, j, 1)] + 1 <= lev[j]);
        }
        if j < r {
            lemma_root_highest(n, lev, j);
        }
    } else {
        assert(lev[child_of(n, r, 0)] + 1 <= lev[r]);
    }
}

/// Where every edge is told apart by its target and weight: the index of
/// its target and weight among all targets and weights.
pub open spec fn edge_key(nn: int, y: (u32, u32, i32)) -> int {
    if y.2 == 2 {
        nn + y.1
    } else {
        2 * y.1 + y.2
    }
}

/// A graph in `level_state` has at most one edge per diagram edge and one
/// per copy.
pub proof fn lemma_edge_count(
    nodes: Seq<Seq<char>>,
    edges: Seq<(u32, u32, i32)>,
    n: Seq<(u16, u32, u32)>,
    names: Seq<Seq<char>>,
    lev: Seq<usize>,
    orig: Seq<int>,
    glev: Seq<usize>,
    tops: Seq<int>,
    base: Seq<int>,
    v: int,
    done: Seq<(u32, u32, i32)>,
    removed: bool,
)
    requires
        level_state(nodes, edges, n, names, lev, orig, glev, tops, base, v, done, removed),
    ensures
        edges.len() <= n.len() + orig.len(),
{
    let nn = n.len() as int;
    let f = |k: int| edge_key(nn, edges[k]);
    assert forall|k: int| 0 <= k < edges.len() implies 0 <= #[trigger] f(k) < nn + orig.len() by {
        assert(edges.contains(edges[k]));
    }
    assert forall|i: int, j: int|
        0 <= i < edges.len() && 0 <= j < edges.len() && i != j implies #[trigger] f(i) != #[trigger] f(j) by {
        let a = edges[i];
        let b = edges[j];
        assert(edges.contains(a));
        assert(edges.contains(b));
        assert(a != b);
        if f(i) == f(j) {
            if a.2 == 2 {
                assert(b.2 == 2);
                assert(a.1 == b.1);
                assert(orig[a.0 as int] == orig[b.0 as int]);
            } else {
                assert(b.2 != 2);
                assert(a.1 == b.1 && a.2 == b.2);
                if a.0 != b.0 {
                    assert(orig[a.0 as int] == orig[b.0 as int]);
                }
            }
        }
    }
    lemma_pigeonhole(f, edges.len() as int, nn + orig.len());
}

/// Once the edges out of `v` are gone, the graph is in the state where
/// they are removed and none is yet put back.
pub proof fn lemma_model_removed(
    n: Seq<(u16, u32, u32)>,
    lev: Seq<usize>,
    orig: Seq<int>,
    glev: Seq<usize>,
    v: int,
    y: (u32, u32, i32),
)
    requires
        0 <= v < n.len() <= orig.len(),
        forall|s: int| 0 <= s < n.len() ==> #[trigger] orig[s] == s,
        forall|s: int| n.len() <= s < orig.len() ==> #[trigger] orig[s] < v,
    ensures
        edge_model(n, lev, orig, glev, v, Seq::empty(), true, y) <==> edge_model(
            n,
            lev,
            orig,
            glev,
            v,
            Seq::empty(),
            false,
            y,
        ) && y.0 != v,
{
    assert(orig[v] == v);
    if copy_edge(n.len() as int, orig, glev, y) {
        assert(orig[y.1 as int] < v);
    }
}

/// Adding a copy of `v` on level `l`, joined to `prev` (the node standing
/// for `v` one level lower), keeps the graph in `level_state`.
pub proof fn lemma_add_copy(
    nodes: Seq<Seq<char>>,
    edges: Seq<(u32, u32, i32)>,
    n: Seq<(u16, u32, u32)>,
    names: Seq<Seq<char>>,
    lev: Seq<usize>,
    orig: Seq<int>,
    glev: Seq<usize>,
    tops: Seq<int>,
    base: Seq<int>,
    v: int,
    weight: Seq<char>,
    prev: u32,
    l: usize,
)
    requires
        level_state(nodes, edges, n, names, lev, orig, glev, tops, base, v, Seq::empty(), true),
        0 <= v < n.len(),
        orig.len() < u32::MAX,
        prev < orig.len(),
        orig[prev as int] == v,
        glev[prev as int] + 1 == l,
        lev[v] < l < tops[v],
        forall|s: int| 0 <= s < orig.len() && orig[s] == v ==> #[trigger] glev[s] < l,
        weight == nodes[v],
    ensures
        level_state(
            nodes.push(weight),
            edges.push((prev, orig.len() as u32, 2i32)),
            n,
            names,
            lev,
            orig.push(v),
            glev.push(l),
            tops,
            base,
            v,
            Seq::empty(),
            true,
        ),
{
    let c = orig.len() as int;
    let y_new = (prev, c as u32, 2i32);
    let orig2 = orig.push(v);
    let glev2 = glev.push(l);
    let empty = Seq::<(u32, u32, i32)>::empty();
    assert(!edges.contains(y_new)) by {
        if edges.contains(y_new) {
            assert(edge_model(n, lev, orig, glev, v, empty, true, y_new));
        }
    }
    lemma_push_edge(edges, y_new);
    let edges2 = edges.push(y_new);
    assert forall|s1: int, s2: int|
        0 <= s1 < orig2.len() && 0 <= s2 < orig2.len() && s1 != s2 && #[trigger] orig2[s1]
            == #[trigger] orig2[s2] implies glev2[s1] != glev2[s2] by {
        if s1 == c {
            assert(glev[s2] < l);
        } else if s2 == c {
            assert(glev[s1] < l);
        } else {
            assert(orig2[s1] == orig[s1] && orig2[s2] == orig[s2]);
        }
    }
    assert forall|y: (u32, u32, i32)| #[trigger]
        edges2.contains(y) <==> edge_model(n, lev, orig2, glev2, v, empty, true, y) by {
        if data_shape(n, y) {
            let ch = child_of(n, y.1 as int, y.2 as int);
            if y.0 == c {
                assert(!levelled_source(n, lev, orig2, glev2, y) || ch == v);
            }
            if y.0 < c {
                assert(levelled_source(n, lev, orig2, glev2, y) == levelled_source(n, lev, orig, glev, y));
            }
        }
        if copy_edge(n.len() as int, orig2, glev2, y) {
            if y.1 == c {
                if y.0 != prev {
                    assert(orig2[y.0 as int] == orig2[prev as int]);
                }
                assert(y == y_new);
            } else if y.0 == c {
                assert(orig[y.1 as int] == v);
                assert(glev[y.1 as int] < l);
            } else {
                assert(copy_edge(n.len() as int, orig, glev, y));
            }
        }
        if copy_edge(n.len() as int, orig, glev, y) {
            assert(copy_edge(n.len() as int, orig2, glev2, y));
        }
        if y == y_new {
            assert(copy_edge(n.len() as int, orig2, glev2, y));
        }
    }
    assert forall|u: int, ll: int|
        0 <= u < v && lev[u] < ll < tops[u] implies {
            let s = #[trigger] copy_index(base, lev, u, ll);
            &&& n.len() <= s < orig2.len()
            &&& orig2[s] == u
            &&& glev2[s] == ll
        } by {
        let s = copy_index(base, lev, u, ll);
        assert(orig[s] == u);
    }
    assert forall|s: int|
        n.len() <= s < orig2.len() implies 0 <= #[trigger] orig2[s] < n.len() && (orig2[s] < v || (true
            && orig2[s] == v)) && lev[orig2[s]] < glev2[s] && glev2[s] < tops[orig2[s]] by {
        if s < c {
            assert(orig2[s] == orig[s]);
        }
    }
}

/// Putting back the edge `y` out of `v`'s chain, not yet in `done`, keeps
/// the graph in `level_state`.
pub proof fn lemma_add_data_edge(
    nodes: Seq<Seq<char>>,
    edges: Seq<(u32, u32, i32)>,
    n: Seq<(u16, u32, u32)>,
    names: Seq<Seq<char>>,
    lev: Seq<usize>,
    orig: Seq<int>,
    glev: Seq<usize>,
    tops: Seq<int>,
    base: Seq<int>,
    v: int,
    done: Seq<(u32, u32, i32)>,
    y: (u32, u32, i32),
)
    requires
        level_state(nodes, edges, n, names, lev, orig, glev, tops, base, v, done, true),
        data_shape(n, y),
        child_of(n, y.1 as int, y.2 as int) == v,
        levelled_source(n, lev, orig, glev, y),
        !done.contains(y),
    ensures
        !edges.contains(y),
        level_state(nodes, edges.push(y), n, names, lev, orig, glev, tops, base, v, done.push(y), true),
{
    lemma_push_edge(edges, y);
    assert forall|x: (u32, u32, i32)| #[trigger] done.push(y).contains(x) <==> done.contains(x) || x == y by {
        if done.push(y).contains(x) {
            let i = choose|i: int| 0 <= i < done.push(y).len() && done.push(y)[i] == x;
            if i < done.len() {
                assert(done[i] == x);
            }
        }
        if done.contains(x) {
            let i = choose|i: int| 0 <= i < done.len() && done[i] == x;
            assert(done.push(y)[i] == x);
        }
        if x == y {
            assert(done.push(y)[done.len() as int] == x);
        }
    }
    assert forall|x: (u32, u32, i32)| #[trigger]
        edges.push(y).contains(x) <==> edge_model(n, lev, orig, glev, v, done.push(y), true, x) by {
        assert(edges.contains(x) <==> edge_model(n, lev, orig, glev, v, done, true, x));
    }
}

/// Once every edge out of `v` is back, on `v`'s chain, the graph is in the
/// state before the next diagram node.
pub proof fn lemma_finish_node(
    nodes: Seq<Seq<char>>,
    edges: Seq<(u32, u32, i32)>,
    n: Seq<(u16, u32, u32)>,
    names: Seq<Seq<char>>,
    lev: Seq<usize>,
    orig: Seq<int>,
    glev: Seq<usize>,
    tops: Seq<int>,
    base: Seq<int>,
    v: int,
    done: Seq<(u32, u32, i32)>,
)
    requires
        level_state(nodes, edges, n, names, lev, orig, glev, tops, base, v, done, true),
        0 <= v < n.len(),
        lev[v] <= tops[v] < n.len(),
        forall|l: int|
            lev[v] < l < tops[v] ==> {
                let s = #[trigger] copy_index(base, lev, v, l);
                &&& n.len() <= s < orig.len()
                &&& orig[s] == v
                &&& glev[s] == l
            },
        forall|t: int, w: int|
            2 <= t < n.len() && (w == 0 || w == 1) && #[trigger] child_of(n, t, w) == v ==> lev[t] <= tops[v],
        forall|t: int, w: int|
            2 <= t < n.len() && (w == 0 || w == 1) && #[trigger] child_of(n, t, w) == v ==> exists|i: int|
                0 <= i < done.len() && (#[trigger] done[i]).1 == t && done[i].2 == w,
        forall|i: int| 0 <= i < done.len() ==> edges.contains(#[trigger] done[i]),
    ensures
        level_state(nodes, edges, n, names, lev, orig, glev, tops, base, v + 1, Seq::empty(), false),
{
    let empty = Seq::<(u32, u32, i32)>::empty();
    assert forall|y: (u32, u32, i32)| #[trigger]
        edges.contains(y) <==> edge_model(n, lev, orig, glev, v + 1, empty, false, y) by {
        assert(edges.contains(y) <==> edge_model(n, lev, orig, glev, v, done, true, y));
        if data_shape(n, y) && child_of(n, y.1 as int, y.2 as int) == v && levelled_source(
            n,
            lev,
            orig,
            glev,
            y,
        ) {
            let t = y.1 as int;
            let w = y.2 as int;
            let i = choose|i: int| 0 <= i < done.len() && (#[trigger] done[i]).1 == t && done[i].2 == w;
            let x = done[i];
            let s = x.0;
            assert(done.contains(x));
            assert(edges.contains(x));
            assert(edge_model(n, lev, orig, glev, v, done, true, x));
            if s != y.0 {
                assert(orig[s as int] == orig[y.0 as int]);
            }
            assert(x == y);
        }
    }
    assert forall|u: int, l: int|
        0 <= u < v + 1 && lev[u] < l < tops[u] implies {
            let s = #[trigger] copy_index(base, lev, u, l);
            &&& n.len() <= s < orig.len()
            &&& orig[s] == u
            &&& glev[s] == l
        } by {
    }
    assert forall|t: int, w: int|
        2 <= t < n.len() && (w == 0 || w == 1) && #[trigger] child_of(n, t, w) < v + 1 implies lev[t]
            <= tops[child_of(n, t, w)] by {
    }
}

/// Levelises the edges out of diagram node `v`: they are removed, `v` gets
/// a chain of copies up to the level below its highest parent, and each
/// parent gets its edge back from the chain node one level below it.
fn levelise_node(
    graph: &mut Graph<String, i32>,
    new_levels: &mut Vec<usize>,
    levels: &Vec<usize>,
    v: u32,
    Ghost(n): Ghost<Seq<(u16, u32, u32)>>,
    Ghost(names): Ghost<Seq<Seq<char>>>,
    Ghost(orig): Ghost<Seq<int>>,
    Ghost(tops): Ghost<Seq<int>>,
    Ghost(base): Ghost<Seq<int>>,
) -> (r: (Ghost<Seq<int>>, Ghost<Seq<int>>, Ghost<Seq<int>>))
    requires
        v < n.len(),
        bdd_levels(n, levels@),
        forall|u: int| 0 <= u < n.len() ==> #[trigger] levels@[u] <= levels@[n.len() - 1],
        forall|u: int| 0 <= u < v ==> #[trigger] tops[u] <= levels@[n.len() - 1],
        2 * n.len() + copies_upto(n, levels@, n.len() as int) < u32::MAX,
        orig.len() == n.len() + copies_upto(n, levels@, v as int),
        level_state(
            graph_nodes(*old(graph)),
            graph_edges(*old(graph)),
            n,
            names,
            levels@,
            orig,
            old(new_levels)@,
            tops,
            base,
            v as int,
            Seq::empty(),
            false,
        ),
    ensures
        r.0@.len() == n.len() + copies_upto(n, levels@, v + 1),
        graph_nodes(*old(graph)).len() <= graph_nodes(*final(graph)).len(),
        forall|s: int|
            0 <= s < graph_nodes(*old(graph)).len() ==> #[trigger] graph_nodes(*final(graph))[s] == graph_nodes(
                *old(graph),
            )[s],
        forall|u: int| 0 <= u < v + 1 ==> #[trigger] r.1@[u] <= levels@[n.len() - 1],
        level_state(
            graph_nodes(*final(graph)),
            graph_edges(*final(graph)),
            n,
            names,
            levels@,
            r.0@,
            final(new_levels)@,
            r.1@,
            r.2@,
            v + 1,
            Seq::empty(),
            false,
        ),
{
    let ghost nn = n.len();
    let ghost lev = levels@;
    let ghost empty = Seq::<(u32, u32, i32)>::empty();
    let ghost nodes0 = graph_nodes(*graph);
    let ghost edges0 = graph_edges(*graph);
    let outs = graph_outgoing(graph, v);
    proof {
        assert forall|i: int| 0 <= i < outs@.len() implies data_shape(n, (v, (#[trigger] outs@[i]).1, outs@[i].2))
            && child_of(n, outs@[i].1 as int, outs@[i].2 as int) == v by {
            let y = edges0[outs@[i].0 as int];
            assert(edges0.contains(y));
            assert(orig[v as int] == v);
            if copy_edge(nn as int, orig, old(new_levels)@, y) {
                assert(orig[y.1 as int] < v);
            }
        }
        assert forall|i: int, j: int|
            0 <= i < outs@.len() && 0 <= j < outs@.len() && i != j implies ((#[trigger] outs@[i]).1,
            outs@[i].2) != ((#[trigger] outs@[j]).1, outs@[j].2) by {
            assert(edges0[outs@[i].0 as int] != edges0[outs@[j].0 as int]);
        }
        assert forall|t: int, w: int|
            2 <= t < nn && (w == 0 || w == 1) && #[trigger] child_of(n, t, w) == v implies exists|i: int|
                0 <= i < outs@.len() && (#[trigger] outs@[i]).1 == t && outs@[i].2 == w by {
            let y = (v, t as u32, w as i32);
            assert(edge_model(n, lev, orig, old(new_levels)@, v as int, empty, false, y));
            assert(edges0.contains(y));
            let k = choose|k: int| 0 <= k < edges0.len() && edges0[k] == y;
            let i = choose|i: int| 0 <= i < outs@.len() && (#[trigger] outs@[i]).0 == k;
            assert(outs@[i].1 == t && outs@[i].2 == w);
        }
    }
    let lv = levels[v as usize];
    let mut top = lv;
    let mut q: usize = 0;
    while q < outs.len()
        invariant
            q <= outs@.len(),
            lev == levels@,
            bdd_levels(n, lev),
            v < nn,
            nn == n.len(),
            lv == lev[v as int],
            lv <= top < nn,
            top <= lev[nn - 1],
            forall|u: int| 0 <= u < nn ==> #[trigger] lev[u] <= lev[nn - 1],
            forall|i: int| 0 <= i < outs@.len() ==> data_shape(n, (v, (#[trigger] outs@[i]).1, outs@[i].2)),
            forall|i: int| 0 <= i < q ==> lev[(#[trigger] outs@[i]).1 as int] <= top,
            top == lv || exists|i: int| 0 <= i < q && top == lev[(#[trigger] outs@[i]).1 as int],
        decreases outs@.len() - q,
    {
        let t = outs[q].1;
        proof {
            assert(data_shape(n, (v, outs@[q as int].1, outs@[q as int].2)));
        }
        let ghost top0 = top;
        if levels[t as usize] > top {
            top = levels[t as usize];
        }
        proof {
            if top != lv {
                if top == top0 {
                    let i = choose|i: int| 0 <= i < q && top0 == lev[(#[trigger] outs@[i]).1 as int];
                    assert(0 <= i < q + 1 && top == lev[outs@[i].1 as int]);
                } else {
                    assert(top == lev[outs@[q as int].1 as int]);
                }
            }
        }
        q = q + 1;
    }
    proof {
        lemma_top_upto(n, lev, v as int, nn as int);
        if top != lv {
            let i = choose|i: int| 0 <= i < outs@.len() && top == lev[(#[trigger] outs@[i]).1 as int];
            assert(is_parent(n, outs@[i].1 as int, v as int));
        }
        if top_upto(n, lev, v as int, nn as int) != lv {
            let t = choose|t: int| 0 <= t < nn && #[trigger] is_parent(n, t, v as int) && top_upto(n, lev, v as int, nn as int) == lev[t];
            if child_of(n, t, 0) == v {
                let i = choose|i: int| 0 <= i < outs@.len() && (#[trigger] outs@[i]).1 == t && outs@[i].2 == 0;
            } else {
                let i = choose|i: int| 0 <= i < outs@.len() && (#[trigger] outs@[i]).1 == t && outs@[i].2 == 1;
            }
        }
        assert(top == top_upto(n, lev, v as int, nn as int));
        lemma_copies_monotone(n, lev, v + 1, nn as int);
    }
    proof {
        assert forall|i: int| 0 <= i < outs@.len() implies lv < lev[(#[trigger] outs@[i]).1 as int] <= top by {
            assert(data_shape(n, (v, outs@[i].1, outs@[i].2)));
            assert(lev[child_of(n, outs@[i].1 as int, outs@[i].2 as int)] + 1 <= lev[outs@[i].1 as int]);
        }
    }
    // delete old edges
    let ghost glev0 = new_levels@;
    let mut cur = graph_outgoing(graph, v);
    while cur.len() > 0
        invariant
            v < nn,
            nn == n.len(),
            graph_nodes(*graph) == nodes0,
            nodes0.len() == orig.len(),
            nn <= orig.len(),
            graph_edges(*graph).no_duplicates(),
            forall|y: (u32, u32, i32)|
                y.0 != v ==> (#[trigger] graph_edges(*graph).contains(y) <==> edge_model(
                    n,
                    lev,
                    orig,
                    glev0,
                    v as int,
                    empty,
                    false,
                    y,
                )),
            forall|y: (u32, u32, i32)| #[trigger]
                graph_edges(*graph).contains(y) ==> edge_model(n, lev, orig, glev0, v as int, empty, false, y),
            forall|i: int|
                0 <= i < cur@.len() ==> (#[trigger] cur@[i]).0 < graph_edges(*graph).len()
                    && graph_edges(*graph)[cur@[i].0 as int] == (v, cur@[i].1, cur@[i].2),
            forall|k: int|
                0 <= k < graph_edges(*graph).len() && (#[trigger] graph_edges(*graph)[k]).0 == v ==> exists|
                    i: int,
                | 0 <= i < cur@.len() && (#[trigger] cur@[i]).0 == k,
        decreases graph_edges(*graph).len(),
    {
        let e = cur[0].0;
        proof {
            lemma_swap_remove_edge(graph_edges(*graph), e as int);
        }
        graph_remove_edge(graph, e);
        cur = graph_outgoing(graph, v);
    }
    proof {
        assert forall|y: (u32, u32, i32)| #[trigger]
            graph_edges(*graph).contains(y) <==> edge_model(n, lev, orig, glev0, v as int, empty, true, y) by {
            lemma_model_removed(n, lev, orig, glev0, v as int, y);
            if graph_edges(*graph).contains(y) && y.0 == v {
                let k = choose|k: int| 0 <= k < graph_edges(*graph).len() && graph_edges(*graph)[k] == y;
                assert(graph_edges(*graph)[k].0 == v);
            }
        }
    }
    // add the chain of copies of `v`, one per level up to the level below
    // its highest parent
    let ghost tops1 = tops.update(v as int, top as int);
    let first = new_levels.len();
    let ghost base1 = base.update(v as int, first as int);
    proof {
        assert(level_state(
            nodes0,
            graph_edges(*graph),
            n,
            names,
            lev,
            orig,
            glev0,
            tops1,
            base1,
            v as int,
            empty,
            true,
        )) by {
            assert forall|s: int|
                nn <= s < orig.len() implies 0 <= #[trigger] orig[s] < nn && (orig[s] < v || (true
                    && orig[s] == v)) && lev[orig[s]] < glev0[s] && glev0[s] < tops1[orig[s]] by {
                assert(orig[s] < v);
            }
            assert forall|u: int, ll: int|
                0 <= u < v && lev[u] < ll < tops1[u] implies {
                    let s = #[trigger] copy_index(base1, lev, u, ll);
                    &&& nn <= s < orig.len()
                    &&& orig[s] == u
                    &&& glev0[s] == ll
                } by {
                assert(copy_index(base1, lev, u, ll) == copy_index(base, lev, u, ll));
            }
            assert forall|t: int, w: int|
                2 <= t < nn && (w == 0 || w == 1) && #[trigger] child_of(n, t, w) < v implies lev[t]
                    <= tops1[child_of(n, t, w)] by {
            }
        }
    }
    let weight = match graph_node_weight(graph, v) {
        Some(w) => w,
        None => String::new(),
    };
    proof {
        assert(weight@ == nodes0[v as int]);
    }
    let ghost mut orig1 = orig;
    let mut prev: u32 = v;
    let mut l: usize = lv + 1;
    while l < top
        invariant
            weight@ == graph_nodes(*graph)[v as int],
            nodes0.len() <= graph_nodes(*graph).len(),
            forall|s: int| 0 <= s < nodes0.len() ==> #[trigger] graph_nodes(*graph)[s] == nodes0[s],
            lv + 1 <= l,
            l <= top || l == lv + 1,
            empty == Seq::<(u32, u32, i32)>::empty(),
            lv == lev[v as int],
            top == tops1[v as int],
            v < nn,
            nn == n.len(),
            lev == levels@,
            bdd_levels(n, lev),
            2 * nn + copies_upto(n, lev, nn as int) < u32::MAX,
            orig.len() == nn + copies_upto(n, lev, v as int),
            copies_upto(n, lev, v + 1) <= copies_upto(n, lev, nn as int),
            top == top_upto(n, lev, v as int, nn as int),
            first == orig.len(),
            top < nn,
            level_state(
                graph_nodes(*graph),
                graph_edges(*graph),
                n,
                names,
                lev,
                orig1,
                new_levels@,
                tops1,
                base1,
                v as int,
                empty,
                true,
            ),
            orig1.len() == first + (l - lv - 1),
            prev == (if l == lv + 1 {
                v as int
            } else {
                orig1.len() - 1
            }),
            forall|s: int| first <= s < orig1.len() ==> #[trigger] orig1[s] == v && new_levels@[s] == lv + 1 + (s - first),
            forall|s: int| 0 <= s < first ==> #[trigger] orig1[s] == orig[s],
            forall|s: int| nn <= s < first ==> #[trigger] orig[s] < v,
        decreases top - l,
    {
        proof {
            assert(orig1.len() < first + copy_count(n, lev, v as int));
            lemma_edge_count(
                graph_nodes(*graph),
                graph_edges(*graph),
                n,
                names,
                lev,
                orig1,
                new_levels@,
                tops1,
                base1,
                v as int,
                empty,
                true,
            );
            assert forall|s: int| 0 <= s < orig1.len() && orig1[s] == v implies #[trigger] new_levels@[s] < l by {
                if s < nn {
                    assert(s == v);
                } else if s < first {
                    assert(orig1[s] == orig[s]);
                    assert(orig[s] < v);
                }
            }
            if l == lv + 1 {
                assert(orig1[v as int] == v);
            } else {
                assert(orig1[prev as int] == v);
            }
            lemma_add_copy(
                graph_nodes(*graph),
                graph_edges(*graph),
                n,
                names,
                lev,
                orig1,
                new_levels@,
                tops1,
                base1,
                v as int,
                weight@,
                prev,
                l,
            );
        }
        let c = graph_add_node(graph, weight.clone());
        new_levels.push(l);
        graph_add_edge(graph, prev, c, 2);
        proof {
            orig1 = orig1.push(v as int);
        }
        prev = c;
        l = l + 1;
    }
    proof {
        assert forall|ll: int| lv < ll < top implies {
            let s = #[trigger] copy_index(base1, lev, v as int, ll);
            &&& nn <= s < orig1.len()
            &&& orig1[s] == v
            &&& new_levels@[s] == ll
        } by {
            let s = copy_index(base1, lev, v as int, ll);
            assert(first <= s < orig1.len());
            assert(orig1[s] == v);
        }
    }
    proof {
        assert(orig1.len() == first + copy_count(n, lev, v as int));
    }
    // put each edge out of `v` back, from the chain node one level below
    // its target
    let ghost mut done = empty;
    let mut q: usize = 0;
    while q < outs.len()
        invariant
            nodes0.len() <= graph_nodes(*graph).len(),
            forall|s: int| 0 <= s < nodes0.len() ==> #[trigger] graph_nodes(*graph)[s] == nodes0[s],
            q <= outs@.len(),
            empty == Seq::<(u32, u32, i32)>::empty(),
            lv == lev[v as int],
            top == tops1[v as int],
            v < nn,
            nn == n.len(),
            lev == levels@,
            bdd_levels(n, lev),
            2 * nn + copies_upto(n, lev, nn as int) < u32::MAX,
            orig1.len() == nn + copies_upto(n, lev, v + 1),
            copies_upto(n, lev, v + 1) <= copies_upto(n, lev, nn as int),
            first == base1[v as int],
            nn <= first <= orig1.len(),
            top < nn,
            level_state(
                graph_nodes(*graph),
                graph_edges(*graph),
                n,
                names,
                lev,
                orig1,
                new_levels@,
                tops1,
                base1,
                v as int,
                done,
                true,
            ),
            forall|ll: int|
                lv < ll < top ==> {
                    let s = #[trigger] copy_index(base1, lev, v as int, ll);
                    &&& nn <= s < orig1.len()
                    &&& orig1[s] == v
                    &&& new_levels@[s] == ll
                },
            forall|i: int|
                0 <= i < outs@.len() ==> data_shape(n, (v, (#[trigger] outs@[i]).1, outs@[i].2))
                    && child_of(n, outs@[i].1 as int, outs@[i].2 as int) == v,
            forall|i: int| 0 <= i < outs@.len() ==> lv < lev[(#[trigger] outs@[i]).1 as int] <= top,
            forall|i: int, j: int|
                0 <= i < outs@.len() && 0 <= j < outs@.len() && i != j ==> ((#[trigger] outs@[i]).1,
                outs@[i].2) != ((#[trigger] outs@[j]).1, outs@[j].2),
            done.len() == q,
            forall|i: int|
                0 <= i < q ==> (#[trigger] done[i]).1 == outs@[i].1 && done[i].2 == outs@[i].2,
            forall|i: int| 0 <= i < q ==> graph_edges(*graph).contains(#[trigger] done[i]),
        decreases outs@.len() - q,
    {
        let t = outs[q].1;
        let w = outs[q].2;
        proof {
            assert(data_shape(n, (v, outs@[q as int].1, outs@[q as int].2)));
            assert(lv < lev[outs@[q as int].1 as int] <= top);
        }
        let lt = levels[t as usize];
        let src: u32 = if lt - 1 == lv {
            v
        } else {
            (first + (lt - 1 - lv - 1)) as u32
        };
        let ghost y = (src, t, w);
        proof {
            if lt - 1 == lv {
                assert(orig1[v as int] == v);
            } else {
                let s = copy_index(base1, lev, v as int, lt - 1);
                assert(s == src);
                assert(orig1[s] == v);
            }
            assert(levelled_source(n, lev, orig1, new_levels@, y));
            assert(!done.contains(y)) by {
                if done.contains(y) {
                    let i = choose|i: int| 0 <= i < done.len() && done[i] == y;
                    assert(outs@[i].1 == outs@[q as int].1 && outs@[i].2 == outs@[q as int].2);
                }
            }
            lemma_edge_count(
                graph_nodes(*graph),
                graph_edges(*graph),
                n,
                names,
                lev,
                orig1,
                new_levels@,
                tops1,
                base1,
                v as int,
                done,
                true,
            );
            lemma_add_data_edge(
                graph_nodes(*graph),
                graph_edges(*graph),
                n,
                names,
                lev,
                orig1,
                new_levels@,
                tops1,
                base1,
                v as int,
                done,
                y,
            );
            lemma_push_edge(graph_edges(*graph), y);
        }
        graph_add_edge(graph, src, t, w);
        proof {
            done = done.push(y);
        }
        q = q + 1;
    }
    proof {
        assert forall|t: int, w: int|
            2 <= t < nn && (w == 0 || w == 1) && #[trigger] child_of(n, t, w) == v implies lev[t]
                <= tops1[v as int] by {
            let i = choose|i: int| 0 <= i < outs@.len() && (#[trigger] outs@[i]).1 == t && outs@[i].2 == w;
        }
        assert forall|t: int, w: int|
            2 <= t < nn && (w == 0 || w == 1) && #[trigger] child_of(n, t, w) == v implies exists|i: int|
                0 <= i < done.len() && (#[trigger] done[i]).1 == t && done[i].2 == w by {
            let i = choose|i: int| 0 <= i < outs@.len() && (#[trigger] outs@[i]).1 == t && outs@[i].2 == w;
            assert(done[i].1 == t && done[i].2 == w);
        }
        lemma_finish_node(
            graph_nodes(*graph),
            graph_edges(*graph),
            n,
            names,
            lev,
            orig1,
            new_levels@,
            tops1,
            base1,
            v as int,
            done,
        );
    }
    (Ghost(orig1), Ghost(tops1), Ghost(base1))
}

/// Levelises the inverted diagram: afterwards every edge joins two
/// consecutive levels. Diagram node `u` gets a chain of copies, one on each
/// level strictly between its own and its highest parent's; the edge into
/// each parent starts from the chain node just below it. Returns the level of
/// every graph node, copies included.
fn levelise_graph(
    graph: &mut Graph<String, i32>,
    levels: &Vec<usize>,
    Ghost(n): Ghost<Seq<(u16, u32, u32)>>,
    Ghost(names): Ghost<Seq<Seq<char>>>,
) -> (r: (Vec<usize>, Ghost<Seq<int>>, Ghost<Seq<int>>, Ghost<Seq<int>>))
    requires
        bdd_levels(n, levels@),
        nodes_wf(n),
        n.len() >= 3,
        forall|u: int| 0 <= u < n.len() ==> #[trigger] levels@[u] <= levels@[n.len() - 1],
        2 * n.len() + copies_upto(n, levels@, n.len() as int) < u32::MAX,
        graph_nodes(*old(graph)).len() == n.len(),
        forall|p: int| 2 <= p < n.len() ==> #[trigger] graph_nodes(*old(graph))[p] == names[n[p].0 as int],
        graph_edges(*old(graph)).no_duplicates(),
        forall|y: (u32, u32, i32)| #[trigger] graph_edges(*old(graph)).contains(y) <==> bdd_edge(n, y),
    ensures
        r.1@.len() == n.len() + copies_upto(n, levels@, n.len() as int),
        forall|u: int| 0 <= u < n.len() ==> #[trigger] r.2@[u] <= levels@[n.len() - 1],
        longest_path_levels(graph_edges(*final(graph)), r.0@, r.1@.len()),
        forall|k: int|
            0 <= k < graph_edges(*final(graph)).len() ==> r.0@[(#[trigger] graph_edges(*final(graph))[k]).0 as int] + 1
                == r.0@[graph_edges(*final(graph))[k].1 as int],
        forall|s: int| 0 <= s < n.len() ==> #[trigger] graph_nodes(*final(graph))[s] == graph_nodes(*old(graph))[s],
        forall|s: int|
            n.len() <= s < r.1@.len() ==> #[trigger] graph_nodes(*final(graph))[s] == graph_nodes(*final(graph))[r.1@[s]],
        level_state(
            graph_nodes(*final(graph)),
            graph_edges(*final(graph)),
            n,
            names,
            levels@,
            r.1@,
            r.0@,
            r.2@,
            r.3@,
            n.len() as int,
            Seq::empty(),
            false,
        ),
{
    let ghost nn = n.len();
    let ghost empty = Seq::<(u32, u32, i32)>::empty();
    let count = levels.len();
    let mut new_levels: Vec<usize> = Vec::new();
    let mut i: usize = 0;
    while i < count
        invariant
            i <= count,
            count == levels@.len(),
            new_levels@ == levels@.take(i as int),
        decreases count - i,
    {
        new_levels.push(levels[i]);
        i = i + 1;
    }
    let ghost mut orig = Seq::new(nn, |s: int| s);
    let ghost mut tops = Seq::new(nn, |s: int| 0int);
    let ghost mut base = Seq::new(nn, |s: int| 0int);
    proof {
        assert(new_levels@ == levels@.take(count as int));
        assert forall|y: (u32, u32, i32)| #[trigger]
            graph_edges(*graph).contains(y) <==> edge_model(n, levels@, orig, new_levels@, 0, empty, false, y) by {
        }
        assert forall|s1: int, s2: int|
            0 <= s1 < orig.len() && 0 <= s2 < orig.len() && s1 != s2 && #[trigger] orig[s1]
                == #[trigger] orig[s2] implies new_levels@[s1] != new_levels@[s2] by {
        }
    }
    let mut v: u32 = 0;
    while (v as usize) < count
        invariant
            v <= count,
            count == nn,
            nn == n.len(),
            empty == Seq::<(u32, u32, i32)>::empty(),
            bdd_levels(n, levels@),
            nn >= 1,
            forall|u: int| 0 <= u < nn ==> #[trigger] levels@[u] <= levels@[nn - 1],
            forall|u: int| 0 <= u < v ==> #[trigger] tops[u] <= levels@[nn - 1],
            2 * nn + copies_upto(n, levels@, nn as int) < u32::MAX,
            orig.len() == nn + copies_upto(n, levels@, v as int),
            forall|s: int| 0 <= s < nn ==> #[trigger] graph_nodes(*graph)[s] == graph_nodes(*old(graph))[s],
            level_state(
                graph_nodes(*graph),
                graph_edges(*graph),
                n,
                names,
                levels@,
                orig,
                new_levels@,
                tops,
                base,
                v as int,
                empty,
                false,
            ),
        decreases count - v,
    {
        let (Ghost(o), Ghost(t), Ghost(b)) = levelise_node(
            graph,
            &mut new_levels,
            levels,
            v,
            Ghost(n),
            Ghost(names),
            Ghost(orig),
            Ghost(tops),
            Ghost(base),
        );
        proof {
            orig = o;
            tops = t;
            base = b;
        }
        v = v + 1;
    }
    proof {
        lemma_levelled(graph_nodes(*graph), graph_edges(*graph), n, names, levels@, orig, new_levels@, tops, base);
        lemma_levelled_levels(graph_edges(*graph), n, levels@, orig, new_levels@);
    }
    (new_levels, Ghost(orig), Ghost(tops), Ghost(base))
}

/// The alias pairs as character sequences; no map means no aliases.
pub open spec fn alias_view(alias_map: Option<&Vec<(String, String)>>) -> Seq<(Seq<char>, Seq<char>)> {
    match alias_map {
        Some(m) => m@.map_values(|p: (String, String)| (p.0@, p.1@)),
        None => Seq::empty(),
    }
}

/// Pair `i` is the first pair with key `tag`.
pub open spec fn first_key(pairs: Seq<(Seq<char>, Seq<char>)>, tag: Seq<char>, i: int) -> bool {
    &&& 0 <= i < pairs.len()
    &&& pairs[i].0 == tag
    &&& forall|j: int| 0 <= j < i ==> #[trigger] pairs[j].0 != tag
}

/// The name that `tag` stands for: the value of the first pair with key
/// `tag`, or `tag` itself where there is none.
pub open spec fn dealias(pairs: Seq<(Seq<char>, Seq<char>)>, tag: Seq<char>) -> Seq<char> {
    if exists|i: int| first_key(pairs, tag, i) {
        pairs[choose|i: int| first_key(pairs, tag, i)].1
    } else {
        tag
    }
}

/// No two pairs of `pairs` share a key, as in a map.
pub open spec fn distinct_keys(pairs: Seq<(Seq<char>, Seq<char>)>) -> bool {
    forall|i: int, j: int| 0 <= i < pairs.len() && 0 <= j < pairs.len() && i != j ==> #[trigger] pairs[i].0 != #[trigger] pairs[j].0
}

/// Where no two pairs share a key, every key stands for the value of its
/// own pair, as a lookup in a map gives.
pub proof fn lemma_dealias_key(pairs: Seq<(Seq<char>, Seq<char>)>, i: int)
    requires
        distinct_keys(pairs),
        0 <= i < pairs.len(),
    ensures
        dealias(pairs, pairs[i].0) == pairs[i].1,
{
    let x = pairs[i].0;
    assert(first_key(pairs, x, i));
    let c = choose|c: int| first_key(pairs, x, c);
    if c != i {
        assert(pairs[c].0 == pairs[i].0);
    }
}

/// `i` is the first index of `x` in `s`.
pub open spec fn first_index(s: Seq<Seq<char>>, x: Seq<char>, i: int) -> bool {
    &&& 0 <= i < s.len()
    &&& s[i] == x
    &&& forall|j: int| 0 <= j < i ==> #[trigger] s[j] != x
}

/// The index of the first occurrence of `x` in `s`.
pub open spec fn input_position(s: Seq<Seq<char>>, x: Seq<char>) -> int {
    choose|i: int| first_index(s, x, i)
}

/// The position in `input_order` of the input that the graph node tagged
/// `node_tag` reads: the tag is first resolved through the aliases, then
/// looked up in the input order.
pub fn translate_node_tag_to_input_index(
    node_tag: &String,
    input_order: &[String],
    alias_map: Option<&Vec<(String, String)>>,
) -> (r: usize)
    requires
        strings_view(input_order@).contains(dealias(alias_view(alias_map), node_tag@)),
    ensures
        first_index(strings_view(input_order@), dealias(alias_view(alias_map), node_tag@), r as int),
        r == input_position(strings_view(input_order@), dealias(alias_view(alias_map), node_tag@)),
{
    let ghost pairs = alias_view(alias_map);
    let ghost target = dealias(pairs, node_tag@);
    let dealiased_tag: String = match alias_map {
        Some(m) => {
            let mut found: Option<String> = None;
            let mut k: usize = 0;
            while k < m.len()
                invariant_except_break
                    k <= m@.len(),
                    pairs == m@.map_values(|p: (String, String)| (p.0@, p.1@)),
                    target == dealias(pairs, node_tag@),
                    found is None,
                    forall|j: int| 0 <= j < k ==> #[trigger] pairs[j].0 != node_tag@,
                    forall|i: int| #[trigger] first_key(pairs, node_tag@, i) ==> i >= k,
                ensures
                    found is Some ==> found.unwrap()@ == target,
                    found is None ==> target == node_tag@,
                decreases m@.len() - k,
            {
                if m[k].0 == *node_tag {
                    proof {
                        assert(first_key(pairs, node_tag@, k as int));
                        let i = choose|i: int| first_key(pairs, node_tag@, i);
                        if i < k {
                            assert(pairs[i].0 != node_tag@);
                        }
                        if k < i {
                            assert(pairs[k as int].0 != node_tag@);
                        }
                        assert(i == k);
                    }
                    found = Some(m[k].1.clone());
                    break;
                }
                k = k + 1;
            }
            match found {
                Some(v) => v,
                None => node_tag.clone(),
            }
        },
        None => node_tag.clone(),
    };
    let ghost order = strings_view(input_order@);
    let mut j: usize = 0;
    while j < input_order.len()
        invariant_except_break
            j <= input_order@.len(),
            order == strings_view(input_order@),
            order.contains(target),
            dealiased_tag@ == target,
            forall|i: int| 0 <= i < j ==> #[trigger] order[i] != target,
        ensures
            j < input_order@.len(),
            first_index(order, target, j as int),
        decreases input_order@.len() - j,
    {
        if input_order[j] == dealiased_tag {
            break;
        }
        j = j + 1;
    }
    proof {
        if j == input_order@.len() {
            let i = choose|i: int| 0 <= i < order.len() && order[i] == target;
            assert(order[i] != target);
        }
        let i = choose|i: int| first_index(order, target, i);
        if i < j {
            assert(order[i] != target);
        }
        if j < i {
            assert(order[j as int] != target);
        }
    }
    j
}

/// The graph node standing for diagram node `u` on level `l`.
pub open spec fn node_for(orig: Seq<int>, glev: Seq<usize>, u: int, l: int) -> int {
    choose|s: int| 0 <= s < orig.len() && orig[s] == u && glev[s] == l
}

/// Some graph node stands for diagram node `u` on level `l`, and
/// `node_for` names it.
pub open spec fn node_for_ok(orig: Seq<int>, glev: Seq<usize>, u: int, l: int) -> bool {
    let s = node_for(orig, glev, u, l);
    0 <= s < orig.len() && orig[s] == u && glev[s] == l
}

/// The levelled graph as the last phase needs it: the diagram nodes keep
/// their levels, each copy lies above its diagram node's level, no two
/// nodes stand for one diagram node on one level, only the terminals lie on
/// level 0, nothing lies above the root, and the node one level below each
/// decision node or copy that feeds it exists.
pub open spec fn levelled_graph(n: Seq<(u16, u32, u32)>, lev: Seq<usize>, orig: Seq<int>, glev: Seq<usize>) -> bool {
    &&& n.len() >= 3
    &&& orig.len() == glev.len()
    &&& n.len() <= orig.len()
    &&& forall|s: int| 0 <= s < n.len() ==> #[trigger] orig[s] == s && glev[s] == lev[s]
    &&& forall|s: int| n.len() <= s < orig.len() ==> 0 <= #[trigger] orig[s] < n.len() && lev[orig[s]] < glev[s]
    &&& forall|s1: int, s2: int|
        0 <= s1 < orig.len() && 0 <= s2 < orig.len() && s1 != s2 && #[trigger] orig[s1]
            == #[trigger] orig[s2] ==> glev[s1] != glev[s2]
    &&& forall|s: int| 0 <= s < orig.len() ==> (#[trigger] glev[s] == 0 <==> s < 2)
    &&& forall|s: int| 0 <= s < orig.len() ==> #[trigger] glev[s] <= lev[n.len() - 1]
    &&& forall|s: int| 0 <= s < orig.len() && s != n.len() - 1 ==> #[trigger] glev[s] < lev[n.len() - 1]
    &&& forall|t: int, w: int|
        2 <= t < n.len() && (w == 0 || w == 1) ==> #[trigger] node_for_ok(orig, glev, child_of(n, t, w), lev[t] - 1)
    &&& forall|s: int| n.len() <= s < orig.len() ==> #[trigger] node_for_ok(orig, glev, orig[s], glev[s] - 1)
}

/// The input that decision node `g` reads: its variable's name, resolved
/// through the aliases, looked up in the input order.
pub open spec fn op_input(
    n: Seq<(u16, u32, u32)>,
    names: Seq<Seq<char>>,
    order: Seq<Seq<char>>,
    pairs: Seq<(Seq<char>, Seq<char>)>,
    g: int,
) -> int {
    input_position(order, dealias(pairs, names[n[g].0 as int]))
}

/// The assignment to the diagram's variables that the inputs `inputs`, in
/// `order`, give: each variable takes the input its name resolves to.
pub open spec fn bdd_inputs(
    names: Seq<Seq<char>>,
    order: Seq<Seq<char>>,
    pairs: Seq<(Seq<char>, Seq<char>)>,
    inputs: Seq<bool>,
) -> Seq<bool> {
    Seq::new(names.len(), |i: int| inputs[input_position(order, dealias(pairs, names[i]))])
}

/// Graph node `g` sits at position `pos[g]` of `level`: a copy as a copy
/// node on the position of the node below it, a decision node as a decision
/// node reading its input and the positions of the nodes below it that stand
/// for its children.
pub open spec fn placed_node(
    level: Seq<Node>,
    pos: Seq<usize>,
    n: Seq<(u16, u32, u32)>,
    names: Seq<Seq<char>>,
    order: Seq<Seq<char>>,
    pairs: Seq<(Seq<char>, Seq<char>)>,
    orig: Seq<int>,
    glev: Seq<usize>,
    g: int,
) -> bool {
    let p = pos[g] as int;
    &&& 0 <= p < level.len()
    &&& if g >= n.len() {
        &&& level[p] is Copy
        &&& pos[node_for(orig, glev, orig[g], glev[g] - 1)] == p
    } else {
        match level[p] {
            Node::OpNode(o) => {
                &&& o.input_index == op_input(n, names, order, pairs, g)
                &&& o.low_index == pos[node_for(orig, glev, child_of(n, g, 0), glev[g] - 1)]
                &&& o.high_index == pos[node_for(orig, glev, child_of(n, g, 1), glev[g] - 1)]
            },
            _ => false,
        }
    }
}

/// Every node on a level from 1 on is in place in that level of `lv`, and
/// the terminals sit at positions 0 and 1.
pub open spec fn placement(
    lv: Seq<Seq<Node>>,
    pos: Seq<usize>,
    n: Seq<(u16, u32, u32)>,
    names: Seq<Seq<char>>,
    order: Seq<Seq<char>>,
    pairs: Seq<(Seq<char>, Seq<char>)>,
    orig: Seq<int>,
    glev: Seq<usize>,
) -> bool {
    &&& pos.len() == orig.len()
    &&& pos[0] == 0
    &&& pos[1] == 1
    &&& forall|g: int|
        0 <= g < orig.len() && 0 < #[trigger] glev[g] <= lv.len() ==> placed_node(
            lv[glev[g] - 1],
            pos,
            n,
            names,
            order,
            pairs,
            orig,
            glev,
            g,
        )
}

/// Running the first `k` levels leaves at the position of every node of
/// level `k` the value of the diagram node it stands for.
pub proof fn lemma_run_placed(
    lv: Seq<Seq<Node>>,
    w: nat,
    pos: Seq<usize>,
    n: Seq<(u16, u32, u32)>,
    names: Seq<Seq<char>>,
    order: Seq<Seq<char>>,
    pairs: Seq<(Seq<char>, Seq<char>)>,
    lev: Seq<usize>,
    orig: Seq<int>,
    glev: Seq<usize>,
    inputs: Seq<bool>,
    k: nat,
)
    requires
        nodes_wf(n),
        names.len() == n[0].0,
        levelled_graph(n, lev, orig, glev),
        placement(lv, pos, n, names, order, pairs, orig, glev),
        w >= 2,
        k <= lv.len(),
        forall|j: int| 0 <= j < lv.len() ==> (#[trigger] lv[j]).len() == w,
        forall|t: int| 2 <= t < n.len() ==> 0 <= #[trigger] op_input(n, names, order, pairs, t) < inputs.len(),
    ensures
        forall|g: int|
            0 <= g < orig.len() && #[trigger] glev[g] == k ==> run_levels(lv, k, initial_state(w), inputs)[pos[g] as int]
                == eval_node(n, orig[g], bdd_inputs(names, order, pairs, inputs)),
    decreases k,
{
    let vv = bdd_inputs(names, order, pairs, inputs);
    if k == 0 {
        assert forall|g: int|
            0 <= g < orig.len() && #[trigger] glev[g] == k implies run_levels(lv, k, initial_state(w), inputs)[pos[g] as int]
                == eval_node(n, orig[g], vv) by {
            assert(g < 2);
            assert(orig[g] == g);
        }
    } else {
        lemma_run_placed(lv, w, pos, n, names, order, pairs, lev, orig, glev, inputs, (k - 1) as nat);
        let prev = run_levels(lv, (k - 1) as nat, initial_state(w), inputs);
        assert(run_levels(lv, k, initial_state(w), inputs) == step_level(lv[k - 1], prev, inputs));
        assert forall|g: int|
            0 <= g < orig.len() && #[trigger] glev[g] == k implies run_levels(lv, k, initial_state(w), inputs)[pos[g] as int]
                == eval_node(n, orig[g], vv) by {
            assert(placed_node(lv[k - 1], pos, n, names, order, pairs, orig, glev, g));
            let p = pos[g] as int;
            if g >= n.len() {
                assert(node_for_ok(orig, glev, orig[g], glev[g] - 1));
                let src = node_for(orig, glev, orig[g], glev[g] - 1);
                assert(glev[src] == k - 1);
            } else {
                assert(orig[g] == g);
                assert(g >= 2);
                assert(glev[g] == lev[g]);
                assert(node_for_ok(orig, glev, child_of(n, g, 0), lev[g] - 1));
                assert(node_for_ok(orig, glev, child_of(n, g, 1), lev[g] - 1));
                let s0 = node_for(orig, glev, child_of(n, g, 0), glev[g] - 1);
                let s1 = node_for(orig, glev, child_of(n, g, 1), glev[g] - 1);
                assert(glev[s0] == k - 1);
                assert(glev[s1] == k - 1);
                assert(n[g].0 < n[0].0);
                assert(vv[n[g].0 as int] == inputs[op_input(n, names, order, pairs, g)]);
                assert(op_input(n, names, order, pairs, g) < inputs.len());
            }
        }
    }
}

/// In the levelised graph every edge climbs exactly one level, and every
/// node above level 0 has an edge from the level below: its levels are the
/// longest-path levels of its edges.
#[verifier::rlimit(40)]
proof fn lemma_levelled_levels(
    edges: Seq<(u32, u32, i32)>,
    n: Seq<(u16, u32, u32)>,
    lev: Seq<usize>,
    orig: Seq<int>,
    glev: Seq<usize>,
)
    requires
        nodes_wf(n),
        bdd_levels(n, lev),
        orig.len() <= u32::MAX,
        levelled_graph(n, lev, orig, glev),
        forall|y: (u32, u32, i32)| #[trigger]
            edges.contains(y) <==> edge_model(n, lev, orig, glev, n.len() as int, Seq::empty(), false, y),
    ensures
        longest_path_levels(edges, glev, orig.len()),
        forall|k: int| 0 <= k < edges.len() ==> glev[(#[trigger] edges[k]).0 as int] + 1 == glev[edges[k].1 as int],
{
    let nn = n.len() as int;
    assert forall|k: int| 0 <= k < edges.len() implies glev[(#[trigger] edges[k]).0 as int] + 1 == glev[edges[k].1 as int]
        && edges[k].0 < orig.len() && edges[k].1 < orig.len() by {
        let y = edges[k];
        assert(edges.contains(y));
        if data_shape(n, y) && !copy_edge(nn, orig, glev, y) {
            let t = y.1 as int;
            assert(n[t].1 < t && n[t].2 < t);
            assert(child_of(n, t, y.2 as int) < nn);
            assert(orig[t] == t);
            assert(glev[t] == lev[t]);
        }
    }
    assert forall|v: int| 0 <= v < orig.len() && #[trigger] glev[v] != 0 implies exists|k: int|
        0 <= k < edges.len() && (#[trigger] edges[k]).1 == v && glev[edges[k].0 as int] + 1 == glev[v] by {
        assert(v >= 2);
        if v < nn {
            assert(orig[v] == v && glev[v] == lev[v]);
            assert(node_for_ok(orig, glev, child_of(n, v, 0), lev[v] - 1));
            let s0 = node_for(orig, glev, child_of(n, v, 0), lev[v] - 1);
            let y = (s0 as u32, v as u32, 0i32);
            assert(levelled_source(n, lev, orig, glev, y));
            assert(edge_model(n, lev, orig, glev, nn, Seq::empty(), false, y));
            assert(edges.contains(y));
            let k = choose|k: int| 0 <= k < edges.len() && edges[k] == y;
            assert(edges[k].1 == v);
        } else {
            assert(node_for_ok(orig, glev, orig[v], glev[v] - 1));
            let s0 = node_for(orig, glev, orig[v], glev[v] - 1);
            let y = (s0 as u32, v as u32, 2i32);
            assert(copy_edge(nn, orig, glev, y));
            assert(edges.contains(y));
            let k = choose|k: int| 0 <= k < edges.len() && edges[k] == y;
            assert(edges[k].1 == v);
        }
    }
    assert(n.len() >= 3);
    assert(orig[nn - 1] == nn - 1);
    assert(glev[nn - 1] == lev[nn - 1]);
    assert(lev[nn - 1] < nn);
    assert forall|v: int| 0 <= v < orig.len() implies #[trigger] glev[v] < orig.len() by {
        assert(glev[v] <= lev[nn - 1]);
    }
}

/// Once every diagram node is levelised, the graph is a `levelled_graph`.
#[verifier::spinoff_prover]
pub proof fn lemma_levelled(
    nodes: Seq<Seq<char>>,
    edges: Seq<(u32, u32, i32)>,
    n: Seq<(u16, u32, u32)>,
    names: Seq<Seq<char>>,
    lev: Seq<usize>,
    orig: Seq<int>,
    glev: Seq<usize>,
    tops: Seq<int>,
    base: Seq<int>,
)
    requires
        nodes_wf(n),
        n.len() >= 3,
        bdd_levels(n, lev),
        forall|u: int| 0 <= u < n.len() ==> #[trigger] tops[u] <= lev[n.len() - 1],
        level_state(nodes, edges, n, names, lev, orig, glev, tops, base, n.len() as int, Seq::empty(), false),
    ensures
        levelled_graph(n, lev, orig, glev),
{
    let nn = n.len() as int;
    let r = nn - 1;
    assert forall|u: int| 0 <= u < nn implies #[trigger] lev[u] <= lev[r] && (u != r ==> lev[u] < lev[r]) by {
        if u != r {
            lemma_root_highest(n, lev, u);
        }
    }
    assert forall|s: int| 0 <= s < orig.len() implies (#[trigger] glev[s] == 0 <==> s < 2) && glev[s] <= lev[r]
        && (s != r ==> glev[s] < lev[r]) by {
        if s < nn {
            assert(orig[s] == s);
            if 2 <= s {
                assert(lev[child_of(n, s, 0)] + 1 <= lev[s]);
            }
        } else {
            let u = orig[s];
            assert(0 <= u < nn && lev[u] < glev[s] && glev[s] < tops[u]);
            assert(tops[u] <= lev[r]);
        }
    }
    assert forall|t: int, w: int|
        2 <= t < nn && (w == 0 || w == 1) implies #[trigger] node_for_ok(orig, glev, child_of(n, t, w), lev[t] - 1) by {
        let c = child_of(n, t, w);
        let l = lev[t] - 1;
        assert(lev[c] + 1 <= lev[t]);
        assert(lev[t] <= tops[c]);
        if l == lev[c] {
            assert(orig[c] == c);
        } else {
            let s = copy_index(base, lev, c, l);
            assert(orig[s] == c && glev[s] == l);
        }
    }
    assert forall|s: int| nn <= s < orig.len() implies #[trigger] node_for_ok(orig, glev, orig[s], glev[s] - 1) by {
        let u = orig[s];
        let l = glev[s] - 1;
        if l == lev[u] {
            assert(orig[u] == u);
        } else {
            let s2 = copy_index(base, lev, u, l);
            assert(orig[s2] == u && glev[s2] == l);
        }
    }
}

/// The edges into a node of the levelised graph: a copy has exactly one,
/// of weight 2, from the node one level below standing for the same diagram
/// node; a decision node has exactly two, of weights 0 and 1, from the nodes
/// one level below standing for its low and high child.
pub proof fn lemma_incoming(
    edges: Seq<(u32, u32, i32)>,
    n: Seq<(u16, u32, u32)>,
    lev: Seq<usize>,
    orig: Seq<int>,
    glev: Seq<usize>,
    inc: Seq<(u32, u32, i32)>,
    g: int,
)
    requires
        levelled_graph(n, lev, orig, glev),
        edges.no_duplicates(),
        forall|y: (u32, u32, i32)| #[trigger]
            edges.contains(y) <==> edge_model(n, lev, orig, glev, n.len() as int, Seq::empty(), false, y),
        2 <= g < orig.len(),
        orig.len() <= u32::MAX,
        forall|i: int|
            0 <= i < inc.len() ==> (#[trigger] inc[i]).0 < edges.len() && edges[inc[i].0 as int] == (
                inc[i].1,
                g as u32,
                inc[i].2,
            ),
        forall|k: int|
            0 <= k < edges.len() && (#[trigger] edges[k]).1 == g ==> exists|i: int|
                0 <= i < inc.len() && (#[trigger] inc[i]).0 == k,
        forall|i: int, j: int| 0 <= i < j < inc.len() ==> (#[trigger] inc[i]).0 != (#[trigger] inc[j]).0,
    ensures
        g >= n.len() ==> {
            &&& inc.len() == 1
            &&& inc[0].2 == 2
            &&& inc[0].1 == node_for(orig, glev, orig[g], glev[g] - 1)
        },
        g < n.len() ==> {
            &&& inc.len() == 2
            &&& (inc[0].2 == 0 && inc[1].2 == 1) || (inc[0].2 == 1 && inc[1].2 == 0)
            &&& forall|i: int|
                0 <= i < 2 ==> (#[trigger] inc[i]).1 == node_for(orig, glev, child_of(n, g, inc[i].2 as int), lev[g] - 1)
        },
{
    let nn = n.len() as int;
    let empty = Seq::<(u32, u32, i32)>::empty();
    assert(g < nn ==> orig[g] == g && glev[g] == lev[g]);
    // every listed edge is one of the edges that the model allows into `g`
    assert forall|i: int| 0 <= i < inc.len() implies if g >= nn {
        (#[trigger] inc[i]).2 == 2 && inc[i].1 == node_for(orig, glev, orig[g], glev[g] - 1)
    } else {
        (inc[i].2 == 0 || inc[i].2 == 1) && inc[i].1 == node_for(orig, glev, child_of(n, g, inc[i].2 as int), lev[g] - 1)
    } by {
        let y = edges[inc[i].0 as int];
        assert(edges.contains(y));
        assert(edge_model(n, lev, orig, glev, nn, empty, false, y));
        if g >= nn {
            assert(node_for_ok(orig, glev, orig[g], glev[g] - 1));
            let s = node_for(orig, glev, orig[g], glev[g] - 1);
            if y.0 != s {
                assert(orig[y.0 as int] == orig[s]);
            }
        } else {
            assert(orig[g] == g && glev[g] == lev[g]);
            let c = child_of(n, g, y.2 as int);
            assert(node_for_ok(orig, glev, c, lev[g] - 1));
            let s = node_for(orig, glev, c, lev[g] - 1);
            if y.0 != s {
                assert(orig[y.0 as int] == orig[s]);
            }
        }
    }
    // two listed edges with the same weight would be the same edge
    assert forall|i: int, j: int| 0 <= i < inc.len() && 0 <= j < inc.len() && i != j implies (#[trigger] inc[i]).2
        != (#[trigger] inc[j]).2 by {
        if inc[i].2 == inc[j].2 {
            assert(edges[inc[i].0 as int] == edges[inc[j].0 as int]);
            if i < j {
                assert(inc[i].0 != inc[j].0);
            } else {
                assert(inc[j].0 != inc[i].0);
            }
        }
    }
    if g >= nn {
        assert(node_for_ok(orig, glev, orig[g], glev[g] - 1));
        let y = (node_for(orig, glev, orig[g], glev[g] - 1) as u32, g as u32, 2i32);
        assert(copy_edge(nn, orig, glev, y));
        assert(edges.contains(y));
        let k = choose|k: int| 0 <= k < edges.len() && edges[k] == y;
        let i = choose|i: int| 0 <= i < inc.len() && (#[trigger] inc[i]).0 == k;
        if inc.len() > 1 {
            let j = if i == 0 { 1int } else { 0int };
            assert(inc[i].2 != inc[j].2);
        }
    } else {
        assert(node_for_ok(orig, glev, child_of(n, g, 0), lev[g] - 1));
        assert(node_for_ok(orig, glev, child_of(n, g, 1), lev[g] - 1));
        let y0 = (node_for(orig, glev, child_of(n, g, 0), lev[g] - 1) as u32, g as u32, 0i32);
        let y1 = (node_for(orig, glev, child_of(n, g, 1), lev[g] - 1) as u32, g as u32, 1i32);
        assert(levelled_source(n, lev, orig, glev, y0));
        assert(levelled_source(n, lev, orig, glev, y1));
        assert(edges.contains(y0));
        assert(edges.contains(y1));
        let k0 = choose|k: int| 0 <= k < edges.len() && edges[k] == y0;
        let k1 = choose|k: int| 0 <= k < edges.len() && edges[k] == y1;
        let i0 = choose|i: int| 0 <= i < inc.len() && (#[trigger] inc[i]).0 == k0;
        let i1 = choose|i: int| 0 <= i < inc.len() && (#[trigger] inc[i]).0 == k1;
        assert(inc[i0].2 == 0 && inc[i1].2 == 1);
        if inc.len() > 2 {
            let j = if i0 != 0 && i1 != 0 { 0int } else if i0 != 1 && i1 != 1 { 1int } else { 2int };
            assert(inc[j].2 == 0 || inc[j].2 == 1);
            assert(inc[j].2 != inc[i0].2);
            assert(inc[j].2 != inc[i1].2);
        }
    }
}

/// `members` lists each node of level `l` once.
pub open spec fn level_members(members: Seq<u32>, glev: Seq<usize>, l: int) -> bool {
    &&& members.no_duplicates()
    &&& forall|i: int| 0 <= i < members.len() ==> (#[trigger] members[i]) < glev.len() && glev[members[i] as int] == l
    &&& forall|g: int| 0 <= g < glev.len() && #[trigger] glev[g] == l ==> members.contains(g as u32)
}

/// The nodes of level `l` have distinct positions below `width`.
pub open spec fn level_positions(pos: Seq<usize>, glev: Seq<usize>, l: int, width: int) -> bool {
    &&& forall|g: int| 0 <= g < glev.len() && #[trigger] glev[g] == l ==> pos[g] < width
    &&& forall|g1: int, g2: int|
        0 <= g1 < glev.len() && 0 <= g2 < glev.len() && g1 != g2 && #[trigger] glev[g1] == l && #[trigger] glev[g2]
            == l ==> pos[g1] != pos[g2]
}

/// Every decision node of `level` reads an existing input and existing
/// positions.
pub open spec fn level_wf(level: Seq<Node>, n_inputs: int, width: int) -> bool {
    forall|p: int|
        0 <= p < level.len() ==> match #[trigger] level[p] {
            Node::OpNode(o) => o.input_index < n_inputs && o.high_index < width && o.low_index < width,
            _ => true,
        }
}

/// Level `l` is being filled in: the members marked `placed` sit at distinct
/// taken positions, in place; a taken position holds a placed member; the
/// positions of the other nodes are those of `pos0`.
pub open spec fn level_progress(
    level: Seq<Node>,
    taken: Seq<bool>,
    pos: Seq<usize>,
    pos0: Seq<usize>,
    members: Seq<u32>,
    placed: Seq<bool>,
    width: int,
    n_inputs: int,
    n: Seq<(u16, u32, u32)>,
    names: Seq<Seq<char>>,
    order: Seq<Seq<char>>,
    pairs: Seq<(Seq<char>, Seq<char>)>,
    orig: Seq<int>,
    glev: Seq<usize>,
    l: int,
) -> bool {
    &&& level.len() == width
    &&& taken.len() == width
    &&& placed.len() == members.len()
    &&& pos.len() == orig.len()
    &&& pos0.len() == orig.len()
    &&& forall|g: int| 0 <= g < orig.len() && #[trigger] glev[g] != l ==> pos[g] == pos0[g]
    &&& forall|j: int|
        0 <= j < members.len() && #[trigger] placed[j] ==> pos[members[j] as int] < width && taken[pos[members[j] as int] as int]
            && placed_node(level, pos, n, names, order, pairs, orig, glev, members[j] as int)
    &&& forall|p: int|
        0 <= p < width && #[trigger] taken[p] ==> exists|j: int|
            0 <= j < members.len() && #[trigger] placed[j] && pos[members[j] as int] == p
    &&& forall|p: int| 0 <= p < width && !#[trigger] taken[p] ==> level[p] is Vacant
    &&& forall|j1: int, j2: int|
        0 <= j1 < members.len() && 0 <= j2 < members.len() && j1 != j2 && #[trigger] placed[j1] && #[trigger] placed[j2]
            ==> pos[members[j1] as int] != pos[members[j2] as int]
    &&& level_wf(level, n_inputs, width)
}

/// Placing an unplaced member at a free position keeps the level in
/// progress.
pub proof fn lemma_place(
    level: Seq<Node>,
    taken: Seq<bool>,
    pos: Seq<usize>,
    pos0: Seq<usize>,
    members: Seq<u32>,
    placed: Seq<bool>,
    width: int,
    n_inputs: int,
    n: Seq<(u16, u32, u32)>,
    names: Seq<Seq<char>>,
    order: Seq<Seq<char>>,
    pairs: Seq<(Seq<char>, Seq<char>)>,
    lev: Seq<usize>,
    orig: Seq<int>,
    glev: Seq<usize>,
    l: int,
    i: int,
    p: int,
    x: Node,
)
    requires
        level_progress(level, taken, pos, pos0, members, placed, width, n_inputs, n, names, order, pairs, orig, glev, l),
        levelled_graph(n, lev, orig, glev),
        level_members(members, glev, l),
        l >= 1,
        0 <= i < members.len(),
        !placed[i],
        0 <= p < width,
        width <= usize::MAX,
        !taken[p],
        placed_node(
            level.update(p, x),
            pos.update(members[i] as int, p as usize),
            n,
            names,
            order,
            pairs,
            orig,
            glev,
            members[i] as int,
        ),
        match x {
            Node::OpNode(o) => o.input_index < n_inputs && o.high_index < width && o.low_index < width,
            _ => true,
        },
    ensures
        level_progress(
            level.update(p, x),
            taken.update(p, true),
            pos.update(members[i] as int, p as usize),
            pos0,
            members,
            placed.update(i, true),
            width,
            n_inputs,
            n,
            names,
            order,
            pairs,
            orig,
            glev,
            l,
        ),
{
    let g = members[i] as int;
    let level2 = level.update(p, x);
    let taken2 = taken.update(p, true);
    let pos2 = pos.update(g, p as usize);
    let placed2 = placed.update(i, true);
    assert(glev[g] == l);
    assert forall|j: int|
        0 <= j < members.len() && #[trigger] placed2[j] implies pos2[members[j] as int] < width && taken2[pos2[members[j] as int] as int]
            && placed_node(level2, pos2, n, names, order, pairs, orig, glev, members[j] as int) by {
        if j != i {
            let h = members[j] as int;
            assert(placed[j]);
            assert(members[j] != members[i]);
            assert(pos2[h] == pos[h]);
            assert(pos[h] != p);
            assert(placed_node(level, pos, n, names, order, pairs, orig, glev, h));
            assert(glev[h] == l);
            if h >= n.len() {
                assert(node_for_ok(orig, glev, orig[h], glev[h] - 1));
                assert(node_for(orig, glev, orig[h], glev[h] - 1) != g);
            } else {
                assert(2 <= h) by {
                    assert(glev[h] != 0);
                }
                assert(0 <= h < n.len());
                assert(orig[h] == h);
                assert(glev[h] == lev[h]);
                assert(node_for_ok(orig, glev, child_of(n, h, 0), lev[h] - 1));
                assert(node_for_ok(orig, glev, child_of(n, h, 1), lev[h] - 1));
                assert(node_for(orig, glev, child_of(n, h, 0), glev[h] - 1) != g);
                assert(node_for(orig, glev, child_of(n, h, 1), glev[h] - 1) != g);
            }
        }
    }
    assert forall|q: int|
        0 <= q < width && #[trigger] taken2[q] implies exists|j: int|
            0 <= j < members.len() && #[trigger] placed2[j] && pos2[members[j] as int] == q by {
        if q == p {
            assert(placed2[i] && pos2[g] == q);
        } else {
            let j = choose|j: int| 0 <= j < members.len() && #[trigger] placed[j] && pos[members[j] as int] == q;
            assert(j != i);
            assert(members[j] != members[i]);
            assert(placed2[j] && pos2[members[j] as int] == q);
        }
    }
    assert forall|j1: int, j2: int|
        0 <= j1 < members.len() && 0 <= j2 < members.len() && j1 != j2 && #[trigger] placed2[j1] && #[trigger] placed2[j2]
            implies pos2[members[j1] as int] != pos2[members[j2] as int] by {
        assert(members[j1] != members[j2]);
        if j1 == i {
            assert(placed[j2]);
        } else if j2 == i {
            assert(placed[j1]);
        } else {
            assert(placed[j1] && placed[j2]);
        }
    }
    assert forall|h: int| 0 <= h < orig.len() && #[trigger] glev[h] != l implies pos2[h] == pos0[h] by {
    }
    assert forall|q: int| 0 <= q < level2.len() implies match #[trigger] level2[q] {
        Node::OpNode(o) => o.input_index < n_inputs && o.high_index < width && o.low_index < width,
        _ => true,
    } by {
        if q != p {
            assert(level2[q] == level[q]);
        }
    }
}

/// While some member is unplaced, some position is free.
pub proof fn lemma_free_position(
    taken: Seq<bool>,
    pos: Seq<usize>,
    members: Seq<u32>,
    placed: Seq<bool>,
    width: int,
    i: int,
)
    requires
        taken.len() == width,
        placed.len() == members.len(),
        members.len() <= width,
        0 <= i < members.len(),
        !placed[i],
        forall|p: int|
            0 <= p < width && #[trigger] taken[p] ==> exists|j: int|
                0 <= j < members.len() && #[trigger] placed[j] && pos[members[j] as int] == p,
    ensures
        exists|p: int| 0 <= p < width && !taken[p],
{
    if forall|p: int| 0 <= p < width ==> taken[p] {
        let owner = |p: int|
            choose|j: int| 0 <= j < members.len() && #[trigger] placed[j] && pos[members[j] as int] == p;
        let f = |p: int| if owner(p) > i { owner(p) - 1 } else { owner(p) };
        assert forall|p: int| 0 <= p < width implies 0 <= #[trigger] f(p) < members.len() - 1 by {
            assert(taken[p]);
            let j = owner(p);
            assert(placed[j]);
            assert(j != i);
        }
        assert forall|p: int, q: int| 0 <= p < width && 0 <= q < width && p != q implies #[trigger] f(p)
            != #[trigger] f(q) by {
            assert(taken[p] && taken[q]);
            let jp = owner(p);
            let jq = owner(q);
            assert(pos[members[jp] as int] == p);
            assert(pos[members[jq] as int] == q);
            assert(jp != i && jq != i);
        }
        lemma_pigeonhole(f, width, members.len() - 1);
    }
}

/// The levelised graph that the last phase reads.
pub open spec fn levelled_state(
    nodes: Seq<Seq<char>>,
    edges: Seq<(u32, u32, i32)>,
    n: Seq<(u16, u32, u32)>,
    names: Seq<Seq<char>>,
    lev: Seq<usize>,
    orig: Seq<int>,
    glev: Seq<usize>,
) -> bool {
    &&& levelled_graph(n, lev, orig, glev)
    &&& nodes.len() == orig.len()
    &&& orig.len() <= u32::MAX
    &&& forall|s: int| 2 <= s < n.len() ==> #[trigger] nodes[s] == names[n[s].0 as int]
    &&& edges.no_duplicates()
    &&& forall|y: (u32, u32, i32)| #[trigger]
        edges.contains(y) <==> edge_model(n, lev, orig, glev, n.len() as int, Seq::empty(), false, y)
}

/// Every decision node's variable name resolves to a name in the input
/// order.
pub open spec fn inputs_named(
    n: Seq<(u16, u32, u32)>,
    names: Seq<Seq<char>>,
    order: Seq<Seq<char>>,
    pairs: Seq<(Seq<char>, Seq<char>)>,
) -> bool {
    forall|t: int| 2 <= t < n.len() ==> order.contains(dealias(pairs, names[(#[trigger] n[t]).0 as int]))
}

/// Lays out level `l` of the levelised graph: every copy takes the position
/// of the node below it, then every decision node takes the first free
/// position and reads its input and the positions of its children's nodes
/// one level below.
fn build_level(
    graph: &Graph<String, i32>,
    members: &Vec<u32>,
    pos: &mut Vec<usize>,
    width: usize,
    input_order: &[String],
    alias_map: Option<&Vec<(String, String)>>,
    l: usize,
    Ghost(n): Ghost<Seq<(u16, u32, u32)>>,
    Ghost(names): Ghost<Seq<Seq<char>>>,
    Ghost(lev): Ghost<Seq<usize>>,
    Ghost(orig): Ghost<Seq<int>>,
    Ghost(glev): Ghost<Seq<usize>>,
) -> (level: Vec<Node>)
    requires
        levelled_state(graph_nodes(*graph), graph_edges(*graph), n, names, lev, orig, glev),
        level_members(members@, glev, l as int),
        l >= 1,
        members@.len() <= width,
        old(pos)@.len() == orig.len(),
        level_positions(old(pos)@, glev, l - 1, width as int),
        inputs_named(n, names, strings_view(input_order@), alias_view(alias_map)),
    ensures
        level@.len() == width,
        final(pos)@.len() == orig.len(),
        forall|g: int| 0 <= g < orig.len() && #[trigger] glev[g] != l ==> final(pos)@[g] == old(pos)@[g],
        forall|g: int|
            0 <= g < orig.len() && #[trigger] glev[g] == l ==> placed_node(
                level@,
                final(pos)@,
                n,
                names,
                strings_view(input_order@),
                alias_view(alias_map),
                orig,
                glev,
                g,
            ),
        level_positions(final(pos)@, glev, l as int, width as int),
        level_wf(level@, input_order@.len() as int, width as int),
        forall|q: int|
            0 <= q < width && !(#[trigger] level@[q] is Vacant) ==> exists|g: int|
                0 <= g < orig.len() && #[trigger] glev[g] == l && final(pos)@[g] == q,
{
    let ghost order = strings_view(input_order@);
    let ghost pairs = alias_view(alias_map);
    let ghost ni = input_order@.len() as int;
    let ghost nn = n.len() as int;
    let mut level: Vec<Node> = Vec::new();
    let mut taken: Vec<bool> = Vec::new();
    let mut p: usize = 0;
    while p < width
        invariant
            p <= width,
            level@.len() == p,
            taken@.len() == p,
            forall|q: int| 0 <= q < p ==> (#[trigger] level@[q]) is Vacant,
            forall|q: int| 0 <= q < p ==> !#[trigger] taken@[q],
        decreases width - p,
    {
        level.push(Node::Vacant);
        taken.push(false);
        p = p + 1;
    }
    let ghost pos0 = pos@;
    let ghost mut placed = Seq::new(members@.len(), |j: int| false);
    proof {
        assert(level_wf(level@, ni, width as int));
        assert forall|j: int| 0 <= j < members@.len() implies !#[trigger] placed[j] by {}
        assert(level_progress(level@, taken@, pos@, pos0, members@, placed, width as int, ni, n, names, order, pairs, orig, glev, l as int));
    }
    // handle copy nodes
    let mut i: usize = 0;
    while i < members.len()
        invariant
            i <= members@.len(),
            order == strings_view(input_order@),
            pairs == alias_view(alias_map),
            ni == input_order@.len(),
            nn == n.len(),
            l >= 1,
            members@.len() <= width,
            levelled_state(graph_nodes(*graph), graph_edges(*graph), n, names, lev, orig, glev),
            level_members(members@, glev, l as int),
            level_positions(pos0, glev, l - 1, width as int),
            level_progress(level@, taken@, pos@, pos0, members@, placed, width as int, ni, n, names, order, pairs, orig, glev, l as int),
            forall|j: int| 0 <= j < members@.len() ==> (#[trigger] placed[j] <==> (j < i && members@[j] >= nn)),
        decreases members@.len() - i,
    {
        let g = members[i];
        let inc = graph_incoming(graph, g);
        proof {
            assert(glev[g as int] == l);
            assert(g >= 2) by {
                assert(glev[g as int] != 0);
            }
            lemma_incoming(graph_edges(*graph), n, lev, orig, glev, inc@, g as int);
        }
        if inc.len() == 1 {
            let parent = inc[0].1;
            let ghost src = node_for(orig, glev, orig[g as int], glev[g as int] - 1);
            proof {
                assert(g >= nn);
                assert(node_for_ok(orig, glev, orig[g as int], glev[g as int] - 1));
                assert(parent == src);
                assert(glev[src] == l - 1);
                assert(pos@[src] == pos0[src]);
            }
            let p = pos[parent as usize];
            proof {
                assert(p < width);
                if taken@[p as int] {
                    let j = choose|j: int|
                        0 <= j < members@.len() && #[trigger] placed[j] && pos@[members@[j] as int] == p;
                    let h = members@[j] as int;
                    assert(placed_node(level@, pos@, n, names, order, pairs, orig, glev, h));
                    assert(h >= nn);
                    assert(node_for_ok(orig, glev, orig[h], glev[h] - 1));
                    let src2 = node_for(orig, glev, orig[h], glev[h] - 1);
                    assert(glev[h] == l);
                    assert(glev[src2] == l - 1);
                    assert(pos@[src2] == pos0[src2]);
                    assert(src2 == src);
                    assert(orig[h] == orig[g as int]);
                    assert(h == g);
                    assert(members@[j] == members@[i as int]);
                    assert(j == i);
                }
            }
            let tag = match graph_node_weight(graph, g) {
                Some(w) => w,
                None => String::new(),
            };
            let x = Node::Copy(CopyNode::new(tag, parent, g, p));
            proof {
                assert(pos@.update(g as int, p)[src] == p);
                lemma_place(
                    level@,
                    taken@,
                    pos@,
                    pos0,
                    members@,
                    placed,
                    width as int,
                    ni,
                    n,
                    names,
                    order,
                    pairs,
                    lev,
                    orig,
                    glev,
                    l as int,
                    i as int,
                    p as int,
                    x,
                );
                placed = placed.update(i as int, true);
            }
            level.set(p, x);
            taken.set(p, true);
            pos.set(g as usize, p);
        }
        i = i + 1;
    }
    // handle the decision nodes
    let mut i: usize = 0;
    while i < members.len()
        invariant
            i <= members@.len(),
            order == strings_view(input_order@),
            pairs == alias_view(alias_map),
            ni == input_order@.len(),
            nn == n.len(),
            l >= 1,
            members@.len() <= width,
            levelled_state(graph_nodes(*graph), graph_edges(*graph), n, names, lev, orig, glev),
            level_members(members@, glev, l as int),
            level_positions(pos0, glev, l - 1, width as int),
            inputs_named(n, names, order, pairs),
            level_progress(level@, taken@, pos@, pos0, members@, placed, width as int, ni, n, names, order, pairs, orig, glev, l as int),
            forall|j: int| 0 <= j < members@.len() ==> (#[trigger] placed[j] <==> (j < i || members@[j] >= nn)),
        decreases members@.len() - i,
    {
        let g = members[i];
        let inc = graph_incoming(graph, g);
        proof {
            assert(glev[g as int] == l);
            assert(g >= 2) by {
                assert(glev[g as int] != 0);
            }
            lemma_incoming(graph_edges(*graph), n, lev, orig, glev, inc@, g as int);
        }
        if inc.len() == 2 {
            let (low_node, high_node) = if inc[0].2 == 0 {
                (inc[0].1, inc[1].1)
            } else {
                (inc[1].1, inc[0].1)
            };
            let ghost s0 = node_for(orig, glev, child_of(n, g as int, 0), lev[g as int] - 1);
            let ghost s1 = node_for(orig, glev, child_of(n, g as int, 1), lev[g as int] - 1);
            proof {
                assert(g < nn);
                assert(orig[g as int] == g && glev[g as int] == lev[g as int]);
                assert(node_for_ok(orig, glev, child_of(n, g as int, 0), lev[g as int] - 1));
                assert(node_for_ok(orig, glev, child_of(n, g as int, 1), lev[g as int] - 1));
                assert(inc@[0].1 == node_for(orig, glev, child_of(n, g as int, inc@[0].2 as int), lev[g as int] - 1));
                assert(inc@[1].1 == node_for(orig, glev, child_of(n, g as int, inc@[1].2 as int), lev[g as int] - 1));
                assert(low_node == s0 && high_node == s1);
                assert(pos@[s0] == pos0[s0] && pos@[s1] == pos0[s1]);
                assert(!placed[i as int]);
                lemma_free_position(taken@, pos@, members@, placed, width as int, i as int);
            }
            let mut p: usize = 0;
            while p < width && taken[p]
                invariant
                    p <= width,
                    taken@.len() == width,
                    exists|q: int| 0 <= q < width && !taken@[q],
                    forall|q: int| 0 <= q < p ==> #[trigger] taken@[q],
                decreases width - p,
            {
                p = p + 1;
            }
            proof {
                if p == width {
                    let q = choose|q: int| 0 <= q < width && !taken@[q];
                    assert(taken@[q]);
                }
            }
            let tag = match graph_node_weight(graph, g) {
                Some(w) => w,
                None => String::new(),
            };
            proof {
                assert(tag@ == names[n[g as int].0 as int]);
                assert(order.contains(dealias(pairs, names[n[g as int].0 as int])));
            }
            let input_index = translate_node_tag_to_input_index(&tag, input_order, alias_map);
            let high_index = pos[high_node as usize];
            let low_index = pos[low_node as usize];
            let x = Node::OpNode(
                OpNode::new(tag, g, high_node, low_node, p, high_index, low_index, input_index),
            );
            proof {
                assert(pos@.update(g as int, p)[s0] == low_index);
                assert(pos@.update(g as int, p)[s1] == high_index);
                assert(glev[s0] == l - 1 && glev[s1] == l - 1);
                lemma_place(
                    level@,
                    taken@,
                    pos@,
                    pos0,
                    members@,
                    placed,
                    width as int,
                    ni,
                    n,
                    names,
                    order,
                    pairs,
                    lev,
                    orig,
                    glev,
                    l as int,
                    i as int,
                    p as int,
                    x,
                );
                placed = placed.update(i as int, true);
            }
            level.set(p, x);
            taken.set(p, true);
            pos.set(g as usize, p);
        }
        proof {
            assert forall|j: int| 0 <= j < members@.len() implies (#[trigger] placed[j] <==> (j < i + 1 || members@[j] >= nn)) by {
                if j == i && members@[j] >= nn {
                    assert(placed[j]);
                }
            }
        }
        i = i + 1;
    }
    proof {
        assert forall|g: int|
            0 <= g < orig.len() && #[trigger] glev[g] == l implies placed_node(level@, pos@, n, names, order, pairs, orig, glev, g) && pos@[g] < width by {
            assert(members@.contains(g as u32));
            let j = choose|j: int| 0 <= j < members@.len() && members@[j] == g as u32;
            assert(placed[j]);
        }
        assert forall|g1: int, g2: int|
            0 <= g1 < glev.len() && 0 <= g2 < glev.len() && g1 != g2 && #[trigger] glev[g1] == l && #[trigger] glev[g2]
                == l implies pos@[g1] != pos@[g2] by {
            assert(members@.contains(g1 as u32));
            assert(members@.contains(g2 as u32));
            let j1 = choose|j: int| 0 <= j < members@.len() && members@[j] == g1 as u32;
            let j2 = choose|j: int| 0 <= j < members@.len() && members@[j] == g2 as u32;
            assert(placed[j1] && placed[j2]);
        }
        assert forall|q: int|
            0 <= q < width && !(#[trigger] level@[q] is Vacant) implies exists|g: int|
                0 <= g < orig.len() && #[trigger] glev[g] == l && pos@[g] == q by {
            assert(taken@[q]);
            let j = choose|j: int| 0 <= j < members@.len() && #[trigger] placed[j] && pos@[members@[j] as int] == q;
            let g = members@[j] as int;
            assert(0 <= g < orig.len() && glev[g] == l && pos@[g] == q);
        }
    }
    level
}

/// The graph nodes on level `l`, in increasing order.
fn nodes_at_level(glev: &Vec<usize>, l: usize) -> (r: Vec<u32>)
    requires
        glev@.len() <= u32::MAX,
    ensures
        level_members(r@, glev@, l as int),
{
    let mut r: Vec<u32> = Vec::new();
    let mut g: usize = 0;
    while g < glev.len()
        invariant
            g <= glev@.len(),
            glev@.len() <= u32::MAX,
            forall|i: int, j: int| 0 <= i < j < r@.len() ==> (#[trigger] r@[i]) < (#[trigger] r@[j]),
            forall|i: int| 0 <= i < r@.len() ==> (#[trigger] r@[i]) < g && glev@[r@[i] as int] == l,
            forall|h: int| 0 <= h < g && #[trigger] glev@[h] == l ==> r@.contains(h as u32),
        decreases glev@.len() - g,
    {
        if glev[g] == l {
            let ghost before = r@;
            r.push(g as u32);
            proof {
                assert forall|h: int| 0 <= h < g + 1 && #[trigger] glev@[h] == l implies r@.contains(h as u32) by {
                    if h < g {
                        let i = choose|i: int| 0 <= i < before.len() && before[i] == h as u32;
                        assert(r@[i] == h as u32);
                    } else {
                        assert(r@[r@.len() - 1] == h as u32);
                    }
                }
            }
        }
        g = g + 1;
    }
    proof {
        assert forall|i: int, j: int| 0 <= i < r@.len() && 0 <= j < r@.len() && i != j implies r@[i] != r@[j] by {
            if i < j {
                assert(r@[i] < r@[j]);
            } else {
                assert(r@[j] < r@[i]);
            }
        }
    }
    r
}

/// A name that occurs in a sequence has a first occurrence.
pub proof fn lemma_first_index_exists(s: Seq<Seq<char>>, x: Seq<char>)
    requires
        s.contains(x),
    ensures
        first_index(s, x, input_position(s, x)),
    decreases s.len(),
{
    if s[0] == x {
        assert(first_index(s, x, 0));
    } else {
        let t = s.drop_first();
        let i = choose|i: int| 0 <= i < s.len() && s[i] == x;
        assert(t[i - 1] == x);
        lemma_first_index_exists(t, x);
        let j = input_position(t, x);
        assert forall|k: int| 0 <= k < j + 1 implies #[trigger] s[k] != x by {
            if k > 0 {
                assert(s[k] == t[k - 1]);
            }
        }
        assert(first_index(s, x, j + 1));
    }
}

/// The top level of the circuit: the root alone, at position 0, reading the
/// positions of the nodes below it that stand for its children.
fn build_root_level(
    graph: &Graph<String, i32>,
    root: u32,
    pos: &mut Vec<usize>,
    width: usize,
    input_order: &[String],
    alias_map: Option<&Vec<(String, String)>>,
    Ghost(n): Ghost<Seq<(u16, u32, u32)>>,
    Ghost(names): Ghost<Seq<Seq<char>>>,
    Ghost(lev): Ghost<Seq<usize>>,
    Ghost(orig): Ghost<Seq<int>>,
    Ghost(glev): Ghost<Seq<usize>>,
) -> (level: Vec<Node>)
    requires
        levelled_state(graph_nodes(*graph), graph_edges(*graph), n, names, lev, orig, glev),
        root == n.len() - 1,
        width >= 2,
        old(pos)@.len() == orig.len(),
        level_positions(old(pos)@, glev, lev[root as int] - 1, width as int),
        inputs_named(n, names, strings_view(input_order@), alias_view(alias_map)),
    ensures
        level@.len() == width,
        final(pos)@ == old(pos)@.update(root as int, 0),
        placed_node(
            level@,
            final(pos)@,
            n,
            names,
            strings_view(input_order@),
            alias_view(alias_map),
            orig,
            glev,
            root as int,
        ),
        level_wf(level@, input_order@.len() as int, width as int),
        level@[0] matches Node::OpNode(o) && o.output_pos == 0 && o.input_index == op_input(
            n,
            names,
            strings_view(input_order@),
            alias_view(alias_map),
            root as int,
        ),
        forall|q: int| 1 <= q < level@.len() ==> #[trigger] level@[q] is Vacant,
{
    let ghost order = strings_view(input_order@);
    let ghost pairs = alias_view(alias_map);
    let ghost nn = n.len() as int;
    let g = root;
    let inc = graph_incoming(graph, g);
    proof {
        assert(orig[g as int] == g && glev[g as int] == lev[g as int]);
        lemma_incoming(graph_edges(*graph), n, lev, orig, glev, inc@, g as int);
    }
    let (low_node, high_node) = if inc[0].2 == 0 {
        (inc[0].1, inc[1].1)
    } else {
        (inc[1].1, inc[0].1)
    };
    let ghost s0 = node_for(orig, glev, child_of(n, g as int, 0), lev[g as int] - 1);
    let ghost s1 = node_for(orig, glev, child_of(n, g as int, 1), lev[g as int] - 1);
    proof {
        assert(node_for_ok(orig, glev, child_of(n, g as int, 0), lev[g as int] - 1));
        assert(node_for_ok(orig, glev, child_of(n, g as int, 1), lev[g as int] - 1));
        assert(inc@[0].1 == node_for(orig, glev, child_of(n, g as int, inc@[0].2 as int), lev[g as int] - 1));
        assert(inc@[1].1 == node_for(orig, glev, child_of(n, g as int, inc@[1].2 as int), lev[g as int] - 1));
        assert(low_node == s0 && high_node == s1);
        assert(glev[s0] == lev[g as int] - 1 && glev[s1] == lev[g as int] - 1);
    }
    let tag = match graph_node_weight(graph, g) {
        Some(w) => w,
        None => String::new(),
    };
    proof {
        assert(tag@ == names[n[g as int].0 as int]);
        assert(order.contains(dealias(pairs, names[n[g as int].0 as int])));
    }
    let input_index = translate_node_tag_to_input_index(&tag, input_order, alias_map);
    let high_index = pos[high_node as usize];
    let low_index = pos[low_node as usize];
    let mut level: Vec<Node> = Vec::new();
    let mut p: usize = 0;
    while p < width
        invariant
            p <= width,
            level@.len() == p,
            forall|q: int| 0 <= q < p ==> (#[trigger] level@[q]) is Vacant,
        decreases width - p,
    {
        level.push(Node::Vacant);
        p = p + 1;
    }
    let x = Node::OpNode(OpNode::new(tag, g, high_node, low_node, 0, high_index, low_index, input_index));
    level.set(0, x);
    pos.set(g as usize, 0);
    proof {
        assert(s0 != g && s1 != g);
        assert(pos@[s0] == low_index && pos@[s1] == high_index);
        assert forall|q: int| 0 <= q < level@.len() implies match #[trigger] level@[q] {
            Node::OpNode(o) => o.input_index < input_order@.len() && o.high_index < width && o.low_index < width,
            _ => true,
        } by {
            if q == 0 {
                assert(first_index(order, dealias(pairs, tag@), input_index as int));
            }
        }
    }
    level
}

/// A node stays in place when its position and those of the level below
/// it stay.
pub proof fn lemma_placed_frame(
    level: Seq<Node>,
    pos1: Seq<usize>,
    pos2: Seq<usize>,
    n: Seq<(u16, u32, u32)>,
    names: Seq<Seq<char>>,
    order: Seq<Seq<char>>,
    pairs: Seq<(Seq<char>, Seq<char>)>,
    lev: Seq<usize>,
    orig: Seq<int>,
    glev: Seq<usize>,
    g: int,
)
    requires
        levelled_graph(n, lev, orig, glev),
        placed_node(level, pos1, n, names, order, pairs, orig, glev, g),
        0 <= g < orig.len(),
        0 < glev[g],
        pos1.len() == orig.len(),
        pos2.len() == orig.len(),
        pos2[g] == pos1[g],
        forall|h: int| 0 <= h < orig.len() && #[trigger] glev[h] + 1 == glev[g] ==> pos2[h] == pos1[h],
    ensures
        placed_node(level, pos2, n, names, order, pairs, orig, glev, g),
{
    if g >= n.len() {
        assert(node_for_ok(orig, glev, orig[g], glev[g] - 1));
    } else {
        assert(2 <= g) by {
            assert(glev[g] != 0);
        }
        assert(orig[g] == g && glev[g] == lev[g]);
        assert(node_for_ok(orig, glev, child_of(n, g, 0), lev[g] - 1));
        assert(node_for_ok(orig, glev, child_of(n, g, 1), lev[g] - 1));
    }
}

/// The number of decision nodes on a longest path from node `i` of `n` down
/// to a terminal.
pub open spec fn decision_depth(n: Seq<(u16, u32, u32)>, i: int) -> nat
    decreases i,
{
    if i < 2 || i >= n.len() {
        0
    } else {
        let lo = n[i].1 as int;
        let hi = n[i].2 as int;
        if 0 <= lo < i && 0 <= hi < i {
            let dl = decision_depth(n, lo);
            let dh = decision_depth(n, hi);
            1 + if dl >= dh {
                dl
            } else {
                dh
            }
        } else {
            0
        }
    }
}

/// Longest-path levels over the edges of the inverted diagram are the
/// decision depths.
proof fn lemma_levels_are_depths(n: Seq<(u16, u32, u32)>, edges: Seq<(u32, u32, i32)>, lev: Seq<usize>, t: int)
    requires
        nodes_wf(n),
        n.len() >= 2,
        bdd_levels(n, lev),
        longest_path_levels(edges, lev, n.len()),
        forall|y: (u32, u32, i32)| #[trigger] edges.contains(y) ==> bdd_edge(n, y),
        0 <= t < n.len(),
    ensures
        lev[t] == decision_depth(n, t),
    decreases t,
{
    if t >= 2 {
        let lo = n[t].1 as int;
        let hi = n[t].2 as int;
        lemma_levels_are_depths(n, edges, lev, lo);
        lemma_levels_are_depths(n, edges, lev, hi);
        assert(lev[child_of(n, t, 0)] + 1 <= lev[t]);
        assert(lev[child_of(n, t, 1)] + 1 <= lev[t]);
        let k = choose|k: int| 0 <= k < edges.len() && (#[trigger] edges[k]).1 == t && lev[edges[k].0 as int] + 1 == lev[t];
        assert(edges.contains(edges[k]));
        assert(bdd_edge(n, edges[k]));
    }
}

/// The top level of `u` holds only the root's decision node: at position
/// 0, with output position 0, reading the input of the root's variable;
/// every other position is empty.
pub open spec fn root_on_top(
    u: UpdownBDD,
    n: Seq<(u16, u32, u32)>,
    names: Seq<Seq<char>>,
    order: Seq<Seq<char>>,
    pairs: Seq<(Seq<char>, Seq<char>)>,
) -> bool {
    let top = u.level_nodes@.last()@;
    &&& top.len() >= 1
    &&& top[0] matches Node::OpNode(o) && o.output_pos == 0 && o.input_index == op_input(
        n,
        names,
        order,
        pairs,
        n.len() - 1,
    )
    &&& forall|p: int| 1 <= p < top.len() ==> #[trigger] top[p] is Vacant
}

/// Position `q` is live for level `k` of `u`: on the first level, one of the
/// constants at positions 0 and 1; above it, a position that is not empty on
/// the level before.
pub open spec fn live_at(u: UpdownBDD, k: int, q: int) -> bool {
    if k == 0 {
        0 <= q < 2
    } else {
        !(u.level_nodes@[k - 1]@[q] is Vacant)
    }
}

/// Every decision node of `u` reads, and every copy keeps, live positions.
pub open spec fn sources_live(u: UpdownBDD) -> bool {
    forall|k: int, q: int|
        0 <= k < u.level_nodes@.len() && 0 <= q < u.level_nodes@[k]@.len() ==> match #[trigger] u.level_nodes@[k]@[q] {
            Node::OpNode(o) => live_at(u, k, o.high_index as int) && live_at(u, k, o.low_index as int),
            Node::Copy(_) => live_at(u, k, q),
            Node::Vacant => true,
        }
}

/// With decision node `t` of `n` at position `pos[t]`: it sits on level
/// `decision_depth(n, t) - 1` of `u` as a decision node reading the input
/// of its variable, no two decision nodes of one level share a position,
/// and every decision node of `u` is one of them.
pub open spec fn decisions_at(
    u: UpdownBDD,
    n: Seq<(u16, u32, u32)>,
    names: Seq<Seq<char>>,
    order: Seq<Seq<char>>,
    pairs: Seq<(Seq<char>, Seq<char>)>,
    pos: Seq<int>,
) -> bool {
    &&& pos.len() == n.len()
    &&& forall|t: int|
        2 <= t < n.len() ==> {
            &&& 1 <= decision_depth(n, t) <= u.level_nodes@.len()
            &&& 0 <= #[trigger] pos[t] < u.level_nodes@[decision_depth(n, t) - 1]@.len()
            &&& u.level_nodes@[decision_depth(n, t) - 1]@[pos[t]] matches Node::OpNode(o) && o.input_index
                == op_input(n, names, order, pairs, t)
        }
    &&& forall|t1: int, t2: int|
        2 <= t1 < n.len() && 2 <= t2 < n.len() && t1 != t2 && decision_depth(n, t1) == decision_depth(n, t2)
            ==> #[trigger] pos[t1] != #[trigger] pos[t2]
    &&& forall|k: int, q: int|
        0 <= k < u.level_nodes@.len() && 0 <= q < u.level_nodes@[k]@.len() && (#[trigger] u.level_nodes@[k]@[q]) is OpNode
            ==> exists|t: int| 2 <= t < n.len() && decision_depth(n, t) == k + 1 && pos[t] == q
}

/// The decision nodes of `u` are those of `n`, one each, laid out as
/// `decisions_at` says for some positions.
pub open spec fn decisions_laid_out(
    u: UpdownBDD,
    n: Seq<(u16, u32, u32)>,
    names: Seq<Seq<char>>,
    order: Seq<Seq<char>>,
    pairs: Seq<(Seq<char>, Seq<char>)>,
) -> bool {
    exists|pos: Seq<int>| #[trigger] decisions_at(u, n, names, order, pairs, pos)
}

/// The state vector of `u` is no wider than it must be: it is as wide as
/// the two constants, or some level uses every position.
pub open spec fn tight_width(u: UpdownBDD) -> bool {
    width_of(u) == 2 || exists|k: int| 0 <= k < u.level_nodes@.len() && #[trigger] level_full(u, k)
}

/// Level `k` of `u` has no empty position.
pub open spec fn level_full(u: UpdownBDD, k: int) -> bool {
    forall|q: int| 0 <= q < width_of(u) ==> !(#[trigger] u.level_nodes@[k]@[q] is Vacant)
}

/// A level with as many nodes as positions uses every position.
proof fn lemma_full_level(
    r: UpdownBDD,
    pos: Seq<usize>,
    n: Seq<(u16, u32, u32)>,
    names: Seq<Seq<char>>,
    order: Seq<Seq<char>>,
    pairs: Seq<(Seq<char>, Seq<char>)>,
    orig: Seq<int>,
    glev: Seq<usize>,
    members: Seq<u32>,
    k: int,
)
    requires
        placement(levels_of(r), pos, n, names, order, pairs, orig, glev),
        orig.len() == glev.len(),
        1 <= k <= r.level_nodes@.len(),
        level_members(members, glev, k),
        level_positions(pos, glev, k, width_of(r) as int),
        members.len() == width_of(r),
        r.level_nodes@[k - 1]@.len() == width_of(r),
    ensures
        forall|q: int| 0 <= q < width_of(r) ==> !(#[trigger] r.level_nodes@[k - 1]@[q] is Vacant),
{
    let w = width_of(r) as int;
    let lv = levels_of(r);
    let f = |j: int| pos[members[j] as int] as int;
    assert forall|j: int| 0 <= j < w implies 0 <= #[trigger] f(j) < w by {
        assert(glev[members[j] as int] == k);
    }
    assert forall|i: int, j: int| 0 <= i < w && 0 <= j < w && i != j implies #[trigger] f(i) != #[trigger] f(j) by {
        assert(members[i] != members[j]);
        assert(glev[members[i] as int] == k && glev[members[j] as int] == k);
    }
    assert forall|q: int| 0 <= q < w implies !(#[trigger] r.level_nodes@[k - 1]@[q] is Vacant) by {
        lemma_injective_onto(f, w, q);
        let j = choose|j: int| 0 <= j < w && #[trigger] f(j) == q;
        let g = members[j] as int;
        assert(glev[g] == k);
        assert(placed_node(lv[glev[g] - 1], pos, n, names, order, pairs, orig, glev, g));
        assert(lv[k - 1] == r.level_nodes@[k - 1]@);
    }
}

/// The finished layout: live sources, and the decision nodes of the
/// diagram one each.
proof fn lemma_layout_facts(
    r: UpdownBDD,
    pos: Seq<usize>,
    n: Seq<(u16, u32, u32)>,
    names: Seq<Seq<char>>,
    order: Seq<Seq<char>>,
    pairs: Seq<(Seq<char>, Seq<char>)>,
    lev: Seq<usize>,
    orig: Seq<int>,
    glev: Seq<usize>,
)
    requires
        levelled_graph(n, lev, orig, glev),
        placement(levels_of(r), pos, n, names, order, pairs, orig, glev),
        r.level_nodes@.len() == lev[n.len() - 1],
        forall|k: int| 0 <= k < r.level_nodes@.len() ==> #[trigger] r.level_nodes@[k]@.len() == width_of(r),
        forall|k: int| 0 <= k <= r.level_nodes@.len() ==> #[trigger] level_positions(pos, glev, k, width_of(r) as int),
        forall|k: int, q: int|
            0 <= k < r.level_nodes@.len() && 0 <= q < width_of(r) && !(#[trigger] r.level_nodes@[k]@[q] is Vacant)
                ==> exists|g: int| 0 <= g < orig.len() && glev[g] == k + 1 && pos[g] == q,
        forall|t: int| 0 <= t < n.len() ==> #[trigger] lev[t] == decision_depth(n, t),
    ensures
        sources_live(r),
        decisions_laid_out(r, n, names, order, pairs),
{
    let lv = levels_of(r);
    let w = width_of(r);
    assert forall|k: int| 0 <= k < lv.len() implies #[trigger] lv[k] == r.level_nodes@[k]@ by {}
    assert forall|k: int, q: int|
        0 <= k < r.level_nodes@.len() && 0 <= q < r.level_nodes@[k]@.len() implies match #[trigger] r.level_nodes@[k]@[q] {
            Node::OpNode(o) => live_at(r, k, o.high_index as int) && live_at(r, k, o.low_index as int),
            Node::Copy(_) => live_at(r, k, q),
            Node::Vacant => true,
        } by {
        let x = r.level_nodes@[k]@[q];
        if !(x is Vacant) {
            let g = choose|g: int| 0 <= g < orig.len() && glev[g] == k + 1 && pos[g] == q;
            assert(placed_node(lv[glev[g] - 1], pos, n, names, order, pairs, orig, glev, g));
            assert(lv[k] == r.level_nodes@[k]@);
            if g >= n.len() {
                let s = node_for(orig, glev, orig[g], glev[g] - 1);
                assert(node_for_ok(orig, glev, orig[g], glev[g] - 1));
                if k == 0 {
                    assert(s < 2);
                    assert(orig[s] == s);
                } else {
                    assert(placed_node(lv[glev[s] - 1], pos, n, names, order, pairs, orig, glev, s));
                    assert(lv[k - 1] == r.level_nodes@[k - 1]@);
                }
            } else {
                assert(2 <= g) by {
                    assert(glev[g] != 0);
                }
                assert(orig[g] == g && glev[g] == lev[g]);
                let s0 = node_for(orig, glev, child_of(n, g, 0), glev[g] - 1);
                let s1 = node_for(orig, glev, child_of(n, g, 1), glev[g] - 1);
                assert(node_for_ok(orig, glev, child_of(n, g, 0), lev[g] - 1));
                assert(node_for_ok(orig, glev, child_of(n, g, 1), lev[g] - 1));
                if k == 0 {
                    assert(s0 < 2 && s1 < 2);
                    assert(orig[s0] == s0 && orig[s1] == s1);
                } else {
                    assert(placed_node(lv[glev[s0] - 1], pos, n, names, order, pairs, orig, glev, s0));
                    assert(placed_node(lv[glev[s1] - 1], pos, n, names, order, pairs, orig, glev, s1));
                    assert(lv[k - 1] == r.level_nodes@[k - 1]@);
                }
            }
        }
    }
    assert(sources_live(r));
    let p = Seq::new(n.len(), |t: int| pos[t] as int);
    assert forall|t: int| 2 <= t < n.len() implies {
        &&& 1 <= decision_depth(n, t) <= r.level_nodes@.len()
        &&& 0 <= #[trigger] p[t] < r.level_nodes@[decision_depth(n, t) - 1]@.len()
        &&& r.level_nodes@[decision_depth(n, t) - 1]@[p[t]] matches Node::OpNode(o) && o.input_index
            == op_input(n, names, order, pairs, t)
    } by {
        assert(orig[t] == t && glev[t] == lev[t]);
        assert(glev[t] != 0);
        assert(glev[t] <= lev[n.len() - 1]);
        assert(placed_node(lv[glev[t] - 1], pos, n, names, order, pairs, orig, glev, t));
        assert(lv[glev[t] - 1] == r.level_nodes@[glev[t] - 1]@);
    }
    assert forall|t1: int, t2: int|
        2 <= t1 < n.len() && 2 <= t2 < n.len() && t1 != t2 && decision_depth(n, t1) == decision_depth(n, t2)
            implies #[trigger] p[t1] != #[trigger] p[t2] by {
        assert(orig[t1] == t1 && glev[t1] == lev[t1]);
        assert(orig[t2] == t2 && glev[t2] == lev[t2]);
        assert(level_positions(pos, glev, glev[t1] as int, w as int));
    }
    assert forall|k: int, q: int|
        0 <= k < r.level_nodes@.len() && 0 <= q < r.level_nodes@[k]@.len() && (#[trigger] r.level_nodes@[k]@[q]) is OpNode
            implies exists|t: int| 2 <= t < n.len() && decision_depth(n, t) == k + 1 && p[t] == q by {
        let g = choose|g: int| 0 <= g < orig.len() && glev[g] == k + 1 && pos[g] == q;
        assert(placed_node(lv[glev[g] - 1], pos, n, names, order, pairs, orig, glev, g));
        assert(lv[k] == r.level_nodes@[k]@);
        assert(g < n.len());
        assert(2 <= g) by {
            assert(glev[g] != 0);
        }
        assert(orig[g] == g && glev[g] == lev[g]);
        assert(decision_depth(n, g) == k + 1 && p[g] == q);
    }
    assert(decisions_at(r, n, names, order, pairs, p));
}

/// Turns the diagram `bdd` over the variables `vars` into an up-down
/// circuit whose inputs come in `input_order`, each variable reading the
/// input named like it (after `alias_map`). The diagram is inverted (edges
/// from children to parents), levelled by longest paths, levelised with
/// chains of copies so that edges only join consecutive levels, and laid
/// out level by level: a copy keeps the position of the node below it, a
/// decision node takes a free position, and the root ends at position 0.
/// The constant `false` diagram gives the circuit without levels.
#[verifier::spinoff_prover]
#[verifier::rlimit(100)]
pub fn updown_bdd_from_bdd(
    bdd: &Bdd,
    vars: &BddVariableSet,
    input_order: &[String],
    alias_map: Option<&Vec<(String, String)>>,
) -> (r: UpdownBDD)
    requires
        bdd_wf(*bdd),
        var_set_names(*vars).len() == num_vars(*bdd),
        bdd_nodes(*bdd).len() != 2,
        levelled_node_count(bdd_nodes(*bdd)) + bdd_nodes(*bdd).len() < u32::MAX,
        inputs_named(
            bdd_nodes(*bdd),
            var_set_names(*vars),
            strings_view(input_order@),
            alias_view(alias_map),
        ),
    ensures
        updown_wf(r, input_order@.len()),
        forall|inputs: Seq<bool>|
            inputs.len() == input_order@.len() ==> #[trigger] updown_eval(r, inputs) == bdd_eval(
                *bdd,
                bdd_inputs(var_set_names(*vars), strings_view(input_order@), alias_view(alias_map), inputs),
            ),
        r.level_nodes@.len() == decision_depth(bdd_nodes(*bdd), bdd_nodes(*bdd).len() - 1),
        (r.level_nodes@.len() == 0) == (bdd_nodes(*bdd).len() == 1),
        sources_live(r),
        tight_width(r),
        bdd_nodes(*bdd).len() >= 3 ==> decisions_laid_out(
            r,
            bdd_nodes(*bdd),
            var_set_names(*vars),
            strings_view(input_order@),
            alias_view(alias_map),
        ),
        bdd_nodes(*bdd).len() >= 3 ==> root_on_top(
            r,
            bdd_nodes(*bdd),
            var_set_names(*vars),
            strings_view(input_order@),
            alias_view(alias_map),
        ),
{
    let ghost n = bdd_nodes(*bdd);
    let ghost names = var_set_names(*vars);
    let ghost order = strings_view(input_order@);
    let ghost pairs = alias_view(alias_map);
    let ghost nn = n.len() as int;
    let var_names = var_set_variable_names(vars);
    let size = bdd_size(bdd);
    if size < 2 {
        // the constant `false`: the output is position 0 of the initial state
        let r = UpdownBDD::new(Vec::new());
        proof {
            assert forall|inputs: Seq<bool>|
                inputs.len() == input_order@.len() implies #[trigger] updown_eval(r, inputs) == bdd_eval(
                    *bdd,
                    bdd_inputs(names, order, pairs, inputs),
                ) by {
                assert(levels_of(r).len() == 0);
            }
        }
        return r;
    }
    proof {
        assert(var_names@.map_values(|s: String| s@) == names);
    }
    let mut graph = build_inverse_graph(bdd, &var_names);
    proof {
        let edges = graph_edges(graph);
        let rank = Seq::new(nn as nat, |i: int| i);
        assert forall|k: int| 0 <= k < edges.len() implies (#[trigger] edges[k]).0 < nn && edges[k].1 < nn
            && rank[edges[k].0 as int] < rank[edges[k].1 as int] by {
            assert(edges.contains(edges[k]));
            assert(bdd_edge(n, edges[k]));
            assert(n[edges[k].1 as int].1 < edges[k].1 && n[edges[k].1 as int].2 < edges[k].1);
        }
        assert(ranked_by(edges, rank));
    }
    let levels = levels_for_graph(&graph);
    let ghost lev = levels@;
    let ghost edges0 = graph_edges(graph);
    proof {
        let edges = graph_edges(graph);
        assert forall|t: int, w: int|
            2 <= t < nn && (w == 0 || w == 1) implies lev[#[trigger] child_of(n, t, w)] + 1 <= lev[t] by {
            let y = (child_of(n, t, w) as u32, t as u32, w as i32);
            assert(bdd_edge(n, y));
            assert(edges.contains(y));
            let k = choose|k: int| 0 <= k < edges.len() && edges[k] == y;
            assert(lev[edges[k].0 as int] + 1 <= lev[edges[k].1 as int]);
        }
        assert forall|u: int| 0 <= u < 2 implies #[trigger] lev[u] == 0 by {
            if lev[u] != 0 {
                let k = choose|k: int| 0 <= k < edges.len() && (#[trigger] edges[k]).1 == u && lev[edges[k].0 as int] + 1 == lev[u];
                assert(edges.contains(edges[k]));
            }
        }
        assert(bdd_levels(n, lev));
        assert forall|y: (u32, u32, i32)| #[trigger] edges.contains(y) implies bdd_edge(n, y) by {}
        lemma_levels_are_depths(n, edges, lev, nn - 1);
        assert forall|t: int| 0 <= t < nn implies #[trigger] lev[t] == decision_depth(n, t) by {
            lemma_levels_are_depths(n, edges, lev, t);
        }
        assert(lev =~= depths(n));
        assert forall|u: int| 0 <= u < nn implies #[trigger] lev[u] <= lev[nn - 1] by {
            if u != nn - 1 {
                lemma_root_highest(n, lev, u);
            }
        }
    }
    let (new_levels, Ghost(orig), Ghost(tops), Ghost(base)) = levelise_graph(
        &mut graph,
        &levels,
        Ghost(n),
        Ghost(names),
    );
    let ghost glev = new_levels@;
    proof {
        lemma_levelled(graph_nodes(graph), graph_edges(graph), n, names, lev, orig, glev, tops, base);
        assert(levelled_graph(n, lev, orig, glev));
        assert(n.len() >= 3 && nn == n.len());
        assert(orig[nn - 1] == nn - 1);
        assert(glev[nn - 1] == lev[nn - 1]);
        assert(orig.len() <= u32::MAX);
        assert(levelled_state(graph_nodes(graph), graph_edges(graph), n, names, lev, orig, glev));
    }
    let root = (size - 1) as u32;
    // the levels of the levelised graph: the root lies highest
    let mut max_level: usize = 0;
    let mut g: usize = 0;
    while g < new_levels.len()
        invariant
            g <= glev.len(),
            glev == new_levels@,
            levelled_graph(n, lev, orig, glev),
            forall|h: int| 0 <= h < g ==> #[trigger] glev[h] <= max_level,
            max_level <= lev[nn - 1],
            g > nn - 1 ==> max_level == lev[nn - 1],
            nn == n.len(),
            lev.len() == nn,
            glev[nn - 1] == lev[nn - 1],
        decreases glev.len() - g,
    {
        if new_levels[g] > max_level {
            max_level = new_levels[g];
        }
        g = g + 1;
    }
    // the nodes of each level, and the width of the state vector
    let mut by_level: Vec<Vec<u32>> = Vec::new();
    let mut max_width: usize = 2;
    let mut l: usize = 0;
    while l <= max_level
        invariant
            l <= max_level + 1,
            max_level == lev[nn - 1],
            max_level < nn,
            nn <= u32::MAX,
            glev == new_levels@,
            glev.len() <= u32::MAX,
            by_level@.len() == l,
            max_width >= 2,
            max_width <= glev.len() + 2,
            forall|k: int| 0 <= k < l ==> level_members((#[trigger] by_level@[k])@, glev, k),
            forall|k: int| 0 <= k < l ==> (#[trigger] by_level@[k])@.len() <= max_width,
            max_width == 2 || exists|k: int| 1 <= k < l && (#[trigger] by_level@[k])@.len() == max_width,
            l >= 1 ==> by_level@[0]@.len() <= 2,
            levelled_graph(n, lev, orig, glev),
        decreases max_level + 1 - l,
    {
        let set = nodes_at_level(&new_levels, l);
        proof {
            let f = |i: int| set@[i] as int;
            assert forall|i: int, j: int| 0 <= i < set@.len() && 0 <= j < set@.len() && i != j implies #[trigger] f(i)
                != #[trigger] f(j) by {
            }
            lemma_pigeonhole(f, set@.len() as int, glev.len() as int);
        }
        proof {
            if l == 0 {
                // only the two terminals lie on level 0
                let f = |i: int| set@[i] as int;
                assert forall|i: int| 0 <= i < set@.len() implies 0 <= #[trigger] f(i) < 2 by {
                    assert(glev[set@[i] as int] == 0);
                    assert(set@[i] < glev.len());
                }
                assert forall|i: int, j: int| 0 <= i < set@.len() && 0 <= j < set@.len() && i != j implies #[trigger] f(i)
                    != #[trigger] f(j) by {
                }
                lemma_pigeonhole(f, set@.len() as int, 2);
            }
        }
        let ghost before = by_level@;
        if set.len() > max_width {
            max_width = set.len();
        }
        by_level.push(set);
        proof {
            if max_width != 2 {
                if max_width == set@.len() {
                    assert(l >= 1);
                    assert(by_level@[l as int]@.len() == max_width);
                } else {
                    let k = choose|k: int| 1 <= k < l && (#[trigger] before[k])@.len() == max_width;
                    assert(by_level@[k] == before[k]);
                }
            }
        }
        l = l + 1;
    }
    // positions: the terminals sit at 0 and 1
    let mut pos: Vec<usize> = Vec::new();
    let mut g: usize = 0;
    while g < new_levels.len()
        invariant
            g <= glev.len(),
            glev == new_levels@,
            pos@.len() == g,
            forall|h: int| 0 <= h < g ==> #[trigger] pos@[h] == (if h == 1 { 1usize } else { 0usize }),
        decreases glev.len() - g,
    {
        pos.push(if g == 1 { 1 } else { 0 });
        g = g + 1;
    }
    proof {
        assert(glev[nn - 1] != 0);
        assert forall|h: int| 0 <= h < glev.len() && #[trigger] glev[h] == 0 implies pos@[h] < max_width by {
            assert(h < 2);
        }
        assert forall|g1: int, g2: int|
            0 <= g1 < glev.len() && 0 <= g2 < glev.len() && g1 != g2 && #[trigger] glev[g1] == 0 && #[trigger] glev[g2]
                == 0 implies pos@[g1] != pos@[g2] by {
            assert(g1 < 2 && g2 < 2);
        }
        assert(level_positions(pos@, glev, 0, max_width as int));
    }
    let mut level_nodes: Vec<Vec<Node>> = Vec::new();
    let mut l: usize = 1;
    while l < max_level
        invariant
            1 <= l <= max_level,
            max_level == lev[nn - 1],
            nn == n.len(),
            glev == new_levels@,
            order == strings_view(input_order@),
            pairs == alias_view(alias_map),
            levelled_state(graph_nodes(graph), graph_edges(graph), n, names, lev, orig, glev),
            inputs_named(n, names, order, pairs),
            by_level@.len() == max_level + 1,
            forall|k: int| 0 <= k <= max_level ==> level_members((#[trigger] by_level@[k])@, glev, k),
            forall|k: int| 0 <= k <= max_level ==> (#[trigger] by_level@[k])@.len() <= max_width,
            max_width >= 2,
            pos@.len() == orig.len(),
            pos@[0] == 0,
            pos@[1] == 1,
            level_positions(pos@, glev, l - 1, max_width as int),
            forall|k: int| 0 <= k < l ==> #[trigger] level_positions(pos@, glev, k, max_width as int),
            forall|k: int, q: int|
                0 <= k < l - 1 && 0 <= q < max_width && !(#[trigger] level_nodes@[k]@[q] is Vacant) ==> exists|g: int|
                    0 <= g < orig.len() && glev[g] == k + 1 && pos@[g] == q,
            level_nodes@.len() == l - 1,
            forall|k: int| 0 <= k < l - 1 ==> (#[trigger] level_nodes@[k])@.len() == max_width,
            forall|k: int| 0 <= k < l - 1 ==> level_wf((#[trigger] level_nodes@[k])@, input_order@.len() as int, max_width as int),
            forall|h: int|
                0 <= h < orig.len() && 0 < #[trigger] glev[h] < l ==> placed_node(
                    level_nodes@[glev[h] - 1]@,
                    pos@,
                    n,
                    names,
                    order,
                    pairs,
                    orig,
                    glev,
                    h,
                ),
        decreases max_level - l,
    {
        let ghost pos_before = pos@;
        let level = build_level(
            &graph,
            &by_level[l],
            &mut pos,
            max_width,
            input_order,
            alias_map,
            l,
            Ghost(n),
            Ghost(names),
            Ghost(lev),
            Ghost(orig),
            Ghost(glev),
        );
        let ghost lvl = level@;
        let ghost nodes_before = level_nodes@;
        level_nodes.push(level);
        proof {
            assert(glev[0] == 0 && glev[1] == 0) by {
                assert(orig[0] == 0 && orig[1] == 1);
            }
            assert forall|k: int| 0 <= k < l + 1 implies #[trigger] level_positions(pos@, glev, k, max_width as int) by {
                if k < l {
                    assert(level_positions(pos_before, glev, k, max_width as int));
                    assert forall|g: int| 0 <= g < glev.len() && #[trigger] glev[g] == k implies pos@[g] == pos_before[g] by {}
                }
            }
            assert forall|k: int, q: int|
                0 <= k < l && 0 <= q < max_width && !(#[trigger] level_nodes@[k]@[q] is Vacant) implies exists|g: int|
                    0 <= g < orig.len() && glev[g] == k + 1 && pos@[g] == q by {
                if k < l - 1 {
                    assert(level_nodes@[k] == nodes_before[k]);
                    let g = choose|g: int| 0 <= g < orig.len() && glev[g] == k + 1 && pos_before[g] == q;
                    assert(pos@[g] == pos_before[g]);
                } else {
                    assert(level_nodes@[k]@ == lvl);
                }
            }
            assert forall|h: int|
                0 <= h < orig.len() && 0 < #[trigger] glev[h] < l + 1 implies placed_node(
                    level_nodes@[glev[h] - 1]@,
                    pos@,
                    n,
                    names,
                    order,
                    pairs,
                    orig,
                    glev,
                    h,
                ) by {
                if glev[h] < l {
                    lemma_placed_frame(
                        level_nodes@[glev[h] - 1]@,
                        pos_before,
                        pos@,
                        n,
                        names,
                        order,
                        pairs,
                        lev,
                        orig,
                        glev,
                        h,
                    );
                } else {
                    assert(level_nodes@[glev[h] - 1]@ == lvl);
                }
            }
        }
        l = l + 1;
    }
    // the top level: the root alone, at position 0
    let ghost pos_before = pos@;
    let top_level = build_root_level(
        &graph,
        root,
        &mut pos,
        max_width,
        input_order,
        alias_map,
        Ghost(n),
        Ghost(names),
        Ghost(lev),
        Ghost(orig),
        Ghost(glev),
    );
    let ghost lvl = top_level@;
    let ghost before_push = level_nodes@;
    level_nodes.push(top_level);
    let r = UpdownBDD::new(level_nodes);
    proof {
        let lv = levels_of(r);
        let w = max_width as nat;
        let root_i = nn - 1;
        assert(orig[root_i] == root_i && glev[root_i] == lev[root_i]);
        assert(lv.len() == max_level);
        assert forall|k: int| 0 <= k < lv.len() implies (#[trigger] lv[k]).len() == w by {
            assert(lv[k] == r.level_nodes@[k]@);
        }
        assert(width_of(r) == w) by {
            assert(r.level_nodes@[0]@ == lv[0]);
        }
        assert forall|h: int|
            0 <= h < orig.len() && 0 < #[trigger] glev[h] <= lv.len() implies placed_node(
                lv[glev[h] - 1],
                pos@,
                n,
                names,
                order,
                pairs,
                orig,
                glev,
                h,
            ) by {
            assert(lv[glev[h] - 1] == r.level_nodes@[glev[h] - 1]@);
            if glev[h] < max_level {
                assert(h != root_i);
                lemma_placed_frame(
                    lv[glev[h] - 1],
                    pos_before,
                    pos@,
                    n,
                    names,
                    order,
                    pairs,
                    lev,
                    orig,
                    glev,
                    h,
                );
            } else {
                assert(h == root_i);
                assert(lv[glev[h] - 1] == lvl);
            }
        }
        assert(placement(lv, pos@, n, names, order, pairs, orig, glev));
        assert(r.level_nodes@.last()@ == lvl);
        assert(pos@ == pos_before.update(root_i, 0usize));
        assert forall|k: int| 0 <= k <= r.level_nodes@.len() implies #[trigger] level_positions(pos@, glev, k, w as int) by {
            if k < max_level {
                assert(level_positions(pos_before, glev, k, max_width as int));
                assert forall|g: int| 0 <= g < glev.len() && #[trigger] glev[g] == k implies pos@[g] == pos_before[g] by {
                    assert(g != root_i);
                }
            } else {
                assert forall|g: int| 0 <= g < glev.len() && #[trigger] glev[g] == k implies g == root_i by {
                    assert(glev[g] <= lev[nn - 1]);
                }
            }
        }
        assert forall|k: int, q: int|
            0 <= k < r.level_nodes@.len() && 0 <= q < w && !(#[trigger] r.level_nodes@[k]@[q] is Vacant) implies exists|g: int|
                0 <= g < orig.len() && glev[g] == k + 1 && pos@[g] == q by {
            if k < max_level - 1 {
                assert(r.level_nodes@[k] == before_push[k]);
                let g = choose|g: int| 0 <= g < orig.len() && glev[g] == k + 1 && pos_before[g] == q;
                assert(g != root_i);
                assert(pos@[g] == pos_before[g]);
            } else {
                assert(r.level_nodes@[k]@ == lvl);
                assert(q == 0);
                assert(glev[root_i] == k + 1 && pos@[root_i] == q);
            }
        }
        assert forall|t: int| 0 <= t < nn implies #[trigger] lev[t] == decision_depth(n, t) by {
            lemma_levels_are_depths(n, edges0, lev, t);
        }
        assert forall|k: int| 0 <= k < r.level_nodes@.len() implies #[trigger] r.level_nodes@[k]@.len() == width_of(r) by {
            assert(lv[k] == r.level_nodes@[k]@);
        }
        lemma_layout_facts(r, pos@, n, names, order, pairs, lev, orig, glev);
        if max_width != 2 {
            let k = choose|k: int| 1 <= k < max_level + 1 && (#[trigger] by_level@[k])@.len() == max_width;
            lemma_full_level(r, pos@, n, names, order, pairs, orig, glev, by_level@[k]@, k);
            assert(level_full(r, k - 1));
        }
        assert forall|t: int| 2 <= t < nn implies 0 <= #[trigger] op_input(n, names, order, pairs, t) < order.len() by {
            assert(order.contains(dealias(pairs, names[n[t].0 as int])));
            lemma_first_index_exists(order, dealias(pairs, names[n[t].0 as int]));
        }
        assert forall|inputs: Seq<bool>|
            inputs.len() == input_order@.len() implies #[trigger] updown_eval(r, inputs) == bdd_eval(
                *bdd,
                bdd_inputs(names, order, pairs, inputs),
            ) by {
            lemma_run_placed(lv, w, pos@, n, names, order, pairs, lev, orig, glev, inputs, max_level as nat);
            assert(glev[root_i] == max_level);
            assert(pos@[root_i] == 0);
        }
        assert forall|k: int| 0 <= k < r.level_nodes@.len() implies #[trigger] r.level_nodes@[k]@.len() == width_of(r) by {
            assert(lv[k] == r.level_nodes@[k]@);
        }
        assert forall|k: int, p: int|
            0 <= k < r.level_nodes@.len() && 0 <= p < width_of(r) implies match #[trigger] r.level_nodes@[k]@[p] {
                Node::OpNode(o) => o.input_index < input_order@.len() && o.high_index < width_of(r)
                    && o.low_index < width_of(r),
                _ => true,
            } by {
            if k < max_level - 1 {
                assert(r.level_nodes@[k] == before_push[k]);
                assert(level_wf(before_push[k]@, input_order@.len() as int, max_width as int));
            } else {
                assert(r.level_nodes@[k]@ == lvl);
            }
        }
    }
    r
}

} // verus!
