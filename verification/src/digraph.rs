//! A directed graph held by petgraph, seen through its node count and its
//! list of edges: the facts about reachability that the dependency view is
//! built on.
use vstd::prelude::*;

use petgraph::graph::{Graph, NodeIndex};
use petgraph::Directed;

verus! {

#[verifier::external_type_specification]
#[verifier::external_body]
#[verifier::reject_recursive_types(N)]
#[verifier::reject_recursive_types(E)]
#[verifier::reject_recursive_types(Ty)]
#[verifier::reject_recursive_types(Ix)]
pub struct ExGraph<N, E, Ty, Ix>(Graph<N, E, Ty, Ix>);

#[verifier::external_type_specification]
#[verifier::external_body]
pub struct ExDirected(Directed);

/// How many nodes the graph holds; they are numbered from 0 in the order
/// they were added.
pub uninterp spec fn node_count(g: Graph<(), (), Directed, u32>) -> nat;

/// The edges of the graph, as (from, to) node numbers in the order they
/// were added.
pub uninterp spec fn edge_list(g: Graph<(), (), Directed, u32>) -> Seq<(nat, nat)>;

/// Which end of an edge a neighbour query follows.
#[derive(Clone, Copy, Debug, PartialEq, Eq, Structural)]
pub enum Dir {
    /// From a node to the nodes its edges lead to.
    Outgoing,
    /// From a node to the nodes whose edges lead to it.
    Incoming,
}

/// Every edge joins two nodes of the graph.
pub open spec fn edges_valid(n: nat, es: Seq<(nat, nat)>) -> bool {
    forall|i: int| 0 <= i < es.len() ==> (#[trigger] es[i]).0 < n && es[i].1 < n
}

/// The neighbours of `a` in direction `d`, one per edge, oldest edge first.
pub open spec fn neighbours_in_order(es: Seq<(nat, nat)>, a: nat, d: Dir) -> Seq<nat>
    decreases es.len(),
{
    if es.len() == 0 {
        Seq::empty()
    } else {
        let rest = neighbours_in_order(es.drop_last(), a, d);
        let e = es.last();
        match d {
            Dir::Outgoing => if e.0 == a {
                rest.push(e.1)
            } else {
                rest
            },
            Dir::Incoming => if e.1 == a {
                rest.push(e.0)
            } else {
                rest
            },
        }
    }
}

/// `p` is a walk of at least one edge.
pub open spec fn is_walk(es: Seq<(nat, nat)>, p: Seq<nat>) -> bool {
    &&& p.len() >= 2
    &&& forall|i: int| 0 <= i < p.len() - 1 ==> #[trigger] es.contains((p[i], p[i + 1]))
}

/// `b` can be reached from `a` along at least one edge.
pub open spec fn reaches(es: Seq<(nat, nat)>, a: nat, b: nat) -> bool {
    exists|p: Seq<nat>| is_walk(es, p) && p[0] == a && p.last() == b
}

/// Some node lies on a cycle.
pub open spec fn has_cycle(n: nat, es: Seq<(nat, nat)>) -> bool {
    exists|x: nat| x < n && reaches(es, x, x)
}

/// `a` and `b` are in one strongly connected component.
pub open spec fn strongly_connected(es: Seq<(nat, nat)>, a: nat, b: nat) -> bool {
    a == b || (reaches(es, a, b) && reaches(es, b, a))
}

/// The node numbers of a list of components, in order.
pub open spec fn flatten_components(cs: Seq<Seq<nat>>) -> Seq<nat>
    decreases cs.len(),
{
    if cs.len() == 0 {
        Seq::empty()
    } else {
        flatten_components(cs.drop_last()) + cs.last()
    }
}

/// `cs` is the partition of the nodes `0..n` into strongly connected
/// components.
pub open spec fn is_scc_partition(n: nat, es: Seq<(nat, nat)>, cs: Seq<Seq<nat>>) -> bool {
    &&& forall|c: int| 0 <= c < cs.len() ==> (#[trigger] cs[c]).len() > 0
    &&& flatten_components(cs).no_duplicates()
    &&& forall|x: nat| x < n <==> #[trigger] flatten_components(cs).contains(x)
    &&& forall|c: int, i: int, j: int|
        0 <= c < cs.len() && 0 <= i < cs[c].len() && 0 <= j < cs[c].len() ==> strongly_connected(
            es,
            #[trigger] cs[c][i],
            #[trigger] cs[c][j],
        )
    &&& forall|c: int, d: int, i: int, j: int|
        0 <= c < cs.len() && 0 <= d < cs.len() && c != d && 0 <= i < cs[c].len() && 0 <= j
            < cs[d].len() ==> !strongly_connected(es, #[trigger] cs[c][i], #[trigger] cs[d][j])
}


/// A component is kept as cyclic: it has two or more nodes, or its node
/// has an edge to itself.
pub open spec fn cyclic_component(es: Seq<(nat, nat)>, c: Seq<nat>) -> bool {
    c.len() > 1 || es.contains((c[0], c[0]))
}

/// An edge is a walk.
pub proof fn lemma_edge_reaches(es: Seq<(nat, nat)>, a: nat, b: nat)
    requires
        es.contains((a, b)),
    ensures
        reaches(es, a, b),
{
    let p = seq![a, b];
    assert(is_walk(es, p)) by {
        assert forall|i: int| 0 <= i < p.len() - 1 implies #[trigger] es.contains((p[i], p[i + 1])) by {
            assert(i == 0);
        }
    }
    assert(p[0] == a && p.last() == b);
}

/// Reaching is transitive.
pub proof fn lemma_reaches_transitive(es: Seq<(nat, nat)>, a: nat, b: nat, c: nat)
    requires
        reaches(es, a, b),
        reaches(es, b, c),
    ensures
        reaches(es, a, c),
{
    let p = choose|p: Seq<nat>| is_walk(es, p) && p[0] == a && p.last() == b;
    let q = choose|q: Seq<nat>| is_walk(es, q) && q[0] == b && q.last() == c;
    let w = p + q.drop_first();
    assert forall|i: int| 0 <= i < w.len() - 1 implies #[trigger] es.contains((w[i], w[i + 1])) by {
        if i < p.len() - 1 {
            assert(w[i] == p[i] && w[i + 1] == p[i + 1]);
        } else if i == p.len() - 1 {
            assert(w[i] == p.last());
            assert(w[i + 1] == q[1]);
            assert(es.contains((q[0], q[0int + 1])));
        } else {
            let j = i - p.len() + 1;
            assert(w[i] == q[j]);
            assert(w[i + 1] == q[j + 1]);
        }
    }
    assert(w[0] == a);
    assert(w.last() == q.last());
}

/// A cycle through `a` starts with an edge from `a` to itself, or with an
/// edge to another node from which `a` is reached again.
pub proof fn lemma_cycle_first_step(es: Seq<(nat, nat)>, a: nat)
    requires
        reaches(es, a, a),
    ensures
        es.contains((a, a)) || exists|v: nat| v != a && es.contains((a, v)) && reaches(es, v, a),
{
    let p = choose|p: Seq<nat>| is_walk(es, p) && p[0] == a && p.last() == a;
    let v = p[1];
    assert(es.contains((p[0], p[0int + 1])));
    if v != a {
        let q = p.drop_first();
        assert(q.len() >= 2) by {
            if p.len() == 2 {
                assert(p.last() == v);
            }
        }
        assert forall|i: int| 0 <= i < q.len() - 1 implies #[trigger] es.contains((q[i], q[i + 1])) by {
            assert(q[i] == p[i + 1] && q[i + 1] == p[i + 1 + 1]);
        }
        assert(q[0] == v && q.last() == a);
        assert(reaches(es, v, a));
    }
}

/// Where the elements of a component sit in the flattened list.
pub proof fn lemma_flatten_at(cs: Seq<Seq<nat>>, c: int, i: int)
    requires
        0 <= c < cs.len(),
        0 <= i < cs[c].len(),
    ensures
        flatten_components(cs.take(c)).len() + i < flatten_components(cs).len(),
        flatten_components(cs)[flatten_components(cs.take(c)).len() + i] == cs[c][i],
        flatten_components(cs.take(c + 1)).len() == flatten_components(cs.take(c)).len() + cs[c].len(),
    decreases cs.len(),
{
    let init = cs.drop_last();
    assert(cs.take(c + 1).drop_last() =~= cs.take(c));
    assert(cs.take(c + 1).last() == cs[c]);
    if c == cs.len() - 1 {
        assert(cs.take(c) =~= init);
    } else {
        lemma_flatten_at(init, c, i);
        assert(init.take(c) =~= cs.take(c));
        assert(init.take(c + 1) =~= cs.take(c + 1));
        lemma_flatten_prefix_len(init, c + 1);
    }
}

/// The flattened prefix of the components is no longer than the whole.
pub proof fn lemma_flatten_prefix_len(cs: Seq<Seq<nat>>, c: int)
    requires
        0 <= c <= cs.len(),
    ensures
        flatten_components(cs.take(c)).len() <= flatten_components(cs).len(),
    decreases cs.len() - c,
{
    if c < cs.len() {
        assert(cs.take(c + 1).drop_last() =~= cs.take(c));
        lemma_flatten_prefix_len(cs, c + 1);
    } else {
        assert(cs.take(c) =~= cs);
    }
}

/// Every element of the flattened list is an element of some component.
pub proof fn lemma_flatten_member(cs: Seq<Seq<nat>>, x: nat)
    requires
        flatten_components(cs).contains(x),
    ensures
        exists|c: int, i: int| 0 <= c < cs.len() && 0 <= i < cs[c].len() && cs[c][i] == x,
    decreases cs.len(),
{
    let init = cs.drop_last();
    let f = flatten_components(init);
    let w = choose|w: int| 0 <= w < flatten_components(cs).len() && flatten_components(cs)[w] == x;
    if w < f.len() {
        assert(f[w] == x);
        lemma_flatten_member(init, x);
        let (c, i) = choose|c: int, i: int| 0 <= c < init.len() && 0 <= i < init[c].len() && init[c][i] == x;
        assert(cs[c][i] == x);
    } else {
        let i = w - f.len();
        assert(cs.last()[i] == x);
        assert(cs[cs.len() - 1][i] == x);
    }
}

/// In a partition into strongly connected components, the members of a
/// component lie on a cycle exactly when the component is cyclic.
pub proof fn lemma_cyclic_component(n: nat, es: Seq<(nat, nat)>, cs: Seq<Seq<nat>>, c: int, i: int)
    requires
        is_scc_partition(n, es, cs),
        edges_valid(n, es),
        0 <= c < cs.len(),
        0 <= i < cs[c].len(),
    ensures
        cyclic_component(es, cs[c]) <==> reaches(es, cs[c][i], cs[c][i]),
{
    let x = cs[c][i];
    if cs[c].len() > 1 {
        let j = if i == 0 { 1int } else { 0int };
        lemma_flatten_at(cs, c, i);
        lemma_flatten_at(cs, c, j);
        let y = cs[c][j];
        assert(x != y);
        assert(strongly_connected(es, cs[c][i], cs[c][j]));
        lemma_reaches_transitive(es, x, y, x);
    } else if es.contains((cs[c][0], cs[c][0])) {
        assert(i == 0);
        lemma_edge_reaches(es, x, x);
    }
    if reaches(es, x, x) && cs[c].len() == 1 {
        assert(i == 0);
        lemma_cycle_first_step(es, x);
        if !es.contains((x, x)) {
            let v = choose|v: nat| v != x && es.contains((x, v)) && reaches(es, v, x);
            let m = choose|m: int| 0 <= m < es.len() && es[m] == (x, v);
            assert(es[m].1 < n);
            assert(flatten_components(cs).contains(v));
            lemma_flatten_member(cs, v);
            let (d, k) = choose|d: int, k: int| 0 <= d < cs.len() && 0 <= k < cs[d].len() && cs[d][k] == v;
            lemma_edge_reaches(es, x, v);
            assert(strongly_connected(es, cs[c][i], cs[d][k]));
            if d == c {
                assert(k == 0);
            }
        }
    }
}

/// An empty directed graph (`Graph::new`).
#[verifier::external_body]
pub(crate) fn graph_new() -> (g: Graph<(), (), Directed, u32>)
    ensures
        node_count(g) == 0,
        edge_list(g) == Seq::<(nat, nat)>::empty(),
{
    Graph::new()
}

/// Adds a node (`Graph::add_node`), which gets the next number. petgraph
/// panics once the `u32` numbering is exhausted, so the graph must hold
/// fewer than `u32::MAX` nodes.
#[verifier::external_body]
pub(crate) fn graph_add_node(g: &mut Graph<(), (), Directed, u32>) -> (ix: usize)
    requires
        node_count(*old(g)) < u32::MAX,
    ensures
        ix == node_count(*old(g)),
        node_count(*final(g)) == node_count(*old(g)) + 1,
        edge_list(*final(g)) == edge_list(*old(g)),
{
    g.add_node(()).index()
}

/// Adds an edge from `a` to `b` (`Graph::add_edge`), after the existing
/// ones; parallel edges are kept. petgraph panics on a node that does not
/// exist and once the `u32` numbering of edges is exhausted.
#[verifier::external_body]
pub(crate) fn graph_add_edge(g: &mut Graph<(), (), Directed, u32>, a: usize, b: usize)
    requires
        a < node_count(*old(g)),
        b < node_count(*old(g)),
        edge_list(*old(g)).len() < u32::MAX,
    ensures
        node_count(*final(g)) == node_count(*old(g)),
        edge_list(*final(g)) == edge_list(*old(g)).push((a as nat, b as nat)),
{
    g.add_edge(NodeIndex::new(a), NodeIndex::new(b), ());
}

/// The neighbours of node `a` in direction `d`
/// (`Graph::neighbors_directed`): one per edge, the most recently added
/// edge first, as petgraph documents for a directed graph.
#[verifier::external_body]
pub(crate) fn graph_neighbours(g: &Graph<(), (), Directed, u32>, a: usize, d: Dir) -> (r: Vec<usize>)
    requires
        a < node_count(*g),
    ensures
        r@.map_values(|x: usize| x as nat) == neighbours_in_order(edge_list(*g), a as nat, d).reverse(),
{
    let dir = match d {
        Dir::Outgoing => petgraph::Direction::Outgoing,
        Dir::Incoming => petgraph::Direction::Incoming,
    };
    g.neighbors_directed(NodeIndex::new(a), dir).map(|n| n.index()).collect()
}

/// Whether the graph has an edge from `a` to `b` (`Graph::contains_edge`).
#[verifier::external_body]
pub(crate) fn graph_contains_edge(g: &Graph<(), (), Directed, u32>, a: usize, b: usize) -> (r: bool)
    requires
        a < node_count(*g),
        b < node_count(*g),
    ensures
        r == edge_list(*g).contains((a as nat, b as nat)),
{
    g.contains_edge(NodeIndex::new(a), NodeIndex::new(b))
}

/// Whether a topological order exists (`petgraph::algo::toposort` succeeds),
/// that is, whether no node lies on a cycle; a self loop counts as a cycle.
#[verifier::external_body]
pub(crate) fn graph_is_acyclic(g: &Graph<(), (), Directed, u32>) -> (r: bool)
    ensures
        r == !has_cycle(node_count(*g), edge_list(*g)),
{
    petgraph::algo::toposort(g, None).is_ok()
}

/// The strongly connected components (`petgraph::algo::tarjan_scc`): each
/// node in exactly one component, two nodes in one component exactly when
/// each reaches the other. The order of the components and of the nodes
/// within them is left unsaid.
#[verifier::external_body]
pub(crate) fn graph_components(g: &Graph<(), (), Directed, u32>) -> (r: Vec<Vec<usize>>)
    requires
        edges_valid(node_count(*g), edge_list(*g)),
    ensures
        is_scc_partition(
            node_count(*g),
            edge_list(*g),
            r@.map_values(|c: Vec<usize>| c@.map_values(|x: usize| x as nat)),
        ),
{
    petgraph::algo::tarjan_scc(g).into_iter().map(|c| c.into_iter().map(|n| n.index()).collect()).collect()
}

} // verus!
