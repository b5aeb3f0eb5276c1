//! The dependency view: each active ticket nested under every ticket that
//! still blocks it. Unsatisfied blockers outside the active set (archived
//! and not `done`, unreadable, or found nowhere) appear as stub nodes that
//! name themselves.
use vstd::prelude::*;

use petgraph::graph::Graph;
use petgraph::Directed;

use crate::blockers::{resolve_blocker, BlockerResolution, StubKind};
use crate::digraph::{
    cyclic_component, edge_list, edges_valid, flatten_components, graph_add_edge, graph_add_node,
    graph_components, graph_contains_edge, graph_is_acyclic, graph_neighbours, graph_new,
    has_cycle, lemma_cyclic_component, lemma_flatten_at, lemma_flatten_member, neighbours_in_order,
    node_count, reaches, Dir,
};
use crate::domain::{ts_le, Ticket, TicketId, TicketStatus, Timestamp};
use crate::graph::ids_of;
use crate::id_map::IdMap;
use crate::loading::{failures_by_id, reasons_by_id, LoadFailure};
use crate::text::{text_less, text_lt};

verus! {

/// Whether the `blocked_by` id `b` gives an edge: every blocker does except
/// a `done` archived ticket that is not active (a satisfied dependency).
pub open spec fn draws_edge(
    active: Map<Seq<char>, Ticket>,
    archived: Map<Seq<char>, Ticket>,
    b: Seq<char>,
) -> bool {
    active.dom().contains(b) || !(archived.dom().contains(b)
        && archived[b].front_matter.status == TicketStatus::Done)
}

/// The (dependent, blocker) pairs that the blockers `bs` of `d` give, in
/// order.
pub open spec fn ticket_edges(
    active: Map<Seq<char>, Ticket>,
    archived: Map<Seq<char>, Ticket>,
    d: Seq<char>,
    bs: Seq<TicketId>,
) -> Seq<(Seq<char>, Seq<char>)>
    decreases bs.len(),
{
    if bs.len() == 0 {
        Seq::empty()
    } else {
        let r = ticket_edges(active, archived, d, bs.drop_last());
        if draws_edge(active, archived, bs.last()@) {
            r.push((d, bs.last()@))
        } else {
            r
        }
    }
}

/// The (dependent, blocker) pairs of the active tickets listed in `keys`,
/// ticket by ticket.
pub open spec fn dep_edges(
    active: Map<Seq<char>, Ticket>,
    archived: Map<Seq<char>, Ticket>,
    keys: Seq<Seq<char>>,
) -> Seq<(Seq<char>, Seq<char>)>
    decreases keys.len(),
{
    if keys.len() == 0 {
        Seq::empty()
    } else {
        dep_edges(active, archived, keys.drop_last()) + ticket_edges(
            active,
            archived,
            keys.last(),
            active[keys.last()].front_matter.blocked_by@,
        )
    }
}


/// `key` is the earliest `created_at` among the tickets that `b` blocks in
/// `pairs`: the sort key of a stub.
pub open spec fn earliest_dependent_key(
    pairs: Seq<(Seq<char>, Seq<char>)>,
    active: Map<Seq<char>, Ticket>,
    b: Seq<char>,
    key: Timestamp,
) -> bool {
    &&& forall|m: int|
        0 <= m < pairs.len() && (#[trigger] pairs[m]).1 == b ==> ts_le(
            key,
            active[pairs[m].0].front_matter.created_at,
        )
    &&& exists|m: int|
        0 <= m < pairs.len() && (#[trigger] pairs[m]).1 == b && key
            == active[pairs[m].0].front_matter.created_at
}

/// How the stub for the unsatisfied, non-active blocker `b` is shown.
pub open spec fn stub_kind_of(
    archived: Map<Seq<char>, Ticket>,
    failures: Map<Seq<char>, String>,
    b: Seq<char>,
) -> StubKind {
    if archived.dom().contains(b) {
        StubKind::Archived(archived[b].front_matter.status)
    } else if failures.dom().contains(b) {
        StubKind::Unreadable(failures[b])
    } else {
        StubKind::Missing
    }
}

/// The graph of unsatisfied `blocked_by` relations, each edge directed from
/// blocker to dependent, over the active tickets and the stubs.
pub struct DepsGraph {
    graph: Graph<(), (), Directed, u32>,
    /// The id of each node, by node number: the active tickets first.
    names: Vec<TicketId>,
    tickets: IdMap<Ticket>,
    stubs: IdMap<StubKind>,
    /// The sort key of each node, by node number.
    sort_keys: Vec<Timestamp>,
    load_failures: Vec<LoadFailure>,
}


/// What holds of the graph while it is being built from the pairs `pairs`.
spec fn building(
    count: nat,
    es: Seq<(nat, nat)>,
    names: Seq<Seq<char>>,
    n_active: nat,
    active: IdMap<Ticket>,
    archived: Map<Seq<char>, Ticket>,
    failures: Map<Seq<char>, String>,
    stubs: Map<Seq<char>, StubKind>,
    pairs: Seq<(Seq<char>, Seq<char>)>,
) -> bool {
    &&& count == names.len()
    &&& edges_valid(names.len(), es)
    &&& names.no_duplicates()
    &&& n_active == active.key_seq().len()
    &&& n_active <= names.len()
    &&& names.take(n_active as int) == active.key_seq()
    &&& es.len() == pairs.len()
    &&& forall|m: int|
        0 <= m < es.len() ==> names[(#[trigger] es[m]).0 as int] == pairs[m].1 && names[es[m].1 as int]
            == pairs[m].0 && es[m].1 < n_active
    &&& forall|k: int|
        n_active <= k < names.len() ==> stubs.dom().contains(#[trigger] names[k]) && exists|m: int|
            0 <= m < es.len() && es[m].0 == k
    &&& forall|x: Seq<char>| #[trigger]
        stubs.dom().contains(x) ==> names.contains(x) && !active.map().dom().contains(x) && stubs[x]
            == stub_kind_of(archived, failures, x)
    &&& names.len() <= n_active + pairs.len()
}


/// Adding the pairs of one more blocker extends the pairs of the tickets so far.
proof fn lemma_ticket_edges_step(
    active: Map<Seq<char>, Ticket>,
    archived: Map<Seq<char>, Ticket>,
    d: Seq<char>,
    bs: Seq<TicketId>,
    j: int,
)
    requires
        0 <= j < bs.len(),
    ensures
        ticket_edges(active, archived, d, bs.take(j + 1)) == if draws_edge(active, archived, bs[j]@) {
            ticket_edges(active, archived, d, bs.take(j)).push((d, bs[j]@))
        } else {
            ticket_edges(active, archived, d, bs.take(j))
        },
{
    assert(bs.take(j + 1).drop_last() =~= bs.take(j));
    assert(bs.take(j + 1).last() == bs[j]);
}

/// The pairs of the first `i + 1` tickets are those of the first `i` and
/// then those of ticket `i`.
proof fn lemma_dep_edges_step(
    active: Map<Seq<char>, Ticket>,
    archived: Map<Seq<char>, Ticket>,
    keys: Seq<Seq<char>>,
    i: int,
)
    requires
        0 <= i < keys.len(),
    ensures
        dep_edges(active, archived, keys.take(i + 1)) == dep_edges(active, archived, keys.take(i))
            + ticket_edges(active, archived, keys[i], active[keys[i]].front_matter.blocked_by@),
{
    assert(keys.take(i + 1).drop_last() =~= keys.take(i));
    assert(keys.take(i + 1).last() == keys[i]);
}

/// The pairs of a prefix of the tickets are a prefix of all their pairs.
proof fn lemma_dep_edges_prefix(
    active: Map<Seq<char>, Ticket>,
    archived: Map<Seq<char>, Ticket>,
    keys: Seq<Seq<char>>,
    i: int,
)
    requires
        0 <= i <= keys.len(),
    ensures
        dep_edges(active, archived, keys.take(i)).len() <= dep_edges(active, archived, keys).len(),
    decreases keys.len() - i,
{
    if i < keys.len() {
        lemma_dep_edges_step(active, archived, keys, i);
        lemma_dep_edges_prefix(active, archived, keys, i + 1);
    } else {
        assert(keys.take(i) =~= keys);
    }
}

/// The pairs of some of one ticket's blockers are no more than those of all.
proof fn lemma_ticket_edges_prefix(
    active: Map<Seq<char>, Ticket>,
    archived: Map<Seq<char>, Ticket>,
    d: Seq<char>,
    bs: Seq<TicketId>,
    j: int,
)
    requires
        0 <= j <= bs.len(),
    ensures
        ticket_edges(active, archived, d, bs.take(j)).len() <= ticket_edges(active, archived, d, bs).len(),
    decreases bs.len() - j,
{
    if j < bs.len() {
        lemma_ticket_edges_step(active, archived, d, bs, j);
        lemma_ticket_edges_prefix(active, archived, d, bs, j + 1);
    } else {
        assert(bs.take(j) =~= bs);
    }
}


/// Adding the edge of one more (dependent, blocker) pair keeps the building
/// invariant, whether the blocker is active or a stub.
proof fn lemma_building_step(
    es0: Seq<(nat, nat)>,
    nm0: Seq<Seq<char>>,
    st0: Map<Seq<char>, StubKind>,
    pairs0: Seq<(Seq<char>, Seq<char>)>,
    count: nat,
    es: Seq<(nat, nat)>,
    nm: Seq<Seq<char>>,
    st: Map<Seq<char>, StubKind>,
    pairs: Seq<(Seq<char>, Seq<char>)>,
    n: nat,
    active: IdMap<Ticket>,
    archived: Map<Seq<char>, Ticket>,
    failures: Map<Seq<char>, String>,
    from: nat,
    to: nat,
    key: Seq<char>,
    bid: Seq<char>,
)
    requires
        building(nm0.len(), es0, nm0, n, active, archived, failures, st0, pairs0),
        nm == nm0 || (nm == nm0.push(bid) && !nm0.contains(bid)),
        nm.no_duplicates(),
        count == nm.len(),
        from < nm.len(),
        nm[from as int] == bid,
        to < n,
        nm0[to as int] == key,
        es == es0.push((from, to)),
        pairs == pairs0.push((key, bid)),
        (active.map().dom().contains(bid) && st == st0 && nm == nm0) || (!active.map().dom().contains(
            bid,
        ) && st == st0.insert(bid, stub_kind_of(archived, failures, bid))),
    ensures
        building(count, es, nm, n, active, archived, failures, st, pairs),
{
    assert(nm.take(n as int) =~= nm0.take(n as int));
    assert forall|m: int| 0 <= m < es.len() implies nm[(#[trigger] es[m]).0 as int] == pairs[m].1
        && nm[es[m].1 as int] == pairs[m].0 && es[m].1 < n by {
        if m < es0.len() {
            assert(es[m] == es0[m]);
            assert(nm[es0[m].0 as int] == nm0[es0[m].0 as int]);
            assert(nm[es0[m].1 as int] == nm0[es0[m].1 as int]);
        }
    }
    assert forall|k: int| n <= k < nm.len() implies st.dom().contains(#[trigger] nm[k]) && exists|m: int|
        0 <= m < es.len() && es[m].0 == k by {
        if k < nm0.len() {
            assert(nm[k] == nm0[k]);
            assert(st0.dom().contains(nm0[k]));
            let m = choose|m: int| 0 <= m < es0.len() && es0[m].0 == k;
            assert(es[m] == es0[m]);
        } else {
            assert(nm[k] == bid);
            assert(es[es0.len() as int].0 == from);
            assert(from == k) by {
                assert(nm[from as int] == nm[k]);
            }
        }
    }
    assert forall|x: Seq<char>| #[trigger] st.dom().contains(x) implies nm.contains(x)
        && !active.map().dom().contains(x) && st[x] == stub_kind_of(archived, failures, x) by {
        if x == bid {
            assert(nm[from as int] == x);
        } else {
            assert(st0.dom().contains(x));
            let w = choose|w: int| 0 <= w < nm0.len() && nm0[w] == x;
            assert(nm[w] == x);
        }
    }
    assert forall|i: int| 0 <= i < es.len() implies (#[trigger] es[i]).0 < nm.len() && es[i].1 < nm.len() by {
        if i < es0.len() {
            assert(es[i] == es0[i]);
        }
    }
}


/// The neighbours of `a` are exactly the other ends of its edges.
pub proof fn lemma_neighbours(es: Seq<(nat, nat)>, a: nat, d: Dir, x: nat)
    ensures
        neighbours_in_order(es, a, d).contains(x) <==> match d {
            Dir::Outgoing => es.contains((a, x)),
            Dir::Incoming => es.contains((x, a)),
        },
    decreases es.len(),
{
    if es.len() > 0 {
        let rest = es.drop_last();
        lemma_neighbours(rest, a, d, x);
        let n0 = neighbours_in_order(rest, a, d);
        let e = es.last();
        assert(es =~= rest.push(e));
        let want = match d {
            Dir::Outgoing => (a, x),
            Dir::Incoming => (x, a),
        };
        if rest.contains(want) {
            let m = choose|m: int| 0 <= m < rest.len() && rest[m] == want;
            assert(es[m] == want);
        }
        if es.contains(want) && !rest.contains(want) {
            let m = choose|m: int| 0 <= m < es.len() && es[m] == want;
            if m < rest.len() {
                assert(rest[m] == want);
            }
        }
        if n0.contains(x) {
            let w = choose|w: int| 0 <= w < n0.len() && n0[w] == x;
            assert(n0.push(e.1)[w] == x);
            assert(n0.push(e.0)[w] == x);
        }
        assert(n0.push(e.1)[n0.len() as int] == e.1);
        assert(n0.push(e.0)[n0.len() as int] == e.0);
        if neighbours_in_order(es, a, d).contains(x) && !n0.contains(x) {
            let w = choose|w: int| 0 <= w < neighbours_in_order(es, a, d).len() && neighbours_in_order(es, a, d)[w] == x;
            if w < n0.len() {
                assert(n0[w] == x);
            }
        }
    }
}

/// The earliest key among the nodes that the edges from `k` lead to.
fn earliest_dependent(
    graph: &Graph<(), (), Directed, u32>,
    keys: &Vec<Timestamp>,
    k: usize,
) -> (best: Timestamp)
    requires
        k < node_count(*graph),
        exists|m: int| 0 <= m < edge_list(*graph).len() && (#[trigger] edge_list(*graph)[m]).0 == k,
        forall|m: int|
            0 <= m < edge_list(*graph).len() && (#[trigger] edge_list(*graph)[m]).0 == k ==> edge_list(
                *graph,
            )[m].1 < keys@.len(),
    ensures
        forall|m: int|
            0 <= m < edge_list(*graph).len() && (#[trigger] edge_list(*graph)[m]).0 == k ==> ts_le(
                best,
                keys@[edge_list(*graph)[m].1 as int],
            ),
        exists|m: int|
            0 <= m < edge_list(*graph).len() && (#[trigger] edge_list(*graph)[m]).0 == k && best
                == keys@[edge_list(*graph)[m].1 as int],
{
    let ghost es = edge_list(*graph);
    let ghost n = neighbours_in_order(es, k as nat, Dir::Outgoing);
    let ns = graph_neighbours(graph, k, Dir::Outgoing);
    proof {
        let nr = ns@.map_values(|x: usize| x as nat);
        assert(nr == n.reverse());
        assert(nr.len() == ns@.len());
        assert forall|x: nat| n.contains(x) <==> es.contains((k as nat, x)) by {
            lemma_neighbours(es, k as nat, Dir::Outgoing, x);
        }
        assert forall|q: int| 0 <= q < ns@.len() implies #[trigger] es.contains((k as nat, ns@[q] as nat)) by {
            assert(nr[q] == ns@[q] as nat);
            assert(n.reverse()[q] == n[n.len() - 1 - q]);
            assert(n.contains(n[n.len() - 1 - q]));
        }
        assert forall|x: nat| es.contains((k as nat, x)) implies exists|q: int| 0 <= q < ns@.len() && ns@[q] as nat == x by {
            assert(n.contains(x));
            let z = choose|z: int| 0 <= z < n.len() && n[z] == x;
            let q = n.len() - 1 - z;
            assert(n.reverse()[q] == n[z]);
            assert(nr[q] == ns@[q] as nat);
        }
        let m = choose|m: int| 0 <= m < es.len() && (#[trigger] es[m]).0 == k;
        assert(es.contains((k as nat, es[m].1)));
        assert forall|q: int| 0 <= q < ns@.len() implies (#[trigger] ns@[q]) < keys@.len() by {
            assert(es.contains((k as nat, ns@[q] as nat)));
            let m = choose|m: int| 0 <= m < es.len() && es[m] == (k as nat, ns@[q] as nat);
            assert(es[m].0 == k);
        }
    }
    let first = ns[0];
    let mut best = keys[first];
    let mut w: Ghost<int> = Ghost(0);
    let mut t: usize = 1;
    while t < ns.len()
        invariant
            1 <= t <= ns@.len(),
            forall|q: int| 0 <= q < ns@.len() ==> (#[trigger] ns@[q]) < keys@.len(),
            0 <= w@ < t,
            best == keys@[ns@[w@] as int],
            forall|q: int| 0 <= q < t ==> ts_le(best, #[trigger] keys@[ns@[q] as int]),
        decreases ns@.len() - t,
    {
        let c = keys[ns[t]];
        if !best.le(&c) {
            best = c;
            w = Ghost(t as int);
        }
        t = t + 1;
    }
    proof {
        assert forall|m: int| 0 <= m < es.len() && (#[trigger] es[m]).0 == k implies ts_le(
            best,
            keys@[es[m].1 as int],
        ) by {
            assert(es.contains((k as nat, es[m].1)));
            let q = choose|q: int| 0 <= q < ns@.len() && ns@[q] as nat == es[m].1;
            assert(ts_le(best, keys@[ns@[q] as int]));
        }
        assert(es.contains((k as nat, ns@[w@] as nat)));
        let mw = choose|mw: int| 0 <= mw < es.len() && es[mw] == (k as nat, ns@[w@] as nat);
        assert(es[mw].0 == k && best == keys@[es[mw].1 as int]);
    }
    best
}


/// The key at node `q` is the earliest among the keys of the nodes its
/// edges lead to.
spec fn earliest_key(es: Seq<(nat, nat)>, keys: Seq<Timestamp>, q: int) -> bool {
    &&& forall|m: int|
        0 <= m < es.len() && (#[trigger] es[m]).0 == q ==> ts_le(keys[q], keys[es[m].1 as int])
    &&& exists|m: int|
        0 <= m < es.len() && (#[trigger] es[m]).0 == q && keys[q] == keys[es[m].1 as int]
}


/// Passing over a component that is not cyclic keeps the list of nodes
/// found so far exactly the nodes on a cycle among the components seen.
proof fn lemma_cyclic_nodes_skip(n: nat, es: Seq<(nat, nat)>, cs: Seq<Seq<nat>>, ci: int, nodes: Seq<usize>)
    requires
        crate::digraph::is_scc_partition(n, es, cs),
        edges_valid(n, es),
        0 <= ci < cs.len(),
        !cyclic_component(es, cs[ci]),
        forall|x: nat| #[trigger] nodes.contains(x as usize) && x < n <==> exists|c: int, i: int|
            0 <= c < ci && 0 <= i < cs[c].len() && cs[c][i] == x && reaches(es, x, x),
    ensures
        forall|x: nat| #[trigger] nodes.contains(x as usize) && x < n <==> exists|c: int, i: int|
            0 <= c < ci + 1 && 0 <= i < cs[c].len() && cs[c][i] == x && reaches(es, x, x),
{
    assert forall|x: nat| (exists|c: int, i: int|
        0 <= c < ci + 1 && 0 <= i < cs[c].len() && cs[c][i] == x && reaches(es, x, x)) implies
        #[trigger] nodes.contains(x as usize) && x < n by {
        let (c, i) = choose|c: int, i: int| 0 <= c < ci + 1 && 0 <= i < cs[c].len() && cs[c][i] == x && reaches(es, x, x);
        if c == ci {
            lemma_cyclic_component(n, es, cs, c, i);
        }
    }
}

/// Appending the members of a cyclic component to the list of nodes found
/// so far keeps it exactly the nodes on a cycle among the components seen.
proof fn lemma_cyclic_nodes_step(
    n: nat,
    es: Seq<(nat, nat)>,
    cs: Seq<Seq<nat>>,
    ci: int,
    base: Seq<usize>,
    nodes: Seq<usize>,
    comp: Seq<usize>,
)
    requires
        crate::digraph::is_scc_partition(n, es, cs),
        edges_valid(n, es),
        0 <= ci < cs.len(),
        n <= usize::MAX,
        cs[ci] == comp.map_values(|x: usize| x as nat),
        cyclic_component(es, cs[ci]),
        nodes.len() == base.len() + comp.len(),
        nodes.take(base.len() as int) == base,
        forall|t: int| 0 <= t < comp.len() ==> nodes[base.len() + t] == #[trigger] comp[t],
        forall|x: nat| #[trigger] base.contains(x as usize) && x < n <==> exists|c: int, i: int|
            0 <= c < ci && 0 <= i < cs[c].len() && cs[c][i] == x && reaches(es, x, x),
    ensures
        forall|x: nat| #[trigger] nodes.contains(x as usize) && x < n <==> exists|c: int, i: int|
            0 <= c < ci + 1 && 0 <= i < cs[c].len() && cs[c][i] == x && reaches(es, x, x),
{
    let fl = flatten_components(cs);
    assert forall|x: nat| #[trigger] nodes.contains(x as usize) && x < n implies exists|c: int, i: int|
        0 <= c < ci + 1 && 0 <= i < cs[c].len() && cs[c][i] == x && reaches(es, x, x) by {
        let w = choose|w: int| 0 <= w < nodes.len() && nodes[w] == x as usize;
        if w >= base.len() {
            let u = w - base.len();
            assert(nodes[base.len() + u] == comp[u]);
            assert(cs[ci][u] == comp[u] as nat);
            assert((x as usize) as nat == x);
            assert(cs[ci][u] == x);
            lemma_cyclic_component(n, es, cs, ci, u);
        } else {
            assert(base[w] == nodes.take(base.len() as int)[w]);
            assert(base.contains(x as usize));
        }
    }
    assert forall|x: nat| (exists|c: int, i: int|
        0 <= c < ci + 1 && 0 <= i < cs[c].len() && cs[c][i] == x && reaches(es, x, x)) implies
        #[trigger] nodes.contains(x as usize) && x < n by {
        let (c, i) = choose|c: int, i: int| 0 <= c < ci + 1 && 0 <= i < cs[c].len() && cs[c][i] == x && reaches(es, x, x);
        assert(x < n) by {
            lemma_flatten_at(cs, c, i);
            assert(fl.contains(x));
        }
        if c < ci {
            assert(base.contains(x as usize));
            let w = choose|w: int| 0 <= w < base.len() && base[w] == x as usize;
            assert(base[w] == nodes.take(base.len() as int)[w]);
            assert(nodes[w] == x as usize);
        } else {
            assert(nodes[base.len() + i] == comp[i]);
            assert(comp[i] as nat == x);
        }
    }
}

/// Mapping two sequences with the same elements gives sequences with the
/// same elements.
proof fn lemma_map_multiset<A, B>(s1: Seq<A>, s2: Seq<A>, f: spec_fn(A) -> B)
    requires
        s1.to_multiset() == s2.to_multiset(),
    ensures
        s1.map_values(f).to_multiset() == s2.map_values(f).to_multiset(),
    decreases s1.len(),
{
    broadcast use {vstd::seq_lib::group_to_multiset_ensures, vstd::multiset::group_multiset_axioms};
    if s1.len() == 0 {
        vstd::seq_lib::to_multiset_len(s1);
        vstd::seq_lib::to_multiset_len(s2);
        assert(s2.len() == 0);
        assert(s1.map_values(f) =~= Seq::<B>::empty());
        assert(s2.map_values(f) =~= Seq::<B>::empty());
    } else {
        let x = s1.last();
        let t1 = s1.drop_last();
        assert(s1 =~= t1.push(x));
        vstd::seq_lib::to_multiset_build(t1, x);
        assert(s1.to_multiset().count(x) > 0);
        vstd::seq_lib::to_multiset_contains(s2, x);
        assert(s2.contains(x));
        let i = choose|i: int| 0 <= i < s2.len() && s2[i] == x;
        let t2 = s2.remove(i);
        vstd::seq_lib::to_multiset_remove(s2, i);
        assert(t2.to_multiset() =~= t1.to_multiset());
        lemma_map_multiset(t1, t2, f);
        assert(s1.map_values(f) =~= t1.map_values(f).push(f(x)));
        vstd::seq_lib::to_multiset_build(t1.map_values(f), f(x));
        assert(t2.map_values(f) =~= s2.map_values(f).remove(i));
        assert(s2.map_values(f)[i] == f(x));
        vstd::seq_lib::to_multiset_remove(s2.map_values(f), i);
        assert(t2.map_values(f).to_multiset() == s2.map_values(f).to_multiset().remove(f(x)));
        assert(s2.map_values(f).to_multiset().count(f(x)) > 0) by {
            assert(s2.map_values(f).contains(f(x)));
            vstd::seq_lib::to_multiset_contains(s2.map_values(f), f(x));
        }
        assert(s1.map_values(f).to_multiset() =~= s2.map_values(f).to_multiset());
    }
}

/// `v` lists node numbers in order of their keys.
pub open spec fn sorted_by_key(keys: Seq<Timestamp>, v: Seq<usize>) -> bool {
    forall|i: int, j: int| 0 <= i < j < v.len() ==> ts_le(#[trigger] keys[v[i] as int], #[trigger] keys[v[j] as int])
}

/// Position, among the first `t` nodes of `s`, of the earliest one with the
/// smallest key.
pub open spec fn first_min_upto(keys: Seq<Timestamp>, s: Seq<usize>, t: int) -> int
    decreases t,
{
    if t <= 1 {
        0
    } else {
        let b = first_min_upto(keys, s, t - 1);
        if !ts_le(keys[s[b] as int], keys[s[t - 1] as int]) {
            t - 1
        } else {
            b
        }
    }
}

/// The earliest node with the smallest key lies among the first `t`.
pub proof fn lemma_first_min_range(keys: Seq<Timestamp>, s: Seq<usize>, t: int)
    requires
        1 <= t <= s.len(),
    ensures
        0 <= first_min_upto(keys, s, t) < t,
    decreases t,
{
    if t > 1 {
        lemma_first_min_range(keys, s, t - 1);
    }
}

/// The nodes in key order, nodes with equal keys keeping their order: the
/// earliest node with the smallest key, then the others ordered the same
/// way (a stable sort by key).
pub open spec fn key_order(keys: Seq<Timestamp>, s: Seq<usize>) -> Seq<usize>
    decreases s.len(),
{
    if s.len() == 0 {
        Seq::empty()
    } else {
        let m = first_min_upto(keys, s, s.len() as int);
        proof {
            lemma_first_min_range(keys, s, s.len() as int);
        }
        seq![s[m]] + key_order(keys, s.remove(m))
    }
}


/// The ids `v`, reordered so that no id comes before an earlier one in the
/// order of strings (a stable selection sort).
pub fn sort_ids_by_text(v: Vec<TicketId>) -> (r: Vec<TicketId>)
    ensures
        r@.to_multiset() == v@.to_multiset(),
        ids_of(r@).to_multiset() == ids_of(v@).to_multiset(),
        forall|i: int, j: int| 0 <= i < j < r@.len() ==> !text_lt(#[trigger] r@[j]@, #[trigger] r@[i]@),
{
    broadcast use {vstd::seq_lib::group_to_multiset_ensures, vstd::multiset::group_multiset_axioms};
    let ghost input = v@;
    let mut rest = v;
    let mut out: Vec<TicketId> = Vec::new();
    while rest.len() > 0
        invariant
            out@.to_multiset().add(rest@.to_multiset()) == input.to_multiset(),
            forall|i: int, j: int| 0 <= i < j < out@.len() ==> !text_lt(#[trigger] out@[j]@, #[trigger] out@[i]@),
            forall|i: int, j: int|
                0 <= i < out@.len() && 0 <= j < rest@.len() ==> !text_lt(#[trigger] rest@[j]@, #[trigger] out@[i]@),
        decreases rest@.len(),
    {
        let mut best: usize = 0;
        let mut t: usize = 1;
        proof {
            crate::text::lemma_text_lt_irreflexive(rest@[0]@);
        }
        while t < rest.len()
            invariant
                1 <= t <= rest@.len(),
                best < t,
                forall|j: int| 0 <= j < t ==> !text_lt(#[trigger] rest@[j]@, rest@[best as int]@),
            decreases rest@.len() - t,
        {
            if text_less(rest[t].as_str(), rest[best].as_str()) {
                proof {
                    assert forall|j: int| 0 <= j < t implies !text_lt(#[trigger] rest@[j]@, rest@[t as int]@) by {
                        if text_lt(rest@[j]@, rest@[t as int]@) {
                            crate::text::lemma_text_lt_transitive(rest@[j]@, rest@[t as int]@, rest@[best as int]@);
                        }
                    }
                    crate::text::lemma_text_lt_irreflexive(rest@[t as int]@);
                }
                best = t;
            }
            t = t + 1;
        }
        let ghost r0 = rest@;
        let ghost o0 = out@;
        let x = rest.remove(best);
        assert(rest@ =~= r0.remove(best as int));
        let ghost xv = x;
        out.push(x);
        proof {
            vstd::seq_lib::to_multiset_remove(r0, best as int);
            vstd::seq_lib::to_multiset_build(o0, xv);
            assert(r0.to_multiset().count(xv) > 0) by {
                assert(r0[best as int] == xv);
                assert(r0.contains(xv));
                vstd::seq_lib::to_multiset_contains(r0, xv);
            }
            assert(out@.to_multiset().add(rest@.to_multiset()) =~= o0.to_multiset().add(r0.to_multiset()));
            assert forall|i: int, j: int|
                0 <= i < out@.len() && 0 <= j < rest@.len() implies !text_lt(#[trigger] rest@[j]@, #[trigger] out@[i]@) by {
                let jj = if j < best { j } else { j + 1 };
                assert(rest@[j] == r0[jj]);
                if i < o0.len() {
                    assert(out@[i] == o0[i]);
                } else {
                    assert(out@[i] == xv);
                }
            }
            assert forall|i: int, j: int| 0 <= i < j < out@.len() implies !text_lt(#[trigger] out@[j]@, #[trigger] out@[i]@) by {
                assert(out@[i] == o0[i]);
                if j < o0.len() {
                    assert(out@[j] == o0[j]);
                } else {
                    assert(out@[j] == xv);
                    assert(r0[best as int] == xv);
                }
            }
        }
    }
    proof {
        vstd::seq_lib::to_multiset_len(rest@);
        assert(rest@.to_multiset() =~= vstd::multiset::Multiset::<TicketId>::empty());
        assert(out@.to_multiset().add(vstd::multiset::Multiset::<TicketId>::empty()) =~= out@.to_multiset());
        lemma_map_multiset(out@, input, |t: TicketId| t@);
        assert(ids_of(out@) =~= out@.map_values(|t: TicketId| t@));
        assert(ids_of(input) =~= input.map_values(|t: TicketId| t@));
    }
    out
}


/// The node of the not-yet-known or known stub `id`: its number, adding the
/// node when it is new.
fn stub_node(
    graph: &mut Graph<(), (), Directed, u32>,
    names: &mut Vec<TicketId>,
    id: &TicketId,
    Ghost(limit): Ghost<nat>,
) -> (ix: usize)
    requires
        node_count(*old(graph)) == old(names)@.len(),
        ids_of(old(names)@).no_duplicates(),
        old(names)@.len() < limit,
        limit <= u32::MAX,
    ensures
        edge_list(*final(graph)) == edge_list(*old(graph)),
        node_count(*final(graph)) == final(names)@.len(),
        ids_of(final(names)@).no_duplicates(),
        ix < final(names)@.len(),
        ids_of(final(names)@)[ix as int] == id@,
        ids_of(old(names)@).contains(id@) ==> final(names)@ == old(names)@,
        !ids_of(old(names)@).contains(id@) ==> ids_of(final(names)@) == ids_of(old(names)@).push(
            id@,
        ) && ix == old(names)@.len(),
{
    match crate::graph::position_of(names, id) {
        Some(p) => p,
        None => {
            let ix = graph_add_node(graph);
            let ghost before = ids_of(names@);
            names.push(id.clone());
            proof {
                assert(ids_of(names@) =~= before.push(id@));
                assert(ids_of(names@).no_duplicates()) by {
                    assert forall|a: int, b: int| 0 <= a < b < ids_of(names@).len() implies ids_of(names@)[a]
                        != ids_of(names@)[b] by {
                        if b == before.len() {
                            assert(before.contains(before[a]));
                        }
                    }
                }
            }
            ix
        },
    }
}

impl DepsGraph {
    /// The ids of the nodes, by node number.
    pub closed spec fn names(&self) -> Seq<Seq<char>> {
        ids_of(self.names@)
    }

    /// The edges, as (blocker, dependent) node numbers, oldest first.
    pub closed spec fn edges(&self) -> Seq<(nat, nat)> {
        edge_list(self.graph)
    }

    /// The active tickets by id.
    pub closed spec fn tickets(&self) -> Map<Seq<char>, Ticket> {
        self.tickets.map()
    }

    /// How many of the nodes are active tickets (they come first).
    pub closed spec fn active_count(&self) -> nat {
        self.tickets.key_seq().len()
    }

    /// The stubs by id.
    pub closed spec fn stubs(&self) -> Map<Seq<char>, StubKind> {
        self.stubs.map()
    }

    /// The sort key of each node, by node number.
    pub closed spec fn keys(&self) -> Seq<Timestamp> {
        self.sort_keys@
    }

    /// The failures recorded while the tickets were loaded.
    pub closed spec fn failures(&self) -> Seq<LoadFailure> {
        self.load_failures@
    }


    /// Builds the graph over the active tickets: one node per active ticket,
    /// then one per stub, and one edge from blocker to dependent for every
    /// `blocked_by` id that draws one (see `draws_edge`), ticket by ticket
    /// and blocker by blocker. A stub takes as its sort key the earliest
    /// `created_at` among the tickets it blocks. petgraph numbers nodes and
    /// edges with `u32`, which bounds their number.
    pub fn from_maps(
        active: IdMap<Ticket>,
        archived: &IdMap<Ticket>,
        archived_failures: &IdMap<String>,
        load_failures: Vec<LoadFailure>,
    ) -> (g: DepsGraph)
        requires
            active.wf(),
            archived.wf(),
            archived_failures.wf(),
            active.key_seq().len() + dep_edges(active.map(), archived.map(), active.key_seq()).len()
                < u32::MAX,
        ensures
            g.built_from(active, archived.map(), archived_failures.map()),
            g.failures() == load_failures@,
    {
        let ghost am = active.map();
        let ghost arm = archived.map();
        let ghost fm = archived_failures.map();
        let ghost all_pairs = dep_edges(am, arm, active.key_seq());
        let ghost limit: nat = (active.key_seq().len() + all_pairs.len()) as nat;
        let mut graph = graph_new();
        let mut names: Vec<TicketId> = Vec::new();
        let n_active = active.len();
        let mut i: usize = 0;
        while i < n_active
            invariant
                active.wf(),
                n_active == active.key_seq().len(),
                i <= n_active,
                n_active < u32::MAX,
                names@.len() == i,
                node_count(graph) == names@.len(),
                edge_list(graph) == Seq::<(nat, nat)>::empty(),
                ids_of(names@) == active.key_seq().take(i as int),
            decreases n_active - i,
        {
            graph_add_node(&mut graph);
            let ghost before = names@;
            names.push(active.key_at(i).clone());
            proof {
                assert forall|j: int| 0 <= j < i implies #[trigger] ids_of(names@)[j] == ids_of(before)[j] by {
                    assert(names@[j] == before[j]);
                }
                assert(ids_of(names@) =~= active.key_seq().take(i + 1));
            }
            i = i + 1;
        }
        proof {
            assert(active.key_seq().take(n_active as int) =~= active.key_seq());
            active.lemma_keys_distinct();
            assert(ids_of(names@).take(n_active as int) =~= active.key_seq());
        }
        let mut stubs: IdMap<StubKind> = IdMap::new();
        let ghost mut pairs: Seq<(Seq<char>, Seq<char>)> = Seq::empty();
        let mut i: usize = 0;
        while i < n_active
            invariant
                active.wf(),
                archived.wf(),
                archived_failures.wf(),
                stubs.wf(),
                am == active.map(),
                arm == archived.map(),
                fm == archived_failures.map(),
                all_pairs == dep_edges(am, arm, active.key_seq()),
                limit == active.key_seq().len() + all_pairs.len(),
                limit < u32::MAX,
                i <= n_active,
                pairs == dep_edges(am, arm, active.key_seq().take(i as int)),
                building(node_count(graph), edge_list(graph), ids_of(names@), n_active as nat, active, arm, fm, stubs.map(), pairs),
            decreases n_active - i,
        {
            let ghost key = active.key_seq()[i as int];
            let t = active.value_at(i);
            let bs = &t.front_matter.blocked_by;
            proof {
                lemma_dep_edges_step(am, arm, active.key_seq(), i as int);
                lemma_dep_edges_prefix(am, arm, active.key_seq(), i as int + 1);
                active.lemma_key_in_map(i as int);
                assert(bs@ == am[key].front_matter.blocked_by@);
            }
            let ghost base = pairs;
            let mut j: usize = 0;
            while j < bs.len()
                invariant
                    active.wf(),
                    archived.wf(),
                    archived_failures.wf(),
                    stubs.wf(),
                    am == active.map(),
                    arm == archived.map(),
                    fm == archived_failures.map(),
                    limit < u32::MAX,
                    i < n_active,
                    key == active.key_seq()[i as int],
                    j <= bs@.len(),
                    base.len() + ticket_edges(am, arm, key, bs@).len() + n_active <= limit,
                    pairs == base + ticket_edges(am, arm, key, bs@.take(j as int)),
                    building(node_count(graph), edge_list(graph), ids_of(names@), n_active as nat, active, arm, fm, stubs.map(), pairs),
                decreases bs@.len() - j,
            {
                let b = &bs[j];
                proof {
                    lemma_ticket_edges_step(am, arm, key, bs@, j as int);
                    lemma_ticket_edges_prefix(am, arm, key, bs@, j as int + 1);
                    if draws_edge(am, arm, b@) {
                        assert(names@.len() < limit);
                    }
                    assert(ids_of(names@)[i as int] == key) by {
                        assert(ids_of(names@).take(n_active as int)[i as int] == key);
                    }
                }
                let res = resolve_blocker(&active, archived, archived_failures, b);
                let ghost es0 = edge_list(graph);
                let ghost nm0 = ids_of(names@);
                let ghost st0 = stubs.map();
                let ghost pairs0 = pairs;
                match res {
                    BlockerResolution::Active(bid) => {
                        proof {
                            active.lemma_map_key_listed(bid@);
                            let w = choose|w: int| 0 <= w < active.key_seq().len() && active.key_seq()[w] == bid@;
                            assert(nm0.take(n_active as int)[w] == bid@);
                            assert(nm0[w] == bid@);
                        }
                        let from = match crate::graph::position_of(&names, &bid) {
                            Some(p) => p,
                            None => 0,
                        };
                        proof {
                            assert(nm0.contains(bid@));
                        }
                        graph_add_edge(&mut graph, from, i);
                        proof {
                            pairs = pairs.push((key, b@));
                            lemma_building_step(es0, nm0, st0, pairs0, node_count(graph), edge_list(graph),
                                ids_of(names@), stubs.map(), pairs, n_active as nat, active, arm, fm,
                                from as nat, i as nat, key, b@);
                        }
                    },
                    BlockerResolution::ArchivedDone(_) => {},
                    BlockerResolution::ArchivedStub(bid, status) => {
                        let from = stub_node(&mut graph, &mut names, &bid, Ghost(limit));
                        let ghost bidv = bid@;
                        stubs.insert(bid, StubKind::Archived(status));
                        graph_add_edge(&mut graph, from, i);
                        proof {
                            pairs = pairs.push((key, b@));
                            lemma_building_step(es0, nm0, st0, pairs0, node_count(graph), edge_list(graph),
                                ids_of(names@), stubs.map(), pairs, n_active as nat, active, arm, fm,
                                from as nat, i as nat, key, b@);
                        }
                    },
                    BlockerResolution::Missing(bid) => {
                        let from = stub_node(&mut graph, &mut names, &bid, Ghost(limit));
                        let ghost bidv = bid@;
                        stubs.insert(bid, StubKind::Missing);
                        graph_add_edge(&mut graph, from, i);
                        proof {
                            pairs = pairs.push((key, b@));
                            lemma_building_step(es0, nm0, st0, pairs0, node_count(graph), edge_list(graph),
                                ids_of(names@), stubs.map(), pairs, n_active as nat, active, arm, fm,
                                from as nat, i as nat, key, b@);
                        }
                    },
                    BlockerResolution::ArchivedUnreadable(bid, reason) => {
                        let from = stub_node(&mut graph, &mut names, &bid, Ghost(limit));
                        let ghost bidv = bid@;
                        stubs.insert(bid, StubKind::Unreadable(reason));
                        graph_add_edge(&mut graph, from, i);
                        proof {
                            pairs = pairs.push((key, b@));
                            lemma_building_step(es0, nm0, st0, pairs0, node_count(graph), edge_list(graph),
                                ids_of(names@), stubs.map(), pairs, n_active as nat, active, arm, fm,
                                from as nat, i as nat, key, b@);
                        }
                    },
                }
                j = j + 1;
            }
            proof {
                assert(bs@.take(bs@.len() as int) =~= bs@);
            }
            i = i + 1;
        }
        proof {
            assert(active.key_seq().take(n_active as int) =~= active.key_seq());
        }
        let ghost nm = ids_of(names@);
        let ghost es = edge_list(graph);
        let mut sort_keys: Vec<Timestamp> = Vec::new();
        let mut k: usize = 0;
        while k < n_active
            invariant
                active.wf(),
                am == active.map(),
                n_active == active.key_seq().len(),
                k <= n_active,
                nm.take(n_active as int) == active.key_seq(),
                n_active <= nm.len(),
                sort_keys@.len() == k,
                forall|q: int| 0 <= q < k ==> #[trigger] sort_keys@[q] == am[nm[q]].front_matter.created_at,
            decreases n_active - k,
        {
            let t = active.value_at(k);
            proof {
                assert(nm[k as int] == active.key_seq()[k as int]) by {
                    assert(nm.take(n_active as int)[k as int] == nm[k as int]);
                }
            }
            sort_keys.push(t.front_matter.created_at);
            k = k + 1;
        }
        let total = names.len();
        while k < total
            invariant
                n_active <= k <= total,
                total == nm.len(),
                nm == ids_of(names@),
                es == edge_list(graph),
                node_count(graph) == nm.len(),
                building(node_count(graph), es, nm, n_active as nat, active, arm, fm, stubs.map(), pairs),
                sort_keys@.len() == k,
                forall|q: int| 0 <= q < n_active ==> #[trigger] sort_keys@[q] == am[nm[q]].front_matter.created_at,
                forall|q: int| n_active <= q < k ==> #[trigger] earliest_key(es, sort_keys@, q),
            decreases total - k,
        {
            proof {
                assert(stubs.map().dom().contains(nm[k as int]));
                assert(exists|m: int| 0 <= m < es.len() && es[m].0 == k);
                assert forall|m: int| 0 <= m < es.len() && (#[trigger] es[m]).0 == k implies es[m].1 < sort_keys@.len() by {
                    assert(es[m].1 < n_active);
                }
            }
            let best = earliest_dependent(&graph, &sort_keys, k);
            let ghost before = sort_keys@;
            sort_keys.push(best);
            proof {
                assert forall|q: int| 0 <= q < n_active implies #[trigger] sort_keys@[q] == am[nm[q]].front_matter.created_at by {
                    assert(sort_keys@[q] == before[q]);
                }
                assert forall|q: int| n_active <= q < k + 1 implies #[trigger] earliest_key(es, sort_keys@, q) by {
                    assert forall|m: int| 0 <= m < es.len() && (#[trigger] es[m]).0 == q implies sort_keys@[es[m].1 as int] == before[es[m].1 as int] by {
                        assert(es[m].1 < n_active);
                        assert(sort_keys@ == before.push(best));
                    }
                    if q < k {
                        assert(earliest_key(es, before, q));
                        assert(sort_keys@[q] == before[q]);
                        let m = choose|m: int| 0 <= m < es.len() && (#[trigger] es[m]).0 == q && before[q] == before[es[m].1 as int];
                        assert(sort_keys@[es[m].1 as int] == before[es[m].1 as int]);
                    } else {
                        assert(sort_keys@[q] == best);
                        let m = choose|m: int| 0 <= m < es.len() && (#[trigger] es[m]).0 == k && best == before[es[m].1 as int];
                        assert(sort_keys@[es[m].1 as int] == before[es[m].1 as int]);
                    }
                }
            }
            k = k + 1;
        }
        let ghost sk = sort_keys@;
        let g = DepsGraph { graph, names, tickets: active, stubs, sort_keys, load_failures };
        proof {
            let pairs_all = dep_edges(am, arm, active.key_seq());
            assert(pairs == pairs_all);
            assert(g.edges() == es);
            assert(g.names() == nm);
            assert(g.edges().len() == pairs.len());
            assert(forall|m: int|
                    0 <= m < pairs.len() ==> g.names()[(#[trigger] g.edges()[m]).0 as int]
                        == pairs[m].1 && g.names()[g.edges()[m].1 as int] == pairs[m].0);
            assert forall|x: Seq<char>|
                #[trigger] g.stubs().dom().contains(x) <==> (!am.dom().contains(x)
                    && exists|m: int| 0 <= m < pairs.len() && pairs[m].1 == x) by {
                if g.stubs().dom().contains(x) {
                    let w = choose|w: int| 0 <= w < nm.len() && nm[w] == x;
                    if w < n_active {
                        assert(nm.take(n_active as int)[w] == x);
                        g.tickets.lemma_key_in_map(w);
                    }
                    let m = choose|m: int| 0 <= m < es.len() && es[m].0 == w;
                    assert(nm[es[m].0 as int] == pairs[m].1);
                }
                if !am.dom().contains(x) && exists|m: int| 0 <= m < pairs.len() && pairs[m].1 == x {
                    let m = choose|m: int| 0 <= m < pairs.len() && pairs[m].1 == x;
                    let f = es[m].0 as int;
                    assert(nm[f] == x);
                    if f < n_active {
                        assert(nm.take(n_active as int)[f] == x);
                        g.tickets.lemma_key_in_map(f);
                    }
                }
            }
            assert forall|k: int| 0 <= k < g.names().len() implies g.tickets().dom().contains(#[trigger] g.names()[k]) || g.stubs().dom().contains(g.names()[k]) by {
                if k < n_active {
                    assert(nm.take(n_active as int)[k] == nm[k]);
                    g.tickets.lemma_key_in_map(k);
                }
            }
            assert forall|k: int| g.active_count() <= k < g.names().len() implies #[trigger] earliest_dependent_key(
                pairs,
                am,
                g.names()[k],
                g.keys()[k],
            ) by {
                assert forall|m: int| 0 <= m < pairs.len() && (#[trigger] pairs[m]).1 == g.names()[k] implies ts_le(
                    g.keys()[k],
                    am[pairs[m].0].front_matter.created_at,
                ) by {
                    let f = es[m].0 as int;
                    assert(nm[f] == nm[k]);
                    assert(es[m].0 == k);
                    assert(earliest_key(es, sk, k));
                    assert(sk[es[m].1 as int] == am[nm[es[m].1 as int]].front_matter.created_at);
                }
                assert(earliest_key(es, sk, k));
                let m = choose|m: int| 0 <= m < es.len() && (#[trigger] es[m]).0 == k && sk[k] == sk[es[m].1 as int];
                assert(pairs[m].1 == g.names()[k]);
                assert(pairs[m].0 == nm[es[m].1 as int]);
                assert(sk[es[m].1 as int] == am[nm[es[m].1 as int]].front_matter.created_at);
                assert(g.keys()[k] == am[pairs[m].0].front_matter.created_at);
                assert(0 <= m < pairs.len() && pairs[m].1 == g.names()[k] && g.keys()[k]
                    == active.map()[pairs[m].0].front_matter.created_at);
            }
        }
        g
    }



    /// The graph of the loaded tickets: the active tickets and the failures
    /// met loading them, the archived tickets and the failures met loading
    /// those. An archived file that failed to load is looked up by the id
    /// in its file name; all failures are kept, active ones first.
    pub fn build(
        active: IdMap<Ticket>,
        active_failures: Vec<LoadFailure>,
        archived: IdMap<Ticket>,
        archived_failures: Vec<LoadFailure>,
    ) -> (g: DepsGraph)
        requires
            active.wf(),
            archived.wf(),
            active.key_seq().len() + dep_edges(active.map(), archived.map(), active.key_seq()).len()
                < u32::MAX,
        ensures
            g.built_from(active, archived.map(), reasons_by_id(archived_failures@)),
            g.failures() == active_failures@ + archived_failures@,
    {
        let by_id = failures_by_id(&archived_failures);
        let mut all = active_failures;
        let mut rest = archived_failures;
        all.append(&mut rest);
        Self::from_maps(active, &archived, &by_id, all)
    }

    /// What `from_maps` builds from the active tickets, the archived
    /// tickets and the reasons archived files failed to load: the active
    /// tickets first as nodes, an edge from blocker to dependent for each
    /// pair of `dep_edges`, a stub for each unsatisfied blocker outside the
    /// active set, and the sort keys.
    pub open spec fn built_from(
        &self,
        active: IdMap<Ticket>,
        archived: Map<Seq<char>, Ticket>,
        failures: Map<Seq<char>, String>,
    ) -> bool {
        &&& self.tickets() == active.map()
        &&& self.active_count() == active.key_seq().len()
        &&& self.names().take(self.active_count() as int) == active.key_seq()
        &&& self.names().no_duplicates()
        &&& ({
                let pairs = dep_edges(active.map(), archived, active.key_seq());
                &&& self.edges().len() == pairs.len()
                &&& forall|m: int|
                    0 <= m < pairs.len() ==> self.names()[(#[trigger] self.edges()[m]).0 as int]
                        == pairs[m].1 && self.names()[self.edges()[m].1 as int] == pairs[m].0
                &&& forall|x: Seq<char>|
                    #[trigger] self.stubs().dom().contains(x) <==> (!active.map().dom().contains(x)
                        && exists|m: int| 0 <= m < pairs.len() && pairs[m].1 == x)
                &&& forall|k: int|
                    self.active_count() <= k < self.names().len() ==> #[trigger] earliest_dependent_key(
                        pairs,
                        active.map(),
                        self.names()[k],
                        self.keys()[k],
                    )
            })
        &&& forall|x: Seq<char>| #[trigger]
                self.stubs().dom().contains(x) ==> self.stubs()[x] == stub_kind_of(
                    archived,
                    failures,
                    x,
                )
        &&& forall|k: int|
                0 <= k < self.active_count() ==> #[trigger] self.keys()[k] == active.map()[self.names()[k]].front_matter.created_at
        &&& self.keys().len() == self.names().len()
        &&& forall|k: int| 0 <= k < self.names().len() ==> self.tickets().dom().contains(#[trigger] self.names()[k]) || self.stubs().dom().contains(self.names()[k])
    }

    /// The failures recorded while the tickets were loaded.
    pub fn load_failures(&self) -> (r: &Vec<LoadFailure>)
        ensures
            r@ == self.failures(),
    {
        &self.load_failures
    }

    /// The key of the node with id `x`.
    pub closed spec fn key_of(&self, x: Seq<char>) -> Timestamp {
        self.keys()[self.names().index_of(x)]
    }

    /// The key of a node is found from its id.
    pub proof fn lemma_key_of(&self, k: int)
        requires
            0 <= k < self.names().len(),
            self.names().no_duplicates(),
        ensures
            self.key_of(self.names()[k]) == self.keys()[k],
    {
        let x = self.names()[k];
        assert(self.names().contains(x));
        let j = self.names().index_of(x);
        assert(self.names()[j] == x);
    }

    /// Whether some edge leads to node `k`.
    pub open spec fn has_blocker(es: Seq<(nat, nat)>, k: nat) -> bool {
        exists|m: int| 0 <= m < es.len() && (#[trigger] es[m]).1 == k
    }

    /// The nodes `v`, reordered by key (a stable selection sort).
    fn sort_by_created_at(&self, v: Vec<usize>) -> (r: Vec<usize>)
        requires
            forall|i: int| 0 <= i < v@.len() ==> (#[trigger] v@[i]) < self.names().len(),
        ensures
            r@ == key_order(self.keys(), v@),
            r@.to_multiset() == v@.to_multiset(),
            forall|i: int| 0 <= i < r@.len() ==> (#[trigger] r@[i]) < self.names().len(),
            sorted_by_key(self.keys(), r@),
    {
        broadcast use {vstd::seq_lib::group_to_multiset_ensures, vstd::multiset::group_multiset_axioms};
        proof {
            use_type_invariant(self);
        }
        let ghost input = v@;
        let mut rest = v;
        let mut out: Vec<usize> = Vec::new();
        while rest.len() > 0
            invariant
                self.sort_keys@.len() == self.names().len(),
                key_order(self.keys(), input) == out@ + key_order(self.keys(), rest@),
                out@.to_multiset().add(rest@.to_multiset()) == input.to_multiset(),
                forall|i: int| 0 <= i < rest@.len() ==> (#[trigger] rest@[i]) < self.names().len(),
                forall|i: int| 0 <= i < out@.len() ==> (#[trigger] out@[i]) < self.names().len(),
                sorted_by_key(self.keys(), out@),
                forall|i: int, j: int|
                    0 <= i < out@.len() && 0 <= j < rest@.len() ==> ts_le(
                        #[trigger] self.keys()[out@[i] as int],
                        #[trigger] self.keys()[rest@[j] as int],
                    ),
            decreases rest@.len(),
        {
            let mut best: usize = 0;
            let mut t: usize = 1;
            while t < rest.len()
                invariant
                    self.sort_keys@.len() == self.names().len(),
                    forall|i: int| 0 <= i < rest@.len() ==> (#[trigger] rest@[i]) < self.names().len(),
                    1 <= t <= rest@.len(),
                    best < t,
                    best == first_min_upto(self.keys(), rest@, t as int),
                    forall|j: int| 0 <= j < t ==> ts_le(
                        self.keys()[rest@[best as int] as int],
                        #[trigger] self.keys()[rest@[j] as int],
                    ),
                decreases rest@.len() - t,
            {
                if !self.sort_keys[rest[best]].le(&self.sort_keys[rest[t]]) {
                    best = t;
                }
                t = t + 1;
            }
            let ghost r0 = rest@;
            let ghost o0 = out@;
            let x = rest.remove(best);
            assert(rest@ =~= r0.remove(best as int));
            out.push(x);
            proof {
                assert(key_order(self.keys(), r0) == seq![x] + key_order(self.keys(), rest@));
                assert(out@ + key_order(self.keys(), rest@) =~= o0 + (seq![x] + key_order(self.keys(), rest@)));
                vstd::seq_lib::to_multiset_remove(r0, best as int);
                vstd::seq_lib::to_multiset_build(o0, x);
                assert(out@.to_multiset() == o0.to_multiset().insert(x));
                assert(r0.to_multiset().count(x) > 0) by {
                    assert(r0[best as int] == x);
                    assert(r0.contains(x));
                    vstd::seq_lib::to_multiset_contains(r0, x);
                }
                assert(out@.to_multiset().add(rest@.to_multiset()) =~= o0.to_multiset().add(r0.to_multiset()));
                assert forall|j: int| 0 <= j < rest@.len() implies ts_le(
                    self.keys()[x as int],
                    #[trigger] self.keys()[rest@[j] as int],
                ) by {
                    if j < best {
                        assert(rest@[j] == r0[j]);
                    } else {
                        assert(rest@[j] == r0[j + 1]);
                    }
                }
                assert forall|i: int, j: int|
                    0 <= i < out@.len() && 0 <= j < rest@.len() implies ts_le(
                        #[trigger] self.keys()[out@[i] as int],
                        #[trigger] self.keys()[rest@[j] as int],
                    ) by {
                    if i < o0.len() {
                        assert(out@[i] == o0[i]);
                        if j < best {
                            assert(rest@[j] == r0[j]);
                        } else {
                            assert(rest@[j] == r0[j + 1]);
                        }
                    } else {
                        assert(out@[i] == x);
                    }
                }
                assert forall|i: int, j: int| 0 <= i < j < out@.len() implies ts_le(
                    #[trigger] self.keys()[out@[i] as int],
                    #[trigger] self.keys()[out@[j] as int],
                ) by {
                    if j < o0.len() {
                        assert(out@[i] == o0[i]);
                        assert(out@[j] == o0[j]);
                    } else {
                        assert(out@[i] == o0[i]);
                        assert(out@[j] == x);
                        assert(r0[best as int] == x);
                    }
                }
                assert forall|i: int| 0 <= i < rest@.len() implies (#[trigger] rest@[i]) < self.names().len() by {
                    if i < best {
                        assert(rest@[i] == r0[i]);
                    } else {
                        assert(rest@[i] == r0[i + 1]);
                    }
                }
            }
        }
        proof {
            assert(rest@.to_multiset() =~= vstd::multiset::Multiset::<usize>::empty());
            assert(out@.to_multiset().add(vstd::multiset::Multiset::<usize>::empty()) =~= out@.to_multiset());
            assert(out@ + key_order(self.keys(), rest@) =~= out@);
        }
        out
    }

    /// The ids of the nodes `v`, in order.
    fn ids_of_nodes(&self, v: &Vec<usize>) -> (r: Vec<TicketId>)
        requires
            forall|i: int| 0 <= i < v@.len() ==> (#[trigger] v@[i]) < self.names().len(),
        ensures
            ids_of(r@) == v@.map_values(|k: usize| self.names()[k as int]),
    {
        proof {
            use_type_invariant(self);
        }
        let mut r: Vec<TicketId> = Vec::new();
        let mut i: usize = 0;
        while i < v.len()
            invariant
                i <= v@.len(),
                r@.len() == i,
                self.names@.len() == self.names().len(),
                forall|q: int| 0 <= q < v@.len() ==> (#[trigger] v@[q]) < self.names().len(),
                ids_of(r@) == v@.map_values(|k: usize| self.names()[k as int]).take(i as int),
            decreases v@.len() - i,
        {
            let c = self.names[v[i]].clone();
            let ghost before = r@;
            r.push(c);
            proof {
                assert forall|j: int| 0 <= j < i implies #[trigger] ids_of(r@)[j] == ids_of(before)[j] by {
                    assert(r@[j] == before[j]);
                }
                assert(ids_of(r@) =~= v@.map_values(|k: usize| self.names()[k as int]).take(i + 1));
            }
            i = i + 1;
        }
        proof {
            assert(v@.map_values(|k: usize| self.names()[k as int]).take(i as int) =~= v@.map_values(|k: usize| self.names()[k as int]));
        }
        r
    }


    /// The node with id `x`.
    pub closed spec fn node_of(&self, x: Seq<char>) -> int {
        self.names().index_of(x)
    }

    /// The node numbers of the neighbours of `k` returned by petgraph, seen
    /// as a list of ids, hold the same ids as the neighbour list.
    proof fn lemma_neighbour_ids(&self, ns: Seq<usize>, k: nat, d: Dir)
        requires
            ns.map_values(|x: usize| x as nat) == neighbours_in_order(self.edges(), k, d).reverse(),
            forall|i: int| 0 <= i < ns.len() ==> (#[trigger] ns[i]) < self.names().len(),
        ensures
            ns.map_values(|j: usize| self.names()[j as int]).to_multiset() == neighbours_in_order(
                self.edges(),
                k,
                d,
            ).map_values(|j: nat| self.names()[j as int]).to_multiset(),
    {
        let n = neighbours_in_order(self.edges(), k, d);
        let g = |j: nat| self.names()[j as int];
        assert(ns.map_values(|j: usize| self.names()[j as int]) =~= n.reverse().map_values(g)) by {
            assert forall|i: int| 0 <= i < ns.len() implies ns.map_values(|j: usize| self.names()[j as int])[i]
                == n.reverse().map_values(g)[i] by {
                assert(ns.map_values(|x: usize| x as nat)[i] == n.reverse()[i]);
            }
        }
        assert(n.reverse().map_values(g) =~= n.map_values(g).reverse());
        n.map_values(g).lemma_reverse_to_multiset();
    }

    /// The nodes among the first `k` that nothing blocks, in node order.
    pub open spec fn free_nodes(es: Seq<(nat, nat)>, k: nat) -> Seq<usize>
        decreases k,
    {
        if k == 0 {
            Seq::empty()
        } else {
            let r = Self::free_nodes(es, (k - 1) as nat);
            if !Self::has_blocker(es, (k - 1) as nat) {
                r.push((k - 1) as usize)
            } else {
                r
            }
        }
    }

    /// The roots of the forest: the nodes that nothing blocks, by key.
    pub open spec fn root_ids(&self) -> Seq<Seq<char>> {
        key_order(self.keys(), Self::free_nodes(self.edges(), self.names().len())).map_values(
            |k: usize| self.names()[k as int],
        )
    }

    /// The nodes that the edges of node `x` lead to, as petgraph lists
    /// them: the most recently added edge first.
    pub open spec fn child_nodes(&self, x: Seq<char>) -> Seq<usize> {
        neighbours_in_order(self.edges(), self.node_of(x) as nat, Dir::Outgoing).reverse().map_values(
            |j: nat| j as usize,
        )
    }

    /// The ids of the tickets that `x` blocks, by key, one per edge.
    pub open spec fn child_ids(&self, x: Seq<char>) -> Seq<Seq<char>> {
        key_order(self.keys(), self.child_nodes(x)).map_values(|k: usize| self.names()[k as int])
    }

    /// The ids of the nodes that nothing blocks, each once, by key.
    pub fn roots(&self) -> (r: Vec<TicketId>)
        ensures
            ids_of(r@) == self.root_ids(),
            ids_of(r@).no_duplicates(),
            forall|x: Seq<char>| #[trigger] ids_of(r@).contains(x) <==> exists|k: int|
                0 <= k < self.names().len() && self.names()[k] == x && !Self::has_blocker(self.edges(), k as nat),
            forall|i: int, j: int|
                0 <= i < j < r@.len() ==> ts_le(
                    self.key_of(#[trigger] ids_of(r@)[i]),
                    self.key_of(#[trigger] ids_of(r@)[j]),
                ),
    {
        proof {
            use_type_invariant(self);
        }
        let ghost es = self.edges();
        let n = self.names.len();
        let mut v: Vec<usize> = Vec::new();
        let mut k: usize = 0;
        while k < n
            invariant
                n == self.names().len(),
                node_count(self.graph) == n,
                es == edge_list(self.graph),
                k <= n,
                forall|i: int| 0 <= i < v@.len() ==> (#[trigger] v@[i]) < k,
                forall|i: int, j: int| 0 <= i < j < v@.len() ==> (#[trigger] v@[i]) < (#[trigger] v@[j]),
                forall|q: int| 0 <= q < k ==> (#[trigger] v@.contains(q as usize) <==> !Self::has_blocker(es, q as nat)),
                v@ == Self::free_nodes(es, k as nat),
            decreases n - k,
        {
            let inc = graph_neighbours(&self.graph, k, Dir::Incoming);
            proof {
                let nb = neighbours_in_order(es, k as nat, Dir::Incoming);
                assert(inc@.map_values(|x: usize| x as nat).len() == nb.len());
                if Self::has_blocker(es, k as nat) {
                    let m = choose|m: int| 0 <= m < es.len() && (#[trigger] es[m]).1 == k;
                    assert(es.contains((es[m].0, k as nat)));
                    lemma_neighbours(es, k as nat, Dir::Incoming, es[m].0);
                } else if nb.len() > 0 {
                    lemma_neighbours(es, k as nat, Dir::Incoming, nb[0]);
                    assert(nb.contains(nb[0]));
                    let m = choose|m: int| 0 <= m < es.len() && es[m] == (nb[0], k as nat);
                    assert(es[m].1 == k);
                }
            }
            proof {
                assert((inc@.len() == 0) == !Self::has_blocker(es, k as nat)) by {
                    let nb = neighbours_in_order(es, k as nat, Dir::Incoming);
                    assert(inc@.map_values(|x: usize| x as nat) == nb.reverse());
                    assert(inc@.map_values(|x: usize| x as nat).len() == inc@.len());
                }
            }
            let ghost v0 = v@;
            if inc.len() == 0 {
                v.push(k);
            }
            proof {
                assert forall|q: int| 0 <= q < k + 1 implies (#[trigger] v@.contains(q as usize) <==> !Self::has_blocker(es, q as nat)) by {
                    if q < k {
                        if v@.contains(q as usize) && !v0.contains(q as usize) {
                            let w = choose|w: int| 0 <= w < v@.len() && v@[w] == q as usize;
                            assert(w == v0.len());
                        }
                        if v0.contains(q as usize) {
                            let w = choose|w: int| 0 <= w < v0.len() && v0[w] == q as usize;
                            assert(v@[w] == q as usize);
                        }
                    } else {
                        if v@.contains(q as usize) && !(inc@.len() == 0) {
                            let w = choose|w: int| 0 <= w < v@.len() && v@[w] == q as usize;
                            assert(v0[w] < k);
                        }
                        if inc@.len() == 0 {
                            assert(v@[v0.len() as int] == k);
                        }
                    }
                }
            }
            k = k + 1;
        }
        let ghost v_all = v@;
        let sorted = self.sort_by_created_at(v);
        let r = self.ids_of_nodes(&sorted);
        proof {
            let nm = self.names();
            let f = |j: usize| nm[j as int];
            assert(ids_of(r@) =~= self.root_ids());
            assert(v_all.no_duplicates());
            assert forall|q: usize| #[trigger] sorted@.contains(q) <==> v_all.contains(q) by {
                vstd::seq_lib::to_multiset_contains(sorted@, q);
                vstd::seq_lib::to_multiset_contains(v_all, q);
            }
            assert(sorted@.no_duplicates()) by {
                v_all.lemma_multiset_has_no_duplicates();
                sorted@.lemma_multiset_has_no_duplicates_conv();
            }
            assert(ids_of(r@).no_duplicates()) by {
                assert forall|a: int, b: int| 0 <= a < b < ids_of(r@).len() implies ids_of(r@)[a] != ids_of(r@)[b] by {
                    assert(ids_of(r@)[a] == nm[sorted@[a] as int]);
                    assert(ids_of(r@)[b] == nm[sorted@[b] as int]);
                }
            }
            assert forall|x: Seq<char>| #[trigger] ids_of(r@).contains(x) <==> exists|k: int|
                0 <= k < nm.len() && nm[k] == x && !Self::has_blocker(es, k as nat) by {
                if ids_of(r@).contains(x) {
                    let w = choose|w: int| 0 <= w < ids_of(r@).len() && ids_of(r@)[w] == x;
                    assert(ids_of(r@)[w] == nm[sorted@[w] as int]);
                    assert(sorted@.contains(sorted@[w]));
                    let q = sorted@[w] as int;
                    assert(v_all.contains(q as usize));
                    assert(0 <= q < nm.len() && nm[q] == x && !Self::has_blocker(es, q as nat));
                }
                if exists|k: int| 0 <= k < nm.len() && nm[k] == x && !Self::has_blocker(es, k as nat) {
                    let q = choose|k: int| 0 <= k < nm.len() && nm[k] == x && !Self::has_blocker(es, k as nat);
                    assert(v_all.contains(q as usize));
                    assert(sorted@.contains(q as usize));
                    let w = choose|w: int| 0 <= w < sorted@.len() && sorted@[w] == q as usize;
                    assert(ids_of(r@)[w] == nm[sorted@[w] as int]);
                }
            }
            assert forall|i: int, j: int| 0 <= i < j < r@.len() implies ts_le(
                self.key_of(#[trigger] ids_of(r@)[i]),
                self.key_of(#[trigger] ids_of(r@)[j]),
            ) by {
                assert(ids_of(r@)[i] == nm[sorted@[i] as int]);
                assert(ids_of(r@)[j] == nm[sorted@[j] as int]);
                self.lemma_key_of(sorted@[i] as int);
                self.lemma_key_of(sorted@[j] as int);
            }
        }
        r
    }

    /// The ids of the tickets that the ticket `id` blocks, one per edge,
    /// by key.
    pub fn children(&self, id: &TicketId) -> (r: Vec<TicketId>)
        requires
            self.names().contains(id@),
        ensures
            ids_of(r@).to_multiset() == neighbours_in_order(
                self.edges(),
                self.node_of(id@) as nat,
                Dir::Outgoing,
            ).map_values(|j: nat| self.names()[j as int]).to_multiset(),
            forall|i: int, j: int|
                0 <= i < j < r@.len() ==> ts_le(
                    self.key_of(#[trigger] ids_of(r@)[i]),
                    self.key_of(#[trigger] ids_of(r@)[j]),
                ),
            forall|i: int| 0 <= i < r@.len() ==> self.names().contains(#[trigger] ids_of(r@)[i]),
            ids_of(r@) == self.child_ids(id@),
    {
        proof {
            use_type_invariant(self);
        }
        let ix = match crate::graph::position_of(&self.names, id) {
            Some(p) => p,
            None => 0,
        };
        proof {
            let j = self.names().index_of(id@);
            assert(self.names()[j] == id@);
            assert(j == ix);
        }
        let ns = graph_neighbours(&self.graph, ix, Dir::Outgoing);
        proof {
            let es = self.edges();
            let n = neighbours_in_order(es, ix as nat, Dir::Outgoing);
            assert(ns@.map_values(|x: usize| x as nat).len() == n.len());
            assert forall|i: int| 0 <= i < ns@.len() implies (#[trigger] ns@[i]) < self.names().len() by {
                assert(ns@.map_values(|x: usize| x as nat)[i] == n.reverse()[i]);
                assert(n.contains(n[n.len() - 1 - i]));
                lemma_neighbours(es, ix as nat, Dir::Outgoing, n[n.len() - 1 - i]);
                let m = choose|m: int| 0 <= m < es.len() && es[m] == (ix as nat, n[n.len() - 1 - i]);
                assert(es[m].1 < self.names().len());
            }
            self.lemma_neighbour_ids(ns@, ix as nat, Dir::Outgoing);
            assert(ix as int == self.node_of(id@));
            assert(ns@ =~= self.child_nodes(id@)) by {
                assert forall|i: int| 0 <= i < ns@.len() implies ns@[i] == self.child_nodes(id@)[i] by {
                    assert(ns@.map_values(|x: usize| x as nat)[i] == n.reverse()[i]);
                }
            }
        }
        let ghost ns0 = ns@;
        let sorted = self.sort_by_created_at(ns);
        let r = self.ids_of_nodes(&sorted);
        proof {
            let nm = self.names();
            let f = |k: usize| self.names()[k as int];
            assert(ids_of(r@) == sorted@.map_values(f));
            assert(ids_of(r@) =~= self.child_ids(id@));
            assert(ids_of(r@).len() == sorted@.len());
            lemma_map_multiset(sorted@, ns0, f);
            assert forall|i: int| 0 <= i < r@.len() implies self.names().contains(#[trigger] ids_of(r@)[i]) by {
                assert(ids_of(r@)[i] == nm[sorted@[i] as int]);
            }
            assert forall|i: int, j: int| 0 <= i < j < r@.len() implies ts_le(
                self.key_of(#[trigger] ids_of(r@)[i]),
                self.key_of(#[trigger] ids_of(r@)[j]),
            ) by {
                assert(ids_of(r@)[i] == nm[sorted@[i] as int]);
                assert(ids_of(r@)[j] == nm[sorted@[j] as int]);
                self.lemma_key_of(sorted@[i] as int);
                self.lemma_key_of(sorted@[j] as int);
            }
        }
        r
    }


    /// The ids of the tickets that take part in a `blocked_by` cycle (a
    /// ticket blocked by itself included), each once, in the order of
    /// strings; none when the graph has no cycle.
    #[verifier::spinoff_prover]
    pub fn cyclic_ids(&self) -> (r: Vec<TicketId>)
        ensures
            forall|x: Seq<char>| #[trigger] ids_of(r@).contains(x) <==> exists|k: int|
                0 <= k < self.names().len() && self.names()[k] == x && reaches(self.edges(), k as nat, k as nat),
            ids_of(r@).no_duplicates(),
            forall|i: int, j: int| 0 <= i < j < r@.len() ==> !text_lt(#[trigger] r@[j]@, #[trigger] r@[i]@),
    {
        proof {
            use_type_invariant(self);
        }
        let ghost es = self.edges();
        let ghost n = self.names().len();
        let n_exec = self.names.len();
        assert(n == n_exec);
        if graph_is_acyclic(&self.graph) {
            let r: Vec<TicketId> = Vec::new();
            proof {
                assert(ids_of(r@) =~= Seq::<Seq<char>>::empty());
                assert forall|x: Seq<char>| #[trigger] ids_of(r@).contains(x) <==> exists|k: int|
                    0 <= k < self.names().len() && self.names()[k] == x && reaches(es, k as nat, k as nat) by {
                    if exists|k: int| 0 <= k < self.names().len() && self.names()[k] == x && reaches(es, k as nat, k as nat) {
                        let k = choose|k: int| 0 <= k < self.names().len() && self.names()[k] == x && reaches(es, k as nat, k as nat);
                        assert(has_cycle(node_count(self.graph), es));
                    }
                }
            }
            return r;
        }
        let comps = graph_components(&self.graph);
        let ghost cs = comps@.map_values(|c: Vec<usize>| c@.map_values(|x: usize| x as nat));
        let ghost fl = flatten_components(cs);
        let mut nodes: Vec<usize> = Vec::new();
        let ghost mut pos: Seq<int> = Seq::empty();
        let mut ci: usize = 0;
        while ci < comps.len()
            invariant
                crate::digraph::is_scc_partition(n, es, cs),
                edges_valid(n, es),
                n == self.names().len(),
                cs == comps@.map_values(|c: Vec<usize>| c@.map_values(|x: usize| x as nat)),
                fl == flatten_components(cs),
                es == edge_list(self.graph),
                node_count(self.graph) == n,
                ci <= comps@.len(),
                n <= usize::MAX,
                pos.len() == nodes@.len(),
                forall|t: int| 0 <= t < nodes@.len() ==> 0 <= #[trigger] pos[t] < flatten_components(cs.take(ci as int)).len(),
                forall|t: int| 0 <= t < nodes@.len() ==> fl[#[trigger] pos[t]] == nodes@[t] as nat,
                forall|a: int, b: int| 0 <= a < b < nodes@.len() ==> #[trigger] pos[a] < #[trigger] pos[b],
                forall|t: int| 0 <= t < nodes@.len() ==> (#[trigger] nodes@[t]) < n,
                forall|x: nat| #[trigger] nodes@.contains(x as usize) && x < n <==> exists|c: int, i: int|
                    0 <= c < ci && 0 <= i < cs[c].len() && cs[c][i] == x && reaches(es, x, x),
            decreases comps@.len() - ci,
        {
            let comp = &comps[ci];
            proof {
                assert(cs[ci as int] == comp@.map_values(|x: usize| x as nat));
                assert(cs[ci as int].len() > 0);
                lemma_flatten_at(cs, ci as int, 0);
                crate::digraph::lemma_flatten_prefix_len(cs, ci as int + 1);
            }
            let first = comp[0];
            assert(first < node_count(self.graph)) by {
                let k = flatten_components(cs.take(ci as int)).len() as int;
                assert(fl[k] == cs[ci as int][0]);
                assert(fl.contains(first as nat));
            }
            let keep = comp.len() > 1 || graph_contains_edge(&self.graph, first, first);
            proof {
                assert(keep == cyclic_component(es, cs[ci as int]));
            }
            if keep {
                let mut q: usize = 0;
                let ghost base = nodes@;
                let ghost pbase = pos;
                while q < comp.len()
                    invariant
                        crate::digraph::is_scc_partition(n, es, cs),
                        edges_valid(n, es),
                        n == self.names().len(),
                        fl == flatten_components(cs),
                        ci < comps@.len(),
                        comp == &comps@[ci as int],
                        cs[ci as int] == comp@.map_values(|x: usize| x as nat),
                        cyclic_component(es, cs[ci as int]),
                        q <= comp@.len(),
                        pos.len() == nodes@.len(),
                        nodes@.len() == base.len() + q,
                        nodes@.take(base.len() as int) == base,
                        pos.take(base.len() as int) == pbase,
                        forall|t: int| 0 <= t < base.len() ==> 0 <= #[trigger] pbase[t] < flatten_components(cs.take(ci as int)).len(),
                        forall|t: int| 0 <= t < q ==> #[trigger] pos[base.len() + t] == flatten_components(cs.take(ci as int)).len() + t,
                        forall|t: int| 0 <= t < q ==> nodes@[base.len() + t] == #[trigger] comp@[t],
                    decreases comp@.len() - q,
                {
                    let ghost off = flatten_components(cs.take(ci as int)).len();
                    nodes.push(comp[q]);
                    proof {
                        pos = pos.push(off + q);
                        assert(nodes@.take(base.len() as int) =~= base);
                        assert(pos.take(base.len() as int) =~= pbase);
                    }
                    q = q + 1;
                }
                proof {
                    let off = flatten_components(cs.take(ci as int)).len();
                    assert forall|t: int| 0 <= t < nodes@.len() implies 0 <= #[trigger] pos[t] < flatten_components(cs.take(ci + 1)).len()
                        && fl[pos[t]] == nodes@[t] as nat && nodes@[t] < n by {
                        if t < base.len() {
                            assert(pos[t] == pbase[t]);
                            assert(nodes@[t] == base[t]);
                        } else {
                            let u = t - base.len();
                            assert(pos[base.len() + u] == off + u);
                            assert(nodes@[base.len() + u] == comp@[u]);
                            lemma_flatten_at(cs, ci as int, u);
                            assert(cs[ci as int][u] == comp@[u] as nat);
                            assert(fl.contains(comp@[u] as nat));
                        }
                    }
                    assert forall|t: int| 0 <= t < nodes@.len() implies (#[trigger] nodes@[t]) < n by {
                        assert(0 <= pos[t]);
                    }
                    assert forall|a: int, b: int| 0 <= a < b < nodes@.len() implies #[trigger] pos[a] < #[trigger] pos[b] by {
                        if b < base.len() {
                            assert(pos[a] == pbase[a] && pos[b] == pbase[b]);
                            assert(pbase[a] < pbase[b]);
                        } else if a < base.len() {
                            assert(pos[a] == pbase[a]);
                            assert(pbase[a] < off);
                            assert(pos[base.len() + (b - base.len())] == off + (b - base.len()));
                        } else {
                            assert(pos[base.len() + (a - base.len())] == off + (a - base.len()));
                            assert(pos[base.len() + (b - base.len())] == off + (b - base.len()));
                        }
                    }
                    assert(nodes@.take(base.len() as int) =~= base);
                    lemma_cyclic_nodes_step(n, es, cs, ci as int, base, nodes@, comp@);
                }
            } else {
                proof {
                    lemma_cyclic_nodes_skip(n, es, cs, ci as int, nodes@);
                    assert forall|t: int| 0 <= t < nodes@.len() implies 0 <= #[trigger] pos[t] < flatten_components(cs.take(ci + 1)).len() by {}
                }
            }
            ci = ci + 1;
        }
        let ids = self.ids_of_nodes(&nodes);
        let r = sort_ids_by_text(ids);
        proof {
            assert(cs.take(ci as int) =~= cs);
            let nm = self.names();
            assert(nodes@.no_duplicates()) by {
                assert forall|a: int, b: int| 0 <= a < b < nodes@.len() implies nodes@[a] != nodes@[b] by {
                    assert(pos[a] < pos[b]);
                    assert(fl[pos[a]] != fl[pos[b]]);
                }
            }
            assert(ids_of(ids@).no_duplicates()) by {
                assert forall|a: int, b: int| 0 <= a < b < ids_of(ids@).len() implies ids_of(ids@)[a] != ids_of(ids@)[b] by {
                    assert(ids_of(ids@)[a] == nm[nodes@[a] as int]);
                    assert(ids_of(ids@)[b] == nm[nodes@[b] as int]);
                }
            }
            assert forall|x: Seq<char>| #[trigger] ids_of(r@).contains(x) <==> ids_of(ids@).contains(x) by {
                vstd::seq_lib::to_multiset_contains(ids_of(r@), x);
                vstd::seq_lib::to_multiset_contains(ids_of(ids@), x);
            }
            assert(ids_of(r@).no_duplicates()) by {
                ids_of(ids@).lemma_multiset_has_no_duplicates();
                ids_of(r@).lemma_multiset_has_no_duplicates_conv();
            }
            assert forall|x: Seq<char>| #[trigger] ids_of(r@).contains(x) <==> exists|k: int|
                0 <= k < nm.len() && nm[k] == x && reaches(es, k as nat, k as nat) by {
                if ids_of(ids@).contains(x) {
                    let w = choose|w: int| 0 <= w < ids_of(ids@).len() && ids_of(ids@)[w] == x;
                    assert(ids_of(ids@)[w] == nm[nodes@[w] as int]);
                    let k = nodes@[w] as nat;
                    assert(nodes@.contains(k as usize));
                    let (c, i) = choose|c: int, i: int| 0 <= c < ci && 0 <= i < cs[c].len() && cs[c][i] == k && reaches(es, k, k);
                    assert(0 <= k < nm.len() && nm[k as int] == x && reaches(es, k, k));
                }
                if exists|k: int| 0 <= k < nm.len() && nm[k] == x && reaches(es, k as nat, k as nat) {
                    let k = choose|k: int| 0 <= k < nm.len() && nm[k] == x && reaches(es, k as nat, k as nat);
                    assert(fl.contains(k as nat));
                    lemma_flatten_member(cs, k as nat);
                    let (c, i) = choose|c: int, i: int| 0 <= c < cs.len() && 0 <= i < cs[c].len() && cs[c][i] == k as nat;
                    assert(nodes@.contains(k as usize));
                    let w = choose|w: int| 0 <= w < nodes@.len() && nodes@[w] == k as usize;
                    assert(ids_of(ids@)[w] == nm[nodes@[w] as int]);
                    assert(ids_of(ids@).contains(x));
                }
            }
        }
        r
    }

    /// The line shown for the node `id`: a stub's own label, or
    /// `<id>  <status>  <title>` for an active ticket.
    pub fn label(&self, id: &TicketId) -> (r: String)
        requires
            self.names().contains(id@),
        ensures
            self.stubs().dom().contains(id@) ==> r@ == self.stubs()[id@].label_spec(id@),
            !self.stubs().dom().contains(id@) ==> r@ == id@ + "  "@ + self.tickets()[id@].front_matter.status.label()
                + "  "@ + self.tickets()[id@].front_matter.title@,
    {
        proof {
            use_type_invariant(self);
        }
        match self.stubs.get(id) {
            Some(stub) => stub.label(id),
            None => {
                proof {
                    let w = choose|w: int| 0 <= w < self.names().len() && self.names()[w] == id@;
                    if w < self.tickets.key_seq().len() {
                        assert(self.names().take(self.tickets.key_seq().len() as int)[w] == id@);
                        self.tickets.lemma_key_in_map(w);
                    } else {
                        assert(self.stubs.map().dom().contains(self.names()[w]));
                    }
                }
                let t = self.tickets.get(id);
                match t {
                    Some(t) => {
                        let mut r = crate::text::owned(id.as_str());
                        crate::text::push_str(&mut r, "  ");
                        crate::text::push_str(&mut r, t.front_matter.status.as_str());
                        crate::text::push_str(&mut r, "  ");
                        crate::text::push_str(&mut r, t.front_matter.title.as_str());
                        r
                    },
                    None => crate::text::owned(id.as_str()),
                }
            },
        }
    }

    #[verifier::type_invariant]
    closed spec fn inv(&self) -> bool {
        &&& node_count(self.graph) == self.names@.len()
        &&& self.sort_keys@.len() == self.names@.len()
        &&& edges_valid(node_count(self.graph), edge_list(self.graph))
        &&& ids_of(self.names@).no_duplicates()
        &&& self.tickets.wf()
        &&& self.stubs.wf()
        &&& self.tickets.key_seq().len() <= self.names@.len()
        &&& ids_of(self.names@).take(self.tickets.key_seq().len() as int) == self.tickets.key_seq()
        &&& forall|k: int|
            self.tickets.key_seq().len() <= k < self.names@.len() ==> self.stubs.map().dom().contains(
                #[trigger] ids_of(self.names@)[k],
            )
        &&& forall|x: Seq<char>| #[trigger]
            self.stubs.map().dom().contains(x) ==> ids_of(self.names@).contains(x)
                && !self.tickets.map().dom().contains(x)
        &&& forall|m: int|
            0 <= m < edge_list(self.graph).len() ==> (#[trigger] edge_list(self.graph)[m]).1
                < self.tickets.key_seq().len()
    }
}


/// How a line of the rendered forest ends.
#[derive(Clone, Copy, Debug, PartialEq, Eq, Structural)]
pub enum LineMark {
    /// The node is shown here with its subtree.
    Expanded,
    /// The node was expanded on an earlier branch: `(see above)`.
    Repeat,
    /// The node is on the branch being drawn: `(cycle: see above)`.
    Cycle,
}

/// One line of the rendered forest: the tree drawing before the label, the
/// node, and how the line ends.
pub struct ForestLine {
    pub prefix: String,
    pub id: TicketId,
    pub mark: LineMark,
}

/// The ids of the expanded lines, in order.
pub open spec fn expanded_ids(lines: Seq<ForestLine>) -> Seq<Seq<char>>
    decreases lines.len(),
{
    if lines.len() == 0 {
        Seq::empty()
    } else {
        let r = expanded_ids(lines.drop_last());
        if lines.last().mark == LineMark::Expanded {
            r.push(lines.last().id@)
        } else {
            r
        }
    }
}

/// Every line that points above names a node expanded on an earlier line.
pub open spec fn refers_above(lines: Seq<ForestLine>) -> bool {
    forall|i: int|
        0 <= i < lines.len() && lines[i].mark != LineMark::Expanded ==> expanded_ids(lines.take(i)).contains(
            #[trigger] lines[i].id@,
        )
}

/// What ends the line of a node, after its label.
pub open spec fn mark_text(m: LineMark) -> Seq<char> {
    match m {
        LineMark::Expanded => ""@,
        LineMark::Repeat => "  (see above)"@,
        LineMark::Cycle => "  (cycle: see above)"@,
    }
}

/// The tree drawing before a child: `└── ` for the last child, `├── `
/// for the others.
pub open spec fn connector(last: bool) -> Seq<char> {
    if last {
        "└── "@
    } else {
        "├── "@
    }
}

/// The tree drawing carried under a child: four spaces under the last
/// child, `│   ` under the others.
pub open spec fn extension(last: bool) -> Seq<char> {
    if last {
        "    "@
    } else {
        "│   "@
    }
}

/// What a drawn line shows: its tree drawing, its node and its ending.
pub open spec fn lines_view(lines: Seq<ForestLine>) -> Seq<(Seq<char>, Seq<char>, LineMark)> {
    Seq::new(lines.len(), |i: int| (lines[i].prefix@, lines[i].id@, lines[i].mark))
}

/// Adding a line adds its id to the expanded ones when it is expanded, and
/// leaves the earlier lines as they were.
proof fn lemma_expanded_push(lines: Seq<ForestLine>, x: ForestLine)
    ensures
        expanded_ids(lines.push(x)) == if x.mark == LineMark::Expanded {
            expanded_ids(lines).push(x.id@)
        } else {
            expanded_ids(lines)
        },
        forall|i: int| 0 <= i <= lines.len() ==> #[trigger] lines.push(x).take(i) == lines.take(i),
{
    assert(lines.push(x).drop_last() =~= lines);
    assert forall|i: int| 0 <= i <= lines.len() implies #[trigger] lines.push(x).take(i) == lines.take(i) by {
        assert(lines.push(x).take(i) =~= lines.take(i));
    }
}

impl DepsGraph {
    /// The label of the node `x` (see `label`).
    pub open spec fn label_of(&self, x: Seq<char>) -> Seq<char> {
        if self.stubs().dom().contains(x) {
            self.stubs()[x].label_spec(x)
        } else {
            x + "  "@ + self.tickets()[x].front_matter.status.label() + "  "@
                + self.tickets()[x].front_matter.title@
        }
    }

    /// The text of the lines, each ended by a newline.
    pub open spec fn forest_text(&self, lines: Seq<ForestLine>) -> Seq<char>
        decreases lines.len(),
    {
        if lines.len() == 0 {
            Seq::empty()
        } else {
            let l = lines.last();
            self.forest_text(lines.drop_last()) + l.prefix@ + self.label_of(l.id@) + mark_text(l.mark)
                + "\n"@
        }
    }

    /// The lines of node `id` drawn after `lp`, its children's lines after
    /// `cb`, when the nodes on the branch being drawn are `path` and the
    /// nodes expanded so far are `done`; with the nodes expanded after it. A
    /// node on the branch ends it as a cycle, one expanded before ends it as
    /// a repeat; otherwise it is expanded and its children follow, each
    /// after `├── ` (the last after `└── `), their own children after `│   `
    /// (the last's after four spaces). `fuel` bounds the depth; it is never
    /// short when it exceeds the number of nodes not yet expanded.
    pub open spec fn node_lines(
        &self,
        id: Seq<char>,
        lp: Seq<char>,
        cb: Seq<char>,
        path: Seq<Seq<char>>,
        done: Seq<Seq<char>>,
        fuel: nat,
    ) -> (Seq<(Seq<char>, Seq<char>, LineMark)>, Seq<Seq<char>>)
        decreases fuel, 0int,
    {
        if path.contains(id) {
            (seq![(lp, id, LineMark::Cycle)], done)
        } else if done.contains(id) {
            (seq![(lp, id, LineMark::Repeat)], done)
        } else if fuel == 0 {
            (Seq::empty(), done)
        } else {
            let (ls, d) = self.kids_lines(self.child_ids(id), 0, cb, path.push(id), done.push(id), (fuel - 1) as nat);
            (seq![(lp, id, LineMark::Expanded)] + ls, d)
        }
    }

    /// The lines of the children `kids` from the `k`-th on, under `cb` (see
    /// `node_lines`).
    pub open spec fn kids_lines(
        &self,
        kids: Seq<Seq<char>>,
        k: int,
        cb: Seq<char>,
        path: Seq<Seq<char>>,
        done: Seq<Seq<char>>,
        fuel: nat,
    ) -> (Seq<(Seq<char>, Seq<char>, LineMark)>, Seq<Seq<char>>)
        decreases fuel, kids.len() - k + 1,
    {
        if k < 0 || k >= kids.len() {
            (Seq::empty(), done)
        } else {
            let last = k == kids.len() - 1;
            let (l1, d1) = self.node_lines(kids[k], cb + connector(last), cb + extension(last), path, done, fuel);
            let (l2, d2) = self.kids_lines(kids, k + 1, cb, path, d1, fuel);
            (l1 + l2, d2)
        }
    }

    /// The trees of the nodes `ids` from the `k`-th on, each drawn at the
    /// left margin unless it was already expanded (see `node_lines`).
    pub open spec fn top_lines(&self, ids: Seq<Seq<char>>, k: int, done: Seq<Seq<char>>, fuel: nat) -> (
        Seq<(Seq<char>, Seq<char>, LineMark)>,
        Seq<Seq<char>>,
    )
        decreases ids.len() - k,
    {
        if k < 0 || k >= ids.len() {
            (Seq::empty(), done)
        } else if done.contains(ids[k]) {
            self.top_lines(ids, k + 1, done, fuel)
        } else {
            let (l1, d1) = self.node_lines(ids[k], Seq::empty(), Seq::empty(), Seq::empty(), done, fuel);
            let (l2, d2) = self.top_lines(ids, k + 1, d1, fuel);
            (l1 + l2, d2)
        }
    }

    /// The active nodes among the first `k` not in `done`, in node order.
    pub open spec fn unexpanded(&self, done: Seq<Seq<char>>, k: nat) -> Seq<usize>
        decreases k,
    {
        if k == 0 {
            Seq::empty()
        } else {
            let r = self.unexpanded(done, (k - 1) as nat);
            if !done.contains(self.names()[k - 1]) {
                r.push((k - 1) as usize)
            } else {
                r
            }
        }
    }

    /// The lines of the whole forest: the trees of the roots in key order,
    /// then, in key order, those of the active tickets still not drawn.
    pub open spec fn forest_lines(&self) -> Seq<(Seq<char>, Seq<char>, LineMark)> {
        let fuel = self.names().len() + 1;
        let (l1, d1) = self.top_lines(self.root_ids(), 0, Seq::empty(), fuel);
        let left = key_order(self.keys(), self.unexpanded(d1, self.active_count())).map_values(
            |k: usize| self.names()[k as int],
        );
        let (l2, d2) = self.top_lines(left, 0, d1, fuel);
        l1 + l2
    }

    /// The text of the lines, each ended by a newline.
    pub open spec fn text_of_lines(&self, ls: Seq<(Seq<char>, Seq<char>, LineMark)>) -> Seq<char>
        decreases ls.len(),
    {
        if ls.len() == 0 {
            Seq::empty()
        } else {
            let l = ls.last();
            self.text_of_lines(ls.drop_last()) + l.0 + self.label_of(l.1) + mark_text(l.2) + "\n"@
        }
    }

    /// The text of drawn lines is the text of what they show.
    proof fn lemma_text_of_lines(&self, lines: Seq<ForestLine>)
        ensures
            self.forest_text(lines) == self.text_of_lines(lines_view(lines)),
        decreases lines.len(),
    {
        if lines.len() > 0 {
            assert(lines_view(lines).drop_last() =~= lines_view(lines.drop_last()));
            self.lemma_text_of_lines(lines.drop_last());
        }
    }

    /// The shape of a rendered forest: every line names a node, every node
    /// is expanded on exactly one line, and every other line points back to
    /// a node expanded above it.
    pub open spec fn forest_shape(&self, lines: Seq<ForestLine>) -> bool {
        &&& forall|i: int| 0 <= i < lines.len() ==> self.names().contains(#[trigger] lines[i].id@)
        &&& expanded_ids(lines).no_duplicates()
        &&& forall|k: int| 0 <= k < self.names().len() ==> expanded_ids(lines).contains(#[trigger] self.names()[k])
        &&& refers_above(lines)
    }

    /// The text of `lines`.
    fn lines_text(&self, lines: &Vec<ForestLine>) -> (r: String)
        requires
            forall|i: int| 0 <= i < lines@.len() ==> self.names().contains(#[trigger] lines@[i].id@),
        ensures
            r@ == self.forest_text(lines@),
    {
        let mut out = String::new();
        let mut i: usize = 0;
        proof {
            assert(lines@.take(0) =~= Seq::<ForestLine>::empty());
        }
        while i < lines.len()
            invariant
                i <= lines@.len(),
                forall|j: int| 0 <= j < lines@.len() ==> self.names().contains(#[trigger] lines@[j].id@),
                out@ == self.forest_text(lines@.take(i as int)),
            decreases lines@.len() - i,
        {
            let l = &lines[i];
            let ghost before = out@;
            crate::text::push_str(&mut out, l.prefix.as_str());
            proof {
                assert(self.names().contains(lines@[i as int].id@));
            }
            let lab = self.label(&l.id);
            crate::text::push_str(&mut out, lab.as_str());
            let ghost mid = out@;
            match l.mark {
                LineMark::Expanded => {
                    proof {
                        reveal_strlit("");
                        assert(mid + ""@ =~= mid);
                    }
                },
                LineMark::Repeat => crate::text::push_str(&mut out, "  (see above)"),
                LineMark::Cycle => crate::text::push_str(&mut out, "  (cycle: see above)"),
            }
            assert(out@ == mid + mark_text(l.mark));
            crate::text::push_str(&mut out, "\n");
            proof {
                assert(lines@.take(i + 1).drop_last() =~= lines@.take(i as int));
                assert(lines@.take(i + 1).last() == lines@[i as int]);
                assert(lab@ == self.label_of(l.id@));
                assert(out@ =~= before + l.prefix@ + self.label_of(l.id@) + mark_text(l.mark) + "\n"@);
            }
            i = i + 1;
        }
        proof {
            assert(lines@.take(i as int) =~= lines@);
        }
        out
    }
}

/// What holds of the lines drawn so far: they name nodes, the expanded ones
/// are exactly the ids in `rendered`, and the others point above.
pub open spec fn drawn(graph: &DepsGraph, rendered: Seq<Seq<char>>, lines: Seq<ForestLine>) -> bool {
    &&& rendered.no_duplicates()
    &&& forall|j: int| 0 <= j < rendered.len() ==> graph.names().contains(#[trigger] rendered[j])
    &&& expanded_ids(lines) == rendered
    &&& refers_above(lines)
    &&& forall|j: int| 0 <= j < lines.len() ==> graph.names().contains(#[trigger] lines[j].id@)
}

/// A prefix of a prefix is a prefix.
proof fn lemma_prefix_transitive(a: Seq<Seq<char>>, b: Seq<Seq<char>>, c: Seq<Seq<char>>)
    requires
        a.is_prefix_of(b),
        b.is_prefix_of(c),
    ensures
        a.is_prefix_of(c),
        forall|x: Seq<char>| #[trigger] a.contains(x) ==> c.contains(x),
{
    assert(a =~= c.subrange(0, a.len() as int)) by {
        assert forall|i: int| 0 <= i < a.len() implies a[i] == c[i] by {
            assert(a[i] == b.subrange(0, a.len() as int)[i]);
            assert(b[i] == c.subrange(0, b.len() as int)[i]);
        }
    }
    assert forall|x: Seq<char>| #[trigger] a.contains(x) implies c.contains(x) by {
        let w = choose|w: int| 0 <= w < a.len() && a[w] == x;
        assert(c[w] == a[w]);
    }
}

/// A line that points above, for a node already expanded, keeps the drawn
/// lines in order.
proof fn lemma_drawn_push_mark(graph: &DepsGraph, rendered: Seq<Seq<char>>, l0: Seq<ForestLine>, x: ForestLine)
    requires
        drawn(graph, rendered, l0),
        x.mark != LineMark::Expanded,
        graph.names().contains(x.id@),
        rendered.contains(x.id@),
    ensures
        drawn(graph, rendered, l0.push(x)),
{
    let l1 = l0.push(x);
    lemma_expanded_push(l0, x);
    assert forall|i: int| 0 <= i < l1.len() && l1[i].mark != LineMark::Expanded implies expanded_ids(l1.take(i)).contains(
        #[trigger] l1[i].id@,
    ) by {
        if i < l0.len() {
            assert(l1[i] == l0[i]);
        } else {
            assert(l1.take(i) =~= l0);
        }
    }
    assert forall|i: int| 0 <= i < l1.len() implies graph.names().contains(#[trigger] l1[i].id@) by {
        if i < l0.len() {
            assert(l1[i] == l0[i]);
            assert(graph.names().contains(l0[i].id@));
        } else {
            assert(l1[i] == x);
        }
    }
}

/// An expanded line for a node not yet expanded adds it to the expanded
/// nodes.
proof fn lemma_drawn_push_expanded(graph: &DepsGraph, rendered: Seq<Seq<char>>, l0: Seq<ForestLine>, x: ForestLine)
    requires
        drawn(graph, rendered, l0),
        x.mark == LineMark::Expanded,
        graph.names().contains(x.id@),
        !rendered.contains(x.id@),
    ensures
        drawn(graph, rendered.push(x.id@), l0.push(x)),
{
    let l1 = l0.push(x);
    let r1 = rendered.push(x.id@);
    lemma_expanded_push(l0, x);
    assert(r1.no_duplicates()) by {
        assert forall|a: int, b: int| 0 <= a < b < r1.len() implies r1[a] != r1[b] by {
            if b == rendered.len() {
                assert(rendered.contains(rendered[a]));
            }
        }
    }
    assert forall|i: int| 0 <= i < l1.len() && l1[i].mark != LineMark::Expanded implies expanded_ids(l1.take(i)).contains(
        #[trigger] l1[i].id@,
    ) by {
        assert(i < l0.len());
        assert(l1[i] == l0[i]);
    }
    assert forall|i: int| 0 <= i < l1.len() implies graph.names().contains(#[trigger] l1[i].id@) by {
        if i < l0.len() {
            assert(l1[i] == l0[i]);
            assert(graph.names().contains(l0[i].id@));
        } else {
            assert(l1[i] == x);
        }
    }
    assert forall|j: int| 0 <= j < r1.len() implies graph.names().contains(#[trigger] r1[j]) by {
        if j < rendered.len() {
            assert(r1[j] == rendered[j]);
        }
    }
}

/// Draws `id` and, the first time it is met, its children beneath it. An
/// id already on the branch being drawn ends the branch as a cycle; one
/// expanded earlier elsewhere ends it as a repeat (see `node_lines`).
fn render_node(
    graph: &DepsGraph,
    id: &TicketId,
    line_prefix: String,
    child_base: String,
    path: &mut Vec<TicketId>,
    rendered: &mut Vec<TicketId>,
    lines: &mut Vec<ForestLine>,
    Ghost(fuel): Ghost<nat>,
)
    requires
        graph.names().contains(id@),
        graph.names().no_duplicates(),
        drawn(graph, ids_of(old(rendered)@), old(lines)@),
        forall|i: int| 0 <= i < old(path)@.len() ==> ids_of(old(rendered)@).contains(#[trigger] ids_of(old(path)@)[i]),
        fuel + old(rendered)@.len() > graph.names().len(),
    ensures
        final(path)@ == old(path)@,
        ids_of(old(rendered)@).is_prefix_of(ids_of(final(rendered)@)),
        ids_of(final(rendered)@).contains(id@),
        drawn(graph, ids_of(final(rendered)@), final(lines)@),
        lines_view(final(lines)@) == lines_view(old(lines)@) + graph.node_lines(
            id@,
            line_prefix@,
            child_base@,
            ids_of(old(path)@),
            ids_of(old(rendered)@),
            fuel,
        ).0,
        ids_of(final(rendered)@) == graph.node_lines(
            id@,
            line_prefix@,
            child_base@,
            ids_of(old(path)@),
            ids_of(old(rendered)@),
            fuel,
        ).1,
    decreases graph.names().len() - old(rendered)@.len(),
{
    proof {
        crate::graph::lemma_distinct_within(ids_of(rendered@), graph.names());
        let r = ids_of(rendered@);
        assert(r =~= r.subrange(0, r.len() as int));
    }
    let ghost l0 = lines@;
    let ghost r0 = ids_of(rendered@);
    let ghost p0 = path@;
    let on_path = crate::graph::contains_id(path, id);
    if on_path || crate::graph::contains_id(rendered, id) {
        proof {
            if on_path {
                let w = choose|w: int| 0 <= w < ids_of(path@).len() && ids_of(path@)[w] == id@;
                assert(ids_of(rendered@).contains(ids_of(path@)[w]));
            }
        }
        let mark = if on_path { LineMark::Cycle } else { LineMark::Repeat };
        lines.push(ForestLine { prefix: line_prefix, id: id.clone(), mark });
        proof {
            let x = lines@.last();
            assert(lines@ =~= l0.push(x));
            lemma_drawn_push_mark(graph, r0, l0, x);
            assert(lines_view(lines@) =~= lines_view(l0) + seq![(line_prefix@, id@, mark)]);
        }
        return;
    }
    proof {
        let rp = r0.push(id@);
        assert forall|a: int, b: int| 0 <= a < b < rp.len() implies rp[a] != rp[b] by {
            if b == r0.len() {
                assert(r0.contains(r0[a]));
            }
        }
        assert forall|i: int| 0 <= i < rp.len() implies #[trigger] graph.names().contains(rp[i]) by {
            if i < r0.len() {
                assert(rp[i] == r0[i]);
            }
        }
        crate::graph::lemma_distinct_within(rp, graph.names());
    }
    let ghost lp0 = line_prefix@;
    lines.push(ForestLine { prefix: line_prefix, id: id.clone(), mark: LineMark::Expanded });
    rendered.push(id.clone());
    let c = id.clone();
    let ghost cv = c;
    path.push(c);
    let ghost kids = graph.child_ids(id@);
    let ghost kpath = p0.push(cv);
    let ghost k0 = graph.kids_lines(kids, 0, child_base@, ids_of(kpath), r0.push(id@), (fuel - 1) as nat);
    proof {
        let x = lines@.last();
        assert(lines@ =~= l0.push(x));
        lemma_drawn_push_expanded(graph, r0, l0, x);
        assert(ids_of(rendered@) =~= r0.push(id@));
        assert(ids_of(kpath) =~= ids_of(p0).push(id@));
        assert forall|i: int| 0 <= i < path@.len() implies ids_of(rendered@).contains(#[trigger] ids_of(path@)[i]) by {
            if i < p0.len() {
                assert(ids_of(path@)[i] == ids_of(p0)[i]);
                let w = choose|w: int| 0 <= w < r0.len() && r0[w] == ids_of(p0)[i];
                assert(ids_of(rendered@)[w] == r0[w]);
            } else {
                assert(ids_of(rendered@)[r0.len() as int] == id@);
            }
        }
        let r1 = ids_of(rendered@);
        assert(r0.is_prefix_of(r1)) by {
            assert(r0 =~= r1.subrange(0, r0.len() as int));
        }
        assert(r1.is_prefix_of(r1)) by {
            assert(r1 =~= r1.subrange(0, r1.len() as int));
        }
        assert(r1[r0.len() as int] == id@);
        assert(graph.node_lines(id@, lp0, child_base@, ids_of(p0), r0, fuel) == (
            seq![(lp0, id@, LineMark::Expanded)] + k0.0, k0.1));
        assert(lines_view(lines@) =~= lines_view(l0).push((lp0, id@, LineMark::Expanded)));
        assert(lines_view(lines@) + k0.0 =~= lines_view(l0) + (seq![(lp0, id@, LineMark::Expanded)] + k0.0));
    }
    let ghost r1 = ids_of(rendered@);
    let ghost lv1 = lines_view(lines@);
    let children = graph.children(id);
    let n = children.len();
    let mut i: usize = 0;
    while i < n
        invariant
            n == children@.len(),
            i <= n,
            graph.names().no_duplicates(),
            forall|j: int| 0 <= j < children@.len() ==> graph.names().contains(#[trigger] ids_of(children@)[j]),
            ids_of(children@) == kids,
            path@ == kpath,
            drawn(graph, ids_of(rendered@), lines@),
            forall|j: int| 0 <= j < path@.len() ==> ids_of(rendered@).contains(#[trigger] ids_of(path@)[j]),
            r0.is_prefix_of(r1),
            r1.is_prefix_of(ids_of(rendered@)),
            r1.contains(id@),
            r1.len() == r0.len() + 1,
            r0 == ids_of(old(rendered)@),
            fuel + r0.len() > graph.names().len(),
            ({
                let k = graph.kids_lines(kids, i as int, child_base@, ids_of(kpath), ids_of(rendered@), (fuel - 1) as nat);
                &&& lines_view(lines@) + k.0 == lv1 + k0.0
                &&& k.1 == k0.1
            }),
        decreases n - i,
    {
        let is_last = i == n - 1;
        let connector_text = if is_last { "└── " } else { "├── " };
        let extension_text = if is_last { "    " } else { "│   " };
        let mut lp = crate::text::owned(child_base.as_str());
        crate::text::push_str(&mut lp, connector_text);
        let mut cb = crate::text::owned(child_base.as_str());
        crate::text::push_str(&mut cb, extension_text);
        let ghost rb = ids_of(rendered@);
        let ghost pb = path@;
        let ghost lvb = lines_view(lines@);
        let ghost kb = graph.kids_lines(kids, i as int, child_base@, ids_of(kpath), rb, (fuel - 1) as nat);
        let ghost nb = graph.node_lines(kids[i as int], child_base@ + connector(is_last), child_base@ + extension(is_last), ids_of(kpath), rb, (fuel - 1) as nat);
        proof {
            assert(graph.names().contains(ids_of(children@)[i as int]));
            assert(r1.len() <= rb.len());
            crate::graph::lemma_distinct_within(rb, graph.names());
            assert(lp@ == child_base@ + connector(is_last));
            assert(cb@ == child_base@ + extension(is_last));
            assert(kb == (nb.0 + graph.kids_lines(kids, i + 1, child_base@, ids_of(kpath), nb.1, (fuel - 1) as nat).0,
                graph.kids_lines(kids, i + 1, child_base@, ids_of(kpath), nb.1, (fuel - 1) as nat).1));
        }
        render_node(graph, &children[i], lp, cb, path, rendered, lines, Ghost((fuel - 1) as nat));
        proof {
            lemma_prefix_transitive(r1, rb, ids_of(rendered@));
            assert forall|j: int| 0 <= j < path@.len() implies ids_of(rendered@).contains(#[trigger] ids_of(path@)[j]) by {
                assert(rb.contains(ids_of(pb)[j]));
                lemma_prefix_transitive(rb, ids_of(rendered@), ids_of(rendered@));
            }
            let kn = graph.kids_lines(kids, i + 1, child_base@, ids_of(kpath), ids_of(rendered@), (fuel - 1) as nat);
            assert(lines_view(lines@) + kn.0 =~= lvb + kb.0);
        }
        i = i + 1;
    }
    let _ = path.pop();
    proof {
        assert(path@ =~= p0);
        lemma_prefix_transitive(r0, r1, ids_of(rendered@));
        lemma_prefix_transitive(r1, ids_of(rendered@), ids_of(rendered@));
        let k = graph.kids_lines(kids, i as int, child_base@, ids_of(kpath), ids_of(rendered@), (fuel - 1) as nat);
        assert(k.0 =~= Seq::<(Seq<char>, Seq<char>, LineMark)>::empty());
        assert(lines_view(lines@) =~= lv1 + k0.0);
    }
}

/// Renders the whole dependency forest: every root (a node with no
/// blocker) in key order, then, in key order, each active ticket not yet
/// drawn (the members of a cycle that nothing outside leads into), so that
/// every node is expanded exactly once.
pub fn render_forest(graph: &DepsGraph) -> (r: String)
    ensures
        r@ == graph.text_of_lines(graph.forest_lines()),
        exists|lines: Seq<ForestLine>| graph.forest_shape(lines) && r@ == graph.forest_text(lines),
{
    proof {
        use_type_invariant(graph);
    }
    let ghost fuel: nat = graph.names().len() + 1;
    let ghost t_roots = graph.top_lines(graph.root_ids(), 0, Seq::empty(), fuel);
    let mut path: Vec<TicketId> = Vec::new();
    let mut rendered: Vec<TicketId> = Vec::new();
    let mut lines: Vec<ForestLine> = Vec::new();
    let roots = graph.roots();
    proof {
        assert(ids_of(rendered@) =~= Seq::<Seq<char>>::empty());
        assert(expanded_ids(lines@) =~= Seq::<Seq<char>>::empty());
        assert forall|x: Seq<char>| #[trigger] ids_of(roots@).contains(x) implies graph.names().contains(x) by {
            let k = choose|k: int| 0 <= k < graph.names().len() && graph.names()[k] == x && !DepsGraph::has_blocker(graph.edges(), k as nat);
        }
    }
    let mut i: usize = 0;
    while i < roots.len()
        invariant
            i <= roots@.len(),
            graph.names().no_duplicates(),
            path@.len() == 0,
            forall|x: Seq<char>| #[trigger] ids_of(roots@).contains(x) ==> graph.names().contains(x),
            drawn(graph, ids_of(rendered@), lines@),
            forall|j: int| 0 <= j < i ==> ids_of(rendered@).contains(#[trigger] ids_of(roots@)[j]),
            ids_of(roots@) == graph.root_ids(),
            fuel == graph.names().len() + 1,
            t_roots == graph.top_lines(graph.root_ids(), 0, Seq::empty(), fuel),
            ({
                let t = graph.top_lines(graph.root_ids(), i as int, ids_of(rendered@), fuel);
                &&& lines_view(lines@) + t.0 == t_roots.0
                &&& t.1 == t_roots.1
            }),
        decreases roots@.len() - i,
    {
        let ghost rb = ids_of(rendered@);
        let ghost lvb = lines_view(lines@);
        let ghost tb = graph.top_lines(graph.root_ids(), i as int, rb, fuel);
        proof {
            assert(ids_of(roots@).contains(ids_of(roots@)[i as int]));
            assert(rb.is_prefix_of(rb)) by {
                assert(rb =~= rb.subrange(0, rb.len() as int));
            }
        }
        let ghost x = roots@[i as int]@;
        proof {
            assert(ids_of(path@) =~= Seq::<Seq<char>>::empty());
            assert(graph.root_ids()[i as int] == x);
        }
        if !crate::graph::contains_id(&rendered, &roots[i]) {
            let e1 = crate::text::owned("");
            let e2 = crate::text::owned("");
            proof {
                reveal_strlit("");
                assert(e1@ =~= Seq::<char>::empty());
                assert(e2@ =~= Seq::<char>::empty());
            }
            render_node(graph, &roots[i], e1, e2, &mut path, &mut rendered, &mut lines, Ghost(fuel));
            proof {
                let nl = graph.node_lines(x, Seq::empty(), Seq::empty(), Seq::empty(), rb, fuel);
                let tn = graph.top_lines(graph.root_ids(), i + 1, nl.1, fuel);
                assert(tb == (nl.0 + tn.0, tn.1));
                assert(lines_view(lines@) + tn.0 =~= lvb + tb.0);
            }
        } else {
            proof {
                assert(tb == graph.top_lines(graph.root_ids(), i + 1, rb, fuel));
            }
        }
        proof {
            lemma_prefix_transitive(rb, ids_of(rendered@), ids_of(rendered@));
            assert forall|j: int| 0 <= j < i + 1 implies ids_of(rendered@).contains(#[trigger] ids_of(roots@)[j]) by {
                if j < i {
                    assert(rb.contains(ids_of(roots@)[j]));
                }
            }
        }
        i = i + 1;
    }
    let ghost after_roots = ids_of(rendered@);
    let n_active = graph.tickets.len();
    let mut left: Vec<usize> = Vec::new();
    let mut k: usize = 0;
    while k < n_active
        invariant
            k <= n_active,
            n_active == graph.tickets.key_seq().len(),
            n_active <= graph.names@.len(),
            graph.names@.len() == graph.names().len(),
            ids_of(rendered@) == after_roots,
            forall|j: int| 0 <= j < left@.len() ==> (#[trigger] left@[j]) < n_active,
            forall|q: int| 0 <= q < k ==> after_roots.contains(#[trigger] graph.names()[q]) || left@.contains(q as usize),
            left@ == graph.unexpanded(after_roots, k as nat),
        decreases n_active - k,
    {
        let ghost l0 = left@;
        if !crate::graph::contains_id(&rendered, &graph.names[k]) {
            left.push(k);
        }
        proof {
            assert forall|q: int| 0 <= q < k + 1 implies after_roots.contains(#[trigger] graph.names()[q]) || left@.contains(q as usize) by {
                if q < k && l0.contains(q as usize) {
                    let w = choose|w: int| 0 <= w < l0.len() && l0[w] == q as usize;
                    assert(left@[w] == q as usize);
                }
                if q == k && !after_roots.contains(graph.names()[q]) {
                    assert(left@[l0.len() as int] == k);
                }
            }
        }
        k = k + 1;
    }
    let ghost left_all = left@;
    let sorted = graph.sort_by_created_at(left);
    let ids = graph.ids_of_nodes(&sorted);
    let ghost left_ids = key_order(graph.keys(), graph.unexpanded(after_roots, graph.active_count())).map_values(
        |k: usize| graph.names()[k as int],
    );
    let ghost t_left = graph.top_lines(left_ids, 0, after_roots, fuel);
    proof {
        assert(n_active == graph.active_count());
        assert(ids_of(ids@) =~= left_ids);
        assert(t_roots.1 == after_roots);
        let t = graph.top_lines(graph.root_ids(), i as int, after_roots, fuel);
        assert(t.0 =~= Seq::<(Seq<char>, Seq<char>, LineMark)>::empty());
        assert(lines_view(lines@) =~= t_roots.0);
    }
    let mut t: usize = 0;
    proof {
        assert(after_roots.is_prefix_of(ids_of(rendered@))) by {
            assert(after_roots =~= after_roots.subrange(0, after_roots.len() as int));
        }
    }
    while t < ids.len()
        invariant
            t <= ids@.len(),
            graph.names().no_duplicates(),
            path@.len() == 0,
            ids_of(ids@) == sorted@.map_values(|k: usize| graph.names()[k as int]),
            forall|j: int| 0 <= j < sorted@.len() ==> (#[trigger] sorted@[j]) < graph.names().len(),
            drawn(graph, ids_of(rendered@), lines@),
            forall|j: int| 0 <= j < t ==> ids_of(rendered@).contains(#[trigger] ids_of(ids@)[j]),
            after_roots.is_prefix_of(ids_of(rendered@)),
            ids_of(ids@) == left_ids,
            fuel == graph.names().len() + 1,
            t_left == graph.top_lines(left_ids, 0, after_roots, fuel),
            ({
                let tt = graph.top_lines(left_ids, t as int, ids_of(rendered@), fuel);
                &&& lines_view(lines@) + tt.0 == t_roots.0 + t_left.0
            }),
        decreases ids@.len() - t,
    {
        let ghost rb = ids_of(rendered@);
        let ghost lvb = lines_view(lines@);
        let ghost tb = graph.top_lines(left_ids, t as int, rb, fuel);
        proof {
            assert(ids_of(ids@).len() == sorted@.len());
            assert(sorted@.map_values(|k: usize| graph.names()[k as int])[t as int] == graph.names()[sorted@[t as int] as int]);
            assert(ids_of(ids@)[t as int] == graph.names()[sorted@[t as int] as int]);
            assert(rb.is_prefix_of(rb)) by {
                assert(rb =~= rb.subrange(0, rb.len() as int));
            }
        }
        let ghost x = ids@[t as int]@;
        proof {
            assert(ids_of(path@) =~= Seq::<Seq<char>>::empty());
            assert(left_ids[t as int] == x);
        }
        if !crate::graph::contains_id(&rendered, &ids[t]) {
            let e1 = crate::text::owned("");
            let e2 = crate::text::owned("");
            proof {
                reveal_strlit("");
                assert(e1@ =~= Seq::<char>::empty());
                assert(e2@ =~= Seq::<char>::empty());
            }
            render_node(graph, &ids[t], e1, e2, &mut path, &mut rendered, &mut lines, Ghost(fuel));
            proof {
                let nl = graph.node_lines(x, Seq::empty(), Seq::empty(), Seq::empty(), rb, fuel);
                let tn = graph.top_lines(left_ids, t + 1, nl.1, fuel);
                assert(tb == (nl.0 + tn.0, tn.1));
                assert(lines_view(lines@) + tn.0 =~= lvb + tb.0);
            }
        } else {
            proof {
                assert(tb == graph.top_lines(left_ids, t + 1, rb, fuel));
            }
        }
        proof {
            lemma_prefix_transitive(rb, ids_of(rendered@), ids_of(rendered@));
            lemma_prefix_transitive(after_roots, rb, ids_of(rendered@));
            assert forall|j: int| 0 <= j < t + 1 implies ids_of(rendered@).contains(#[trigger] ids_of(ids@)[j]) by {
                if j < t {
                    assert(rb.contains(ids_of(ids@)[j]));
                }
            }
        }
        t = t + 1;
    }
    let out = graph.lines_text(&lines);
    proof {
        let tt = graph.top_lines(left_ids, t as int, ids_of(rendered@), fuel);
        assert(tt.0 =~= Seq::<(Seq<char>, Seq<char>, LineMark)>::empty());
        assert(lines_view(lines@) =~= graph.forest_lines());
        graph.lemma_text_of_lines(lines@);
        let nm = graph.names();
        let fin = ids_of(rendered@);
        lemma_prefix_transitive(after_roots, fin, fin);
        assert forall|q: int| 0 <= q < nm.len() implies expanded_ids(lines@).contains(#[trigger] nm[q]) by {
            if q < n_active {
                if !after_roots.contains(nm[q]) {
                    assert(left_all.contains(q as usize));
                    vstd::seq_lib::to_multiset_contains(left_all, q as usize);
                    vstd::seq_lib::to_multiset_contains(sorted@, q as usize);
                    let w = choose|w: int| 0 <= w < sorted@.len() && sorted@[w] == q as usize;
                    assert(ids_of(ids@).len() == sorted@.len());
                    assert(sorted@.map_values(|k: usize| graph.names()[k as int])[w] == graph.names()[sorted@[w] as int]);
                    assert(ids_of(ids@)[w] == nm[q]);
                    assert(fin.contains(ids_of(ids@)[w]));
                }
            } else {
                assert(!DepsGraph::has_blocker(graph.edges(), q as nat)) by {
                    if DepsGraph::has_blocker(graph.edges(), q as nat) {
                        let m = choose|m: int| 0 <= m < graph.edges().len() && (#[trigger] graph.edges()[m]).1 == q as nat;
                        assert(graph.edges()[m].1 < n_active);
                    }
                }
                assert(ids_of(roots@).contains(nm[q]));
                let w = choose|w: int| 0 <= w < ids_of(roots@).len() && ids_of(roots@)[w] == nm[q];
                assert(after_roots.contains(ids_of(roots@)[w]));
            }
        }
        assert(graph.forest_shape(lines@));
    }
    out
}

} // verus!
