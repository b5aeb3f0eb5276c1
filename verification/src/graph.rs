//! The `blocked_by` graph over active and archived tickets, and the tickets
//! that take part in a dependency cycle.
use vstd::prelude::*;

use crate::domain::{Ticket, TicketId};
use crate::id_map::IdMap;

verus! {

/// Where a ticket id is found.
#[derive(Clone, Copy, Debug, PartialEq, Eq, Structural)]
pub enum NodeKind {
    Active,
    Archived,
    Missing,
}

/// The texts of a list of ids.
pub open spec fn ids_of(v: Seq<TicketId>) -> Seq<Seq<char>> {
    Seq::new(v.len(), |i: int| v[i]@)
}

/// The dependency graph: every active and archived ticket with the ids that
/// block it.
pub struct DepGraph {
    active: IdMap<Ticket>,
    archived: IdMap<Ticket>,
    /// `blocked_by` edges: id to the ids that block it.
    edges: IdMap<Vec<TicketId>>,
}

/// `u` is blocked by `v` in the graph whose edges are `e`.
pub open spec fn blocks(e: Map<Seq<char>, Seq<Seq<char>>>, u: Seq<char>, v: Seq<char>) -> bool {
    e.dom().contains(u) && e[u].contains(v)
}

/// `p` is a cycle: each element is blocked by the next, the last by the first.
pub open spec fn is_cycle(e: Map<Seq<char>, Seq<Seq<char>>>, p: Seq<Seq<char>>) -> bool {
    &&& p.len() >= 1
    &&& forall|i: int| 0 <= i < p.len() - 1 ==> #[trigger] blocks(e, p[i], p[i + 1])
    &&& blocks(e, p.last(), p[0])
}

/// `x` takes part in a dependency cycle.
pub open spec fn on_cycle(e: Map<Seq<char>, Seq<Seq<char>>>, x: Seq<char>) -> bool {
    exists|p: Seq<Seq<char>>| is_cycle(e, p) && p[0] == x
}

/// Each element of `p` is blocked by the next.
pub open spec fn is_chain(e: Map<Seq<char>, Seq<Seq<char>>>, p: Seq<Seq<char>>) -> bool {
    forall|i: int| 0 <= i < p.len() - 1 ==> #[trigger] blocks(e, p[i], p[i + 1])
}


/// `c` turned so that it starts at its `k`-th element.
pub open spec fn rotate(c: Seq<Seq<char>>, k: int) -> Seq<Seq<char>> {
    c.subrange(k, c.len() as int) + c.subrange(0, k)
}

/// Each id of `s` takes part in a cycle.
pub open spec fn all_on_cycle(e: Map<Seq<char>, Seq<Seq<char>>>, s: Seq<Seq<char>>) -> bool {
    forall|k: int| 0 <= k < s.len() ==> #[trigger] on_cycle(e, s[k])
}

/// `y` is reached from `x` along one or more `blocked_by` edges.
pub open spec fn reaches_from(e: Map<Seq<char>, Seq<Seq<char>>>, x: Seq<char>, y: Seq<char>) -> bool {
    exists|p: Seq<Seq<char>>| p.len() >= 2 && is_chain(e, p) && p[0] == x && p.last() == y
}

/// An id takes part in a cycle exactly when it is reached from itself.
pub proof fn lemma_on_cycle_reaches(e: Map<Seq<char>, Seq<Seq<char>>>, x: Seq<char>)
    ensures
        on_cycle(e, x) <==> reaches_from(e, x, x),
{
    if on_cycle(e, x) {
        let p = choose|p: Seq<Seq<char>>| is_cycle(e, p) && p[0] == x;
        let q = p.push(x);
        assert forall|i: int| 0 <= i < q.len() - 1 implies #[trigger] blocks(e, q[i], q[i + 1]) by {
            if i < p.len() - 1 {
                assert(q[i] == p[i] && q[i + 1] == p[i + 1]);
                assert(blocks(e, p[i], p[i + 1]));
            } else {
                assert(q[i] == p.last() && q[i + 1] == x);
            }
        }
        assert(q.last() == x);
    }
    if reaches_from(e, x, x) {
        let q = choose|q: Seq<Seq<char>>| q.len() >= 2 && is_chain(e, q) && q[0] == x && q.last() == x;
        let p = q.drop_last();
        assert forall|i: int| 0 <= i < p.len() - 1 implies #[trigger] blocks(e, p[i], p[i + 1]) by {
            assert(p[i] == q[i] && p[i + 1] == q[i + 1]);
            assert(blocks(e, q[i], q[i + 1]));
        }
        let m = q.len() - 2;
        assert(blocks(e, q[m], q[m + 1]));
        assert(p.last() == q[m]);
        assert(is_cycle(e, p));
    }
}

/// Reaching `y` and then one more edge reaches its blocker.
proof fn lemma_reaches_step(e: Map<Seq<char>, Seq<Seq<char>>>, x: Seq<char>, y: Seq<char>, z: Seq<char>)
    requires
        reaches_from(e, x, y) || y == x,
        blocks(e, y, z),
    ensures
        reaches_from(e, x, z),
{
    if y == x && !reaches_from(e, x, y) {
        let q = seq![x, z];
        assert forall|i: int| 0 <= i < q.len() - 1 implies #[trigger] blocks(e, q[i], q[i + 1]) by {
            assert(i == 0);
            assert(q[i] == y && q[i + 1] == z);
        }
        assert(q.len() >= 2 && is_chain(e, q) && q[0] == x && q.last() == z);
    } else {
        let p = choose|p: Seq<Seq<char>>| p.len() >= 2 && is_chain(e, p) && p[0] == x && p.last() == y;
        let q = p.push(z);
        assert forall|i: int| 0 <= i < q.len() - 1 implies #[trigger] blocks(e, q[i], q[i + 1]) by {
            if i < p.len() - 1 {
                assert(q[i] == p[i] && q[i + 1] == p[i + 1]);
                assert(blocks(e, p[i], p[i + 1]));
            } else {
                assert(q[i] == y && q[i + 1] == z);
            }
        }
        assert(q.len() >= 2 && is_chain(e, q) && q[0] == x && q.last() == z);
    }
}

/// How many entries of `v` are set.
pub open spec fn count_set(v: Seq<bool>) -> nat
    decreases v.len(),
{
    if v.len() == 0 {
        0
    } else {
        count_set(v.drop_last()) + if v.last() { 1nat } else { 0nat }
    }
}

/// No more entries are set than there are, and setting an unset one adds one.
proof fn lemma_count_set(v: Seq<bool>, k: int)
    ensures
        count_set(v) <= v.len(),
        0 <= k < v.len() && !v[k] ==> count_set(v.update(k, true)) == count_set(v) + 1,
    decreases v.len(),
{
    if v.len() > 0 {
        lemma_count_set(v.drop_last(), k);
        if 0 <= k < v.len() && !v[k] {
            let w = v.update(k, true);
            if k < v.len() - 1 {
                assert(w.drop_last() =~= v.drop_last().update(k, true));
            } else {
                assert(w.drop_last() =~= v.drop_last());
            }
        }
    }
}

/// In a set of ids closed under `blocked_by` edges that holds every
/// blocker of `x`, every id reached from `x` is held.
proof fn lemma_closure_reaches(
    e: Map<Seq<char>, Seq<Seq<char>>>,
    ks: Seq<Seq<char>>,
    v: Seq<bool>,
    x: Seq<char>,
    q: Seq<Seq<char>>,
    i: int,
)
    requires
        ks.no_duplicates(),
        v.len() == ks.len(),
        forall|y: Seq<char>| #[trigger] e.dom().contains(y) <==> ks.contains(y),
        forall|k: int| 0 <= k < ks.len() && #[trigger] blocks(e, x, ks[k]) ==> v[k],
        forall|j: int, k: int| 0 <= j < ks.len() && 0 <= k < ks.len() && v[j] && #[trigger] blocks(e, ks[j], ks[k]) ==> v[k],
        q.len() >= 2,
        is_chain(e, q),
        q[0] == x,
        q.last() == x,
        1 <= i < q.len(),
    ensures
        ks.contains(q[i]),
        v[ks.index_of(q[i])],
    decreases i,
{
    let z = 0int;
    assert(blocks(e, q[z], q[z + 1]));
    if i < q.len() - 1 {
        assert(blocks(e, q[i], q[i + 1]));
        assert(e.dom().contains(q[i]));
    } else {
        assert(e.dom().contains(x));
    }
    assert(ks.contains(q[i]));
    let k = ks.index_of(q[i]);
    if i == 1 {
        assert(blocks(e, x, ks[k]));
    } else {
        lemma_closure_reaches(e, ks, v, x, q, i - 1);
        let a = i - 1;
        let k1 = ks.index_of(q[a]);
        assert(blocks(e, q[a], q[a + 1]));
        assert(blocks(e, ks[k1], ks[k]));
    }
}

/// Every id of `vis` that has an entry comes after all the ids that block it.
pub open spec fn finish_ordered(e: Map<Seq<char>, Seq<Seq<char>>>, vis: Seq<Seq<char>>) -> bool {
    forall|i: int, b: Seq<char>|
        0 <= i < vis.len() && #[trigger] blocks(e, vis[i], b) ==> vis.take(i).contains(b)
}

/// The position of the first occurrence of `x` in `vis`.
pub open spec fn first_pos(vis: Seq<Seq<char>>, x: Seq<char>) -> int {
    vis.index_of_first(x).unwrap()
}

/// A cycle stays a cycle when it is turned to start at any of its elements.
pub proof fn lemma_rotate_cycle(e: Map<Seq<char>, Seq<Seq<char>>>, c: Seq<Seq<char>>, k: int)
    requires
        is_cycle(e, c),
        0 <= k < c.len(),
    ensures
        is_cycle(e, rotate(c, k)),
        rotate(c, k)[0] == c[k],
{
    let n = c.len() as int;
    let r = rotate(c, k);
    assert(r.len() == n);
    assert forall|i: int| 0 <= i < r.len() - 1 implies #[trigger] blocks(e, r[i], r[i + 1]) by {
        if i < n - k - 1 {
            assert(r[i] == c[k + i]);
            assert(r[i + 1] == c[k + i + 1]);
            assert(blocks(e, c[k + i], c[k + i + 1]));
        } else if i == n - k - 1 {
            assert(r[i] == c[n - 1]);
            assert(r[i + 1] == c[0]);
        } else {
            let j = i - (n - k);
            assert(r[i] == c[j]);
            assert(r[i + 1] == c[j + 1]);
            assert(blocks(e, c[j], c[j + 1]));
        }
    }
    if k == 0 {
        assert(r[n - 1] == c[n - 1]);
        assert(r[0] == c[0]);
    } else {
        assert(r[n - 1] == c[k - 1]);
        assert(r[0] == c[k]);
        assert(blocks(e, c[k - 1], c[k - 1 + 1]));
    }
}

/// When the last id of a chain is blocked by the chain's element at `pos`,
/// every element from `pos` on takes part in a cycle.
pub proof fn lemma_back_edge(e: Map<Seq<char>, Seq<Seq<char>>>, p: Seq<Seq<char>>, pos: int)
    requires
        is_chain(e, p),
        0 <= pos < p.len(),
        blocks(e, p.last(), p[pos]),
    ensures
        forall|q: int| pos <= q < p.len() ==> #[trigger] on_cycle(e, p[q]),
{
    let c = p.subrange(pos, p.len() as int);
    assert forall|i: int| 0 <= i < c.len() - 1 implies #[trigger] blocks(e, c[i], c[i + 1]) by {
        assert(c[i] == p[pos + i]);
        assert(c[i + 1] == p[pos + i + 1]);
    }
    assert(c.last() == p.last());
    assert(is_cycle(e, c));
    assert forall|q: int| pos <= q < p.len() implies #[trigger] on_cycle(e, p[q]) by {
        lemma_rotate_cycle(e, c, q - pos);
        assert(rotate(c, q - pos)[0] == p[q]);
    }
}

/// Along an edge of an ordered list, the blocker comes first.
proof fn lemma_blocker_first(e: Map<Seq<char>, Seq<Seq<char>>>, vis: Seq<Seq<char>>, x: Seq<char>, y: Seq<char>)
    requires
        finish_ordered(e, vis),
        vis.contains(x),
        vis.contains(y),
        blocks(e, x, y),
    ensures
        0 <= first_pos(vis, y) < first_pos(vis, x),
{
    vis.index_of_first_ensures(x);
    vis.index_of_first_ensures(y);
    let i = first_pos(vis, x);
    assert(blocks(e, vis[i], y));
    assert(vis.take(i).contains(y));
    let j = choose|j: int| 0 <= j < vis.take(i).len() && vis.take(i)[j] == y;
    assert(vis[j] == y);
}

/// Along a chain of an ordered list, positions fall by at least one a step.
proof fn lemma_chain_descends(e: Map<Seq<char>, Seq<Seq<char>>>, vis: Seq<Seq<char>>, p: Seq<Seq<char>>, k: int)
    requires
        finish_ordered(e, vis),
        is_chain(e, p),
        forall|m: int| 0 <= m < p.len() ==> #[trigger] vis.contains(p[m]),
        0 <= k < p.len(),
    ensures
        first_pos(vis, p[k]) + k <= first_pos(vis, p[0]),
    decreases k,
{
    if k > 0 {
        lemma_chain_descends(e, vis, p, k - 1);
        assert(blocks(e, p[k - 1], p[k - 1 + 1]));
        assert(vis.contains(p[k - 1]));
        assert(vis.contains(p[k]));
        lemma_blocker_first(e, vis, p[k - 1], p[k]);
    }
}

/// An ordered list that holds every id with an entry leaves no room for a
/// cycle.
pub proof fn lemma_ordered_acyclic(e: Map<Seq<char>, Seq<Seq<char>>>, vis: Seq<Seq<char>>)
    requires
        finish_ordered(e, vis),
        forall|x: Seq<char>| #[trigger] e.dom().contains(x) ==> vis.contains(x),
    ensures
        forall|p: Seq<Seq<char>>| !is_cycle(e, p),
{
    assert forall|p: Seq<Seq<char>>| !is_cycle(e, p) by {
        if is_cycle(e, p) {
            let n = p.len() as int;
            assert forall|m: int| 0 <= m < p.len() implies #[trigger] vis.contains(p[m]) by {
                if m < n - 1 {
                    assert(blocks(e, p[m], p[m + 1]));
                } else {
                    assert(blocks(e, p.last(), p[0]));
                }
                assert(e.dom().contains(p[m]));
            }
            lemma_chain_descends(e, vis, p, n - 1);
            lemma_blocker_first(e, vis, p[n - 1], p[0]);
        }
    }
}

/// A list of distinct ids, each found in the distinct list `k`, is no longer
/// than `k`.
pub(crate) proof fn lemma_distinct_within(s: Seq<Seq<char>>, k: Seq<Seq<char>>)
    requires
        s.no_duplicates(),
        k.no_duplicates(),
        forall|i: int| 0 <= i < s.len() ==> #[trigger] k.contains(s[i]),
    ensures
        s.len() <= k.len(),
{
    s.unique_seq_to_set();
    k.unique_seq_to_set();
    assert(s.to_set().subset_of(k.to_set())) by {
        assert forall|x: Seq<char>| s.to_set().contains(x) implies k.to_set().contains(x) by {
            let i = choose|i: int| 0 <= i < s.len() && s[i] == x;
            assert(k.contains(s[i]));
        }
    }
    vstd::seq_lib::seq_to_set_is_finite(k);
    vstd::set_lib::lemma_len_subset(s.to_set(), k.to_set());
}

/// The position of the first id in `v` with the text of `id`.
pub(crate) fn position_of(v: &Vec<TicketId>, id: &TicketId) -> (r: Option<usize>)
    ensures
        match r {
            Some(i) => i < v@.len() && ids_of(v@)[i as int] == id@,
            None => !ids_of(v@).contains(id@),
        },
{
    let mut i: usize = 0;
    while i < v.len()
        invariant
            i <= v@.len(),
            forall|j: int| 0 <= j < i ==> ids_of(v@)[j] != id@,
        decreases v@.len() - i,
    {
        if v[i].same(id) {
            return Some(i);
        }
        i = i + 1;
    }
    None
}

/// Whether `v` holds an id with the text of `id`.
pub(crate) fn contains_id(v: &Vec<TicketId>, id: &TicketId) -> (r: bool)
    ensures
        r == ids_of(v@).contains(id@),
{
    match position_of(v, id) {
        Some(i) => {
            assert(ids_of(v@)[i as int] == id@);
            true
        },
        None => false,
    }
}

/// Adds `id` to `v` unless an id with its text is already there.
fn push_unique(v: &mut Vec<TicketId>, id: &TicketId)
    requires
        ids_of(old(v)@).no_duplicates(),
    ensures
        ids_of(final(v)@).no_duplicates(),
        ids_of(final(v)@).contains(id@),
        ids_of(old(v)@).is_prefix_of(ids_of(final(v)@)),
        forall|x: Seq<char>| #[trigger] ids_of(final(v)@).contains(x) ==> ids_of(old(v)@).contains(x) || x == id@,
{
    if !contains_id(v, id) {
        let ghost before = v@;
        let c = id.clone();
        v.push(c);
        proof {
            assert(ids_of(v@) =~= ids_of(before).push(id@));
            assert(ids_of(v@)[before.len() as int] == id@);
        }
    } else {
        assert(ids_of(v@).is_prefix_of(ids_of(v@))) by {
            assert(ids_of(v@) =~= ids_of(v@).subrange(0, ids_of(v@).len() as int));
        }
    }
}

impl DepGraph {
    /// The edges: each id with an entry to the texts of its blockers.
    pub closed spec fn edge_map(&self) -> Map<Seq<char>, Seq<Seq<char>>> {
        Map::new(
            |k: Seq<char>| self.edges.map().dom().contains(k),
            |k: Seq<char>| ids_of(self.edges.map()[k]@),
        )
    }

    /// The active tickets by id.
    pub closed spec fn active_map(&self) -> Map<Seq<char>, Ticket> {
        self.active.map()
    }

    /// The archived tickets by id.
    pub closed spec fn archived_map(&self) -> Map<Seq<char>, Ticket> {
        self.archived.map()
    }

    /// The ids of the active tickets, in the order they were listed.
    pub closed spec fn active_keys(&self) -> Seq<Seq<char>> {
        self.active.key_seq()
    }

    /// The ids that have an entry in the edges, in order.
    pub closed spec fn edge_keys(&self) -> Seq<Seq<char>> {
        self.edges.key_seq()
    }

    #[verifier::type_invariant]
    closed spec fn inv(&self) -> bool {
        &&& self.active.wf()
        &&& self.archived.wf()
        &&& self.edges.wf()
    }

    /// Builds the graph from pre-loaded maps: every active ticket, then
    /// every archived ticket, gets an entry with its `blocked_by` list (an
    /// archived ticket's entry replaces an active one with the same id).
    pub fn from_maps(active: IdMap<Ticket>, archived: IdMap<Ticket>) -> (g: DepGraph)
        requires
            active.wf(),
            archived.wf(),
        ensures
            g.active_map() == active.map(),
            g.archived_map() == archived.map(),
            g.edge_map().dom() == active.map().dom().union(archived.map().dom()),
            forall|k: Seq<char>|
                #[trigger] g.edge_map().dom().contains(k) ==> g.edge_map()[k] == if archived.map().dom().contains(k) {
                    ids_of(archived.map()[k].front_matter.blocked_by@)
                } else {
                    ids_of(active.map()[k].front_matter.blocked_by@)
                },
    {
        let mut edges: IdMap<Vec<TicketId>> = IdMap::new();
        let mut i: usize = 0;
        while i < active.len()
            invariant
                active.wf(),
                edges.wf(),
                i <= active.key_seq().len(),
                forall|k: Seq<char>| #[trigger] edges.map().dom().contains(k) <==> exists|j: int|
                    0 <= j < i && active.key_seq()[j] == k,
                forall|k: Seq<char>| #[trigger] edges.map().dom().contains(k) ==> ids_of(edges.map()[k]@)
                    == ids_of(active.map()[k].front_matter.blocked_by@),
            decreases active.key_seq().len() - i,
        {
            let id = active.key_at(i).clone();
            let t = active.value_at(i);
            let b = clone_ids(&t.front_matter.blocked_by);
            proof {
                active.lemma_key_in_map(i as int);
            }
            edges.insert(id, b);
            proof {
                assert forall|k: Seq<char>| #[trigger] edges.map().dom().contains(k) implies active.map().dom().contains(k) by {
                    let j = choose|j: int| 0 <= j < i + 1 && active.key_seq()[j] == k;
                    active.lemma_key_in_map(j);
                }
            }
            i = i + 1;
        }
        proof {
            assert forall|k: Seq<char>| #[trigger] edges.map().dom().contains(k) <==> active.map().dom().contains(k) by {
                if active.map().dom().contains(k) {
                    active.lemma_map_key_listed(k);
                }
                if edges.map().dom().contains(k) {
                    let j = choose|j: int| 0 <= j < i && active.key_seq()[j] == k;
                    active.lemma_key_in_map(j);
                }
            }
        }
        let mut m: usize = 0;
        while m < archived.len()
            invariant
                active.wf(),
                archived.wf(),
                edges.wf(),
                m <= archived.key_seq().len(),
                forall|k: Seq<char>| #[trigger] edges.map().dom().contains(k) <==> (active.map().dom().contains(k) || exists|j: int|
                    0 <= j < m && archived.key_seq()[j] == k),
                forall|k: Seq<char>| #[trigger] edges.map().dom().contains(k) ==> ids_of(edges.map()[k]@)
                    == if exists|j: int| 0 <= j < m && archived.key_seq()[j] == k {
                        ids_of(archived.map()[k].front_matter.blocked_by@)
                    } else {
                        ids_of(active.map()[k].front_matter.blocked_by@)
                    },
            decreases archived.key_seq().len() - m,
        {
            let id = archived.key_at(m).clone();
            let t = archived.value_at(m);
            let b = clone_ids(&t.front_matter.blocked_by);
            proof {
                archived.lemma_key_in_map(m as int);
            }
            let ghost key = id@;
            edges.insert(id, b);
            proof {
                assert forall|k: Seq<char>| #[trigger] edges.map().dom().contains(k) implies ids_of(edges.map()[k]@)
                    == if exists|j: int| 0 <= j < m + 1 && archived.key_seq()[j] == k {
                        ids_of(archived.map()[k].front_matter.blocked_by@)
                    } else {
                        ids_of(active.map()[k].front_matter.blocked_by@)
                    } by {
                    if k == key {
                        assert(archived.key_seq()[m as int] == k);
                    } else {
                        if exists|j: int| 0 <= j < m + 1 && archived.key_seq()[j] == k {
                            let j = choose|j: int| 0 <= j < m + 1 && archived.key_seq()[j] == k;
                            assert(j != m);
                        }
                    }
                }
                assert forall|k: Seq<char>| #[trigger] edges.map().dom().contains(k) <==> (active.map().dom().contains(k) || exists|j: int|
                    0 <= j < m + 1 && archived.key_seq()[j] == k) by {
                    if k == key {
                        assert(archived.key_seq()[m as int] == k);
                    } else if exists|j: int| 0 <= j < m + 1 && archived.key_seq()[j] == k {
                        let j = choose|j: int| 0 <= j < m + 1 && archived.key_seq()[j] == k;
                        assert(j != m);
                    }
                }
            }
            m = m + 1;
        }
        proof {
            assert forall|k: Seq<char>| (exists|j: int| 0 <= j < m && archived.key_seq()[j] == k) <==> archived.map().dom().contains(k) by {
                if archived.map().dom().contains(k) {
                    archived.lemma_map_key_listed(k);
                }
                if exists|j: int| 0 <= j < m && archived.key_seq()[j] == k {
                    let j = choose|j: int| 0 <= j < m && archived.key_seq()[j] == k;
                    archived.lemma_key_in_map(j);
                }
            }
        }
        let g = DepGraph { active, archived, edges };
        assert(g.edge_map().dom() =~= g.active_map().dom().union(g.archived_map().dom()));
        g
    }

    /// Where `id` is found: among the active tickets, else the archived
    /// ones, else nowhere.
    pub fn node_kind(&self, id: &TicketId) -> (r: NodeKind)
        ensures
            r == if self.active_map().dom().contains(id@) {
                NodeKind::Active
            } else if self.archived_map().dom().contains(id@) {
                NodeKind::Archived
            } else {
                NodeKind::Missing
            },
    {
        proof {
            use_type_invariant(self);
        }
        if self.active.contains_key(id) {
            NodeKind::Active
        } else if self.archived.contains_key(id) {
            NodeKind::Archived
        } else {
            NodeKind::Missing
        }
    }

    /// The ticket with this id, active first, then archived.
    pub fn get_ticket(&self, id: &TicketId) -> (r: Option<&Ticket>)
        ensures
            match r {
                Some(t) => if self.active_map().dom().contains(id@) {
                    *t == self.active_map()[id@]
                } else {
                    self.archived_map().dom().contains(id@) && *t == self.archived_map()[id@]
                },
                None => !self.active_map().dom().contains(id@) && !self.archived_map().dom().contains(
                    id@,
                ),
            },
    {
        proof {
            use_type_invariant(self);
        }
        match self.active.get(id) {
            Some(t) => Some(t),
            None => self.archived.get(id),
        }
    }

    /// The ids that block `id` (its `blocked_by` list; none for an id with
    /// no entry).
    pub fn blockers(&self, id: &TicketId) -> (r: &[TicketId])
        ensures
            self.edge_map().dom().contains(id@) ==> ids_of(r@) == self.edge_map()[id@],
            !self.edge_map().dom().contains(id@) ==> r@.len() == 0,
    {
        proof {
            use_type_invariant(self);
        }
        match self.edges.get(id) {
            Some(v) => v.as_slice(),
            None => &[],
        }
    }


    /// Marks every id with an entry that blocks the id at position `j` and is
    /// not yet marked, and puts it on the work list.
    fn visit_blockers(&self, j: usize, Ghost(x): Ghost<Seq<char>>, visited: &mut Vec<bool>, work: &mut Vec<usize>)
        requires
            self.edges.wf(),
            j < self.edge_keys().len(),
            old(visited)@.len() == self.edge_keys().len(),
            reaches_from(self.edge_map(), x, self.edge_keys()[j as int]) || self.edge_keys()[j as int] == x,
            forall|k: int| 0 <= k < old(visited)@.len() && #[trigger] old(visited)@[k] ==> reaches_from(self.edge_map(), x, self.edge_keys()[k]),
            forall|i: int| 0 <= i < old(work)@.len() ==> (#[trigger] old(work)@[i]) < old(visited)@.len() && old(visited)@[old(work)@[i] as int],
            old(work)@.no_duplicates(),
        ensures
            final(visited)@.len() == old(visited)@.len(),
            forall|k: int| 0 <= k < final(visited)@.len() && #[trigger] final(visited)@[k] ==> reaches_from(self.edge_map(), x, self.edge_keys()[k]),
            forall|k: int| 0 <= k < final(visited)@.len() && old(visited)@[k] ==> #[trigger] final(visited)@[k],
            forall|k: int| 0 <= k < final(visited)@.len() && #[trigger] blocks(self.edge_map(), self.edge_keys()[j as int], self.edge_keys()[k]) ==> final(visited)@[k],
            forall|i: int| 0 <= i < final(work)@.len() ==> (#[trigger] final(work)@[i]) < final(visited)@.len() && final(visited)@[final(work)@[i] as int],
            final(work)@.no_duplicates(),
            forall|k: usize| #[trigger] final(work)@.contains(k) ==> old(work)@.contains(k) || !old(visited)@[k as int],
            old(work)@.is_prefix_of(final(work)@),
            count_set(final(visited)@) == count_set(old(visited)@) + (final(work)@.len() - old(work)@.len()),
            forall|k: int| 0 <= k < final(visited)@.len() && #[trigger] final(visited)@[k] && !old(visited)@[k] ==> final(work)@.contains(k as usize),
    {
        let ghost e = self.edge_map();
        let ghost ks = self.edge_keys();
        let ghost v0 = visited@;
        let ghost w0 = work@;
        let list = self.edges.value_at(j);
        proof {
            self.edges.lemma_key_in_map(j as int);
            assert(e.dom().contains(ks[j as int]));
            assert(e[ks[j as int]] == ids_of(list@));
            assert(w0 =~= work@.subrange(0, w0.len() as int));
        }
        let mut t: usize = 0;
        while t < list.len()
            invariant
                self.edges.wf(),
                e == self.edge_map(),
                ks == self.edge_keys(),
                j < ks.len(),
                e.dom().contains(ks[j as int]),
                e[ks[j as int]] == ids_of(list@),
                reaches_from(e, x, ks[j as int]) || ks[j as int] == x,
                t <= list@.len(),
                visited@.len() == v0.len(),
                v0.len() == ks.len(),
                forall|k: int| 0 <= k < visited@.len() && #[trigger] visited@[k] ==> reaches_from(e, x, ks[k]),
                forall|k: int| 0 <= k < visited@.len() && v0[k] ==> #[trigger] visited@[k],
                forall|u: int| 0 <= u < t && ks.contains(#[trigger] ids_of(list@)[u]) ==> visited@[ks.index_of(ids_of(list@)[u])],
                forall|i: int| 0 <= i < work@.len() ==> (#[trigger] work@[i]) < visited@.len() && visited@[work@[i] as int],
                work@.no_duplicates(),
                forall|k: usize| #[trigger] work@.contains(k) ==> w0.contains(k) || !v0[k as int],
                w0.is_prefix_of(work@),
                count_set(visited@) == count_set(v0) + (work@.len() - w0.len()),
                forall|k: int| 0 <= k < visited@.len() && #[trigger] visited@[k] && !v0[k] ==> work@.contains(k as usize),
            decreases list@.len() - t,
        {
            match self.edges.position(&list[t]) {
                Some(k) => {
                    if !visited[k] {
                        let ghost vb = visited@;
                        let ghost wb = work@;
                        proof {
                            lemma_count_set(vb, k as int);
                            assert(ks[k as int] == ids_of(list@)[t as int]);
                            assert(e[ks[j as int]].contains(ks[k as int])) by {
                                assert(ids_of(list@)[t as int] == ks[k as int]);
                            }
                            assert(blocks(e, ks[j as int], ks[k as int]));
                            lemma_reaches_step(e, x, ks[j as int], ks[k as int]);
                            assert(!wb.contains(k)) by {
                                if wb.contains(k) {
                                    let w = choose|w: int| 0 <= w < wb.len() && wb[w] == k;
                                    assert(vb[wb[w] as int]);
                                }
                            }
                        }
                        visited.set(k, true);
                        work.push(k);
                        proof {
                            assert(visited@ =~= vb.update(k as int, true));
                            assert forall|a: int, b: int| 0 <= a < b < work@.len() implies work@[a] != work@[b] by {
                                if b == wb.len() {
                                    assert(wb.contains(wb[a]));
                                }
                            }
                            assert forall|q: usize| #[trigger] work@.contains(q) implies w0.contains(q) || !v0[q as int] by {
                                let w = choose|w: int| 0 <= w < work@.len() && work@[w] == q;
                                if w < wb.len() {
                                    assert(wb[w] == q);
                                    assert(wb.contains(q));
                                } else {
                                    assert(q == k);
                                    if v0[k as int] {
                                        assert(vb[k as int]);
                                    }
                                }
                            }
                            assert(w0.is_prefix_of(work@)) by {
                                assert(w0 =~= work@.subrange(0, w0.len() as int)) by {
                                    assert forall|a: int| 0 <= a < w0.len() implies w0[a] == work@[a] by {
                                        assert(w0[a] == wb[a]);
                                    }
                                }
                            }
                            assert forall|q: int| 0 <= q < visited@.len() && #[trigger] visited@[q] && !v0[q] implies work@.contains(q as usize) by {
                                if q == k as int {
                                    assert(work@[wb.len() as int] == k);
                                } else {
                                    assert(vb[q]);
                                    assert(wb.contains(q as usize));
                                    let w = choose|w: int| 0 <= w < wb.len() && wb[w] == q as usize;
                                    assert(work@[w] == wb[w]);
                                }
                            }
                        }
                    }
                },
                None => {},
            }
            proof {
                assert forall|u: int| 0 <= u < t + 1 && ks.contains(#[trigger] ids_of(list@)[u]) implies visited@[ks.index_of(ids_of(list@)[u])] by {
                    if u == t {
                        let k = ks.index_of(ids_of(list@)[u]);
                        assert(ks[k] == ids_of(list@)[u]);
                    }
                }
            }
            t = t + 1;
        }
        proof {
            assert forall|k: int| 0 <= k < visited@.len() && #[trigger] blocks(e, ks[j as int], ks[k]) implies visited@[k] by {
                assert(ids_of(list@).contains(ks[k]));
                let u = choose|u: int| 0 <= u < ids_of(list@).len() && ids_of(list@)[u] == ks[k];
                assert(ks.contains(ids_of(list@)[u]));
                let k2 = ks.index_of(ks[k]);
                assert(ks[k2] == ks[k]);
                self.edges.lemma_keys_distinct();
                assert(k2 == k);
            }
        }
    }

    /// Whether the id at position `s` of the edge list takes part in a
    /// cycle: a search from it over the ids with an entry comes back to it.
    fn reaches_itself(&self, s: usize) -> (r: bool)
        requires
            s < self.edge_keys().len(),
        ensures
            r == on_cycle(self.edge_map(), self.edge_keys()[s as int]),
    {
        proof {
            use_type_invariant(self);
        }
        let ghost e = self.edge_map();
        let ghost ks = self.edge_keys();
        let ghost x = ks[s as int];
        let n = self.edges.len();
        let mut visited: Vec<bool> = Vec::new();
        let mut t: usize = 0;
        while t < n
            invariant
                t <= n,
                n == ks.len(),
                visited@.len() == t,
                forall|k: int| 0 <= k < t ==> !#[trigger] visited@[k],
            decreases n - t,
        {
            visited.push(false);
            t = t + 1;
        }
        let mut work: Vec<usize> = Vec::new();
        proof {
            assert(work@.no_duplicates());
        }
        let ghost vz = visited@;
        self.visit_blockers(s, Ghost(x), &mut visited, &mut work);
        proof {
            lemma_count_set(visited@, 0);
            assert forall|j: int, k: int|
                0 <= j < ks.len() && 0 <= k < ks.len() && visited@[j] && !work@.contains(j as usize)
                    && #[trigger] blocks(e, ks[j], ks[k]) implies visited@[k] by {
                assert(!vz[j]);
            }
        }
        while work.len() > 0
            invariant
                self.edges.wf(),
                e == self.edge_map(),
                ks == self.edge_keys(),
                s < ks.len(),
                n == ks.len(),
                x == ks[s as int],
                visited@.len() == ks.len(),
                forall|k: int| 0 <= k < visited@.len() && #[trigger] visited@[k] ==> reaches_from(e, x, ks[k]),
                forall|i: int| 0 <= i < work@.len() ==> (#[trigger] work@[i]) < visited@.len() && visited@[work@[i] as int],
                work@.no_duplicates(),
                forall|k: int| 0 <= k < ks.len() && #[trigger] blocks(e, x, ks[k]) ==> visited@[k],
                forall|j: int, k: int|
                    0 <= j < ks.len() && 0 <= k < ks.len() && visited@[j] && !work@.contains(j as usize)
                        && #[trigger] blocks(e, ks[j], ks[k]) ==> visited@[k],
                count_set(visited@) <= ks.len(),
            decreases ks.len() - count_set(visited@), work@.len(),
        {
            let ghost vb = visited@;
            let ghost wb = work@;
            let j = match work.pop() {
                Some(j) => j,
                None => 0,
            };
            proof {
                assert(wb.last() == j);
                assert(work@ =~= wb.drop_last());
                assert(!work@.contains(j)) by {
                    if work@.contains(j) {
                        let w = choose|w: int| 0 <= w < work@.len() && work@[w] == j;
                        assert(wb[w] == wb[wb.len() - 1]);
                    }
                }
                assert(vb[j as int]);
                assert(reaches_from(e, x, ks[j as int]));
                assert forall|a: int, b: int| 0 <= a < b < work@.len() implies work@[a] != work@[b] by {
                    assert(work@[a] == wb[a] && work@[b] == wb[b]);
                }
            }
            let ghost wa = work@;
            self.visit_blockers(j, Ghost(x), &mut visited, &mut work);
            proof {
                lemma_count_set(visited@, 0);
                assert forall|jj: int, k: int|
                    0 <= jj < ks.len() && 0 <= k < ks.len() && visited@[jj] && !work@.contains(jj as usize)
                        && #[trigger] blocks(e, ks[jj], ks[k]) implies visited@[k] by {
                    if jj != j as int {
                        assert(vb[jj]);
                        assert(!wb.contains(jj as usize)) by {
                            if wb.contains(jj as usize) {
                                let w = choose|w: int| 0 <= w < wb.len() && wb[w] == jj as usize;
                                assert(wb[wb.len() - 1] == j);
                                assert(0 <= jj);
                                assert(jj as usize != j);
                                assert(w != wb.len() - 1);
                                assert(wa[w] == jj as usize);
                                assert(work@[w] == wa[w]);
                            }
                        }
                        assert(vb[k]);
                    }
                }
            }
        }
        proof {
            if on_cycle(e, x) {
                lemma_on_cycle_reaches(e, x);
                let q = choose|q: Seq<Seq<char>>| q.len() >= 2 && is_chain(e, q) && q[0] == x && q.last() == x;
                self.edges.lemma_keys_distinct();
                assert forall|y: Seq<char>| #[trigger] e.dom().contains(y) <==> ks.contains(y) by {
                    if e.dom().contains(y) {
                        self.edges.lemma_map_key_listed(y);
                    }
                    if ks.contains(y) {
                        let w = choose|w: int| 0 <= w < ks.len() && ks[w] == y;
                        self.edges.lemma_key_in_map(w);
                    }
                }
                assert forall|j: int, k: int|
                    0 <= j < ks.len() && 0 <= k < ks.len() && visited@[j] && #[trigger] blocks(e, ks[j], ks[k]) implies visited@[k] by {
                    assert(!work@.contains(j as usize));
                }
                lemma_closure_reaches(e, ks, visited@, x, q, q.len() - 1);
                assert(ks.index_of(x) == s as int);
            }
            if visited@[s as int] {
                lemma_on_cycle_reaches(e, x);
            }
        }
        visited[s]
    }

    /// The ids that take part in a dependency cycle, each once: a
    /// depth-first search first tells whether there is any cycle; when
    /// there is, every id with an entry is tried for a way back to itself.
    pub fn cyclic_ids(&self) -> (r: Vec<TicketId>)
        ensures
            forall|x: Seq<char>| #[trigger] ids_of(r@).contains(x) <==> on_cycle(self.edge_map(), x),
            all_on_cycle(self.edge_map(), ids_of(r@)),
            ids_of(r@).no_duplicates(),
            (exists|p: Seq<Seq<char>>| is_cycle(self.edge_map(), p)) ==> r@.len() > 0,
    {
        proof {
            use_type_invariant(self);
        }
        let ghost e = self.edge_map();
        let mut visited: Vec<TicketId> = Vec::new();
        let mut cyclic: Vec<TicketId> = Vec::new();
        let n = self.edges.len();
        let mut i: usize = 0;
        while i < n
            invariant
                self.edges.wf(),
                e == self.edge_map(),
                n == self.edge_keys().len(),
                i <= n,
                all_on_cycle(e, ids_of(cyclic@)),
                ids_of(cyclic@).no_duplicates(),
                ids_of(cyclic@).len() == 0 ==> finish_ordered(e, ids_of(visited@)),
                ids_of(cyclic@).len() == 0 ==> forall|j: int|
                    0 <= j < i ==> ids_of(visited@).contains(#[trigger] self.edge_keys()[j]),
            decreases n - i,
        {
            let key = self.edges.key_at(i);
            if !contains_id(&visited, key) {
                let mut path: Vec<TicketId> = Vec::new();
                let ghost vis0 = ids_of(visited@);
                assert(ids_of(path@).no_duplicates());
                self.detect_cycles(key, &mut path, &mut visited, &mut cyclic);
                proof {
                    if ids_of(cyclic@).len() == 0 {
                        assert forall|j: int| 0 <= j < i implies ids_of(visited@).contains(
                            #[trigger] self.edge_keys()[j],
                        ) by {
                            let x = self.edge_keys()[j];
                            let w = choose|w: int| 0 <= w < vis0.len() && vis0[w] == x;
                            assert(ids_of(visited@)[w] == x);
                        }
                    }
                }
            }
            i = i + 1;
        }
        if cyclic.len() == 0 {
            proof {
                assert forall|x: Seq<char>| #[trigger] e.dom().contains(x) implies ids_of(visited@).contains(x) by {
                    self.edges.lemma_map_key_listed(x);
                    let j = choose|j: int| 0 <= j < self.edge_keys().len() && self.edge_keys()[j] == x;
                    assert(ids_of(visited@).contains(self.edge_keys()[j]));
                }
                lemma_ordered_acyclic(e, ids_of(visited@));
                assert forall|x: Seq<char>| #[trigger] ids_of(cyclic@).contains(x) <==> on_cycle(e, x) by {
                    if on_cycle(e, x) {
                        let p = choose|p: Seq<Seq<char>>| is_cycle(e, p) && p[0] == x;
                    }
                }
            }
            return cyclic;
        }
        let mut r: Vec<TicketId> = Vec::new();
        let mut i: usize = 0;
        proof {
            self.edges.lemma_keys_distinct();
        }
        while i < n
            invariant
                self.edges.wf(),
                e == self.edge_map(),
                n == self.edge_keys().len(),
                i <= n,
                self.edge_keys().no_duplicates(),
                forall|x: Seq<char>| #[trigger] ids_of(r@).contains(x) <==> exists|j: int|
                    0 <= j < i && self.edge_keys()[j] == x && on_cycle(e, x),
                forall|a: int| 0 <= a < r@.len() ==> exists|j: int| 0 <= j < i && self.edge_keys()[j] == #[trigger] ids_of(r@)[a],
                ids_of(r@).no_duplicates(),
            decreases n - i,
        {
            let ghost rb = ids_of(r@);
            if self.reaches_itself(i) {
                let c = self.edges.key_at(i).clone();
                r.push(c);
                proof {
                    assert(ids_of(r@) =~= rb.push(self.edge_keys()[i as int]));
                    assert(!rb.contains(self.edge_keys()[i as int])) by {
                        if rb.contains(self.edge_keys()[i as int]) {
                            let a = choose|a: int| 0 <= a < rb.len() && rb[a] == self.edge_keys()[i as int];
                            let j = choose|j: int| 0 <= j < i && self.edge_keys()[j] == #[trigger] rb[a];
                        }
                    }
                    assert forall|a: int, b: int| 0 <= a < b < ids_of(r@).len() implies ids_of(r@)[a] != ids_of(r@)[b] by {
                        if b == rb.len() {
                            assert(rb.contains(rb[a]));
                        }
                    }
                    assert forall|a: int| 0 <= a < r@.len() implies exists|j: int| 0 <= j < i + 1 && self.edge_keys()[j] == #[trigger] ids_of(r@)[a] by {
                        if a < rb.len() {
                            assert(ids_of(r@)[a] == rb[a]);
                            let j = choose|j: int| 0 <= j < i && self.edge_keys()[j] == #[trigger] rb[a];
                        } else {
                            assert(self.edge_keys()[i as int] == ids_of(r@)[a]);
                        }
                    }
                }
            }
            proof {
                assert forall|x: Seq<char>| #[trigger] ids_of(r@).contains(x) <==> exists|j: int|
                    0 <= j < i + 1 && self.edge_keys()[j] == x && on_cycle(e, x) by {
                    if exists|j: int| 0 <= j < i + 1 && self.edge_keys()[j] == x && on_cycle(e, x) {
                        let j = choose|j: int| 0 <= j < i + 1 && self.edge_keys()[j] == x && on_cycle(e, x);
                        if j < i {
                            assert(rb.contains(x));
                            let a = choose|a: int| 0 <= a < rb.len() && rb[a] == x;
                            assert(ids_of(r@)[a] == rb[a]);
                        } else {
                            assert(ids_of(r@)[rb.len() as int] == x);
                        }
                    }
                    if ids_of(r@).contains(x) {
                        let a = choose|a: int| 0 <= a < ids_of(r@).len() && ids_of(r@)[a] == x;
                        if a < rb.len() {
                            assert(rb[a] == x);
                            assert(rb.contains(x));
                        }
                    }
                }
            }
            i = i + 1;
        }
        proof {
            assert forall|x: Seq<char>| #[trigger] ids_of(r@).contains(x) <==> on_cycle(e, x) by {
                if on_cycle(e, x) {
                    let p = choose|p: Seq<Seq<char>>| is_cycle(e, p) && p[0] == x;
                    if p.len() >= 2 {
                        let z = 0int;
                        assert(blocks(e, p[z], p[z + 1]));
                    }
                    assert(e.dom().contains(x));
                    self.edges.lemma_map_key_listed(x);
                    let j = choose|j: int| 0 <= j < self.edge_keys().len() && self.edge_keys()[j] == x;
                }
            }
            assert forall|k: int| 0 <= k < ids_of(r@).len() implies #[trigger] on_cycle(e, ids_of(r@)[k]) by {
                assert(ids_of(r@).contains(ids_of(r@)[k]));
            }
            if exists|p: Seq<Seq<char>>| is_cycle(e, p) {
                let p = choose|p: Seq<Seq<char>>| is_cycle(e, p);
                assert(on_cycle(e, p[0]));
                assert(ids_of(r@).contains(p[0]));
            }
        }
        r
    }

    /// Depth-first search from `id` along `blocked_by` edges. `path` holds
    /// the ids being explored, each blocked by the next and the last one
    /// blocked by `id`; `visited` the ids fully explored, in the order they
    /// were finished. An id met again on `path` closes a cycle, and every id
    /// from there to the end of `path` is added to `cyclic`.
    fn detect_cycles(
        &self,
        id: &TicketId,
        path: &mut Vec<TicketId>,
        visited: &mut Vec<TicketId>,
        cyclic: &mut Vec<TicketId>,
    )
        requires
            ids_of(old(path)@).no_duplicates(),
            forall|k: int| 0 <= k < old(path)@.len() ==> #[trigger] self.edge_keys().contains(ids_of(old(path)@)[k]),
            is_chain(self.edge_map(), ids_of(old(path)@)),
            old(path)@.len() > 0 ==> blocks(self.edge_map(), ids_of(old(path)@).last(), id@),
            all_on_cycle(self.edge_map(), ids_of(old(cyclic)@)),
            ids_of(old(cyclic)@).no_duplicates(),
            ids_of(old(cyclic)@).len() == 0 ==> finish_ordered(self.edge_map(), ids_of(old(visited)@)),
        ensures
            final(path)@ == old(path)@,
            ids_of(old(visited)@).is_prefix_of(ids_of(final(visited)@)),
            ids_of(old(cyclic)@).is_prefix_of(ids_of(final(cyclic)@)),
            all_on_cycle(self.edge_map(), ids_of(final(cyclic)@)),
            ids_of(final(cyclic)@).no_duplicates(),
            ids_of(final(cyclic)@).len() == 0 ==> finish_ordered(self.edge_map(), ids_of(final(visited)@)),
            ids_of(final(cyclic)@).len() == 0 ==> ids_of(final(visited)@).contains(id@),
        decreases self.edge_keys().len() - old(path)@.len(),
    {
        proof {
            use_type_invariant(self);
        }
        let ghost e = self.edge_map();
        match position_of(path, id) {
            Some(pos) => {
                proof {
                    lemma_back_edge(e, ids_of(path@), pos as int);
                }
                let mut q: usize = pos;
                while q < path.len()
                    invariant
                        pos <= q <= path@.len(),
                        path@ == old(path)@,
                        ids_of(path@)[pos as int] == id@,
                        forall|t: int| pos <= t < path@.len() ==> #[trigger] on_cycle(e, ids_of(path@)[t]),
                        ids_of(old(cyclic)@).is_prefix_of(ids_of(cyclic@)),
                        all_on_cycle(e, ids_of(cyclic@)),
                        ids_of(cyclic@).no_duplicates(),
                        q > pos ==> ids_of(cyclic@).contains(id@),
                    decreases path@.len() - q,
                {
                    let ghost c0 = ids_of(cyclic@);
                    let ghost c00 = ids_of(old(cyclic)@);
                    push_unique(cyclic, &path[q]);
                    proof {
                        assert(on_cycle(e, ids_of(path@)[q as int]));
                        assert forall|k: int| 0 <= k < ids_of(cyclic@).len() implies #[trigger] on_cycle(e, ids_of(cyclic@)[k]) by {
                            let x = ids_of(cyclic@)[k];
                            assert(ids_of(cyclic@).contains(x));
                            if c0.contains(x) {
                                let w = choose|w: int| 0 <= w < c0.len() && c0[w] == x;
                                assert(on_cycle(e, c0[w]));
                            }
                        }
                        assert(c00 =~= ids_of(cyclic@).subrange(0, c00.len() as int)) by {
                            assert(c00 =~= c0.subrange(0, c00.len() as int));
                            assert(c0 =~= ids_of(cyclic@).subrange(0, c0.len() as int));
                        }
                        if q > pos {
                            let w = choose|w: int| 0 <= w < c0.len() && c0[w] == id@;
                            assert(ids_of(cyclic@)[w] == id@);
                        }
                    }
                    q = q + 1;
                }
                return ;
            },
            None => {},
        }
        if contains_id(visited, id) {
            proof {
                assert(ids_of(visited@) =~= ids_of(visited@).subrange(0, ids_of(visited@).len() as int));
                assert(ids_of(cyclic@) =~= ids_of(cyclic@).subrange(0, ids_of(cyclic@).len() as int));
            }
            return ;
        }
        let ghost p0 = path@;
        let c = id.clone();
        let ghost cv = c;
        path.push(c);
        proof {
            assert(ids_of(path@) =~= ids_of(p0).push(id@));
            self.edges.lemma_keys_distinct();
            lemma_distinct_within(ids_of(p0), self.edge_keys());
        }
        let bs = self.blockers(id);
        let mut t: usize = 0;
        while t < bs.len()
            invariant
                self.edges.wf(),
                e == self.edge_map(),
                p0 == old(path)@,
                path@ == p0.push(cv),
                ids_of(path@) == ids_of(p0).push(id@),
                path@.len() == p0.len() + 1,
                !ids_of(p0).contains(id@),
                ids_of(p0).no_duplicates(),
                forall|k: int| 0 <= k < p0.len() ==> #[trigger] self.edge_keys().contains(ids_of(p0)[k]),
                is_chain(e, ids_of(p0)),
                p0.len() > 0 ==> blocks(e, ids_of(p0).last(), id@),
                e.dom().contains(id@) ==> ids_of(bs@) == e[id@],
                !e.dom().contains(id@) ==> bs@.len() == 0,
                self.edge_keys().len() >= p0.len(),
                t <= bs@.len(),
                ids_of(old(visited)@).is_prefix_of(ids_of(visited@)),
                ids_of(old(cyclic)@).is_prefix_of(ids_of(cyclic@)),
                all_on_cycle(e, ids_of(cyclic@)),
                ids_of(cyclic@).no_duplicates(),
                ids_of(cyclic@).len() == 0 ==> finish_ordered(e, ids_of(visited@)),
                ids_of(cyclic@).len() == 0 ==> forall|s: int|
                    0 <= s < t ==> ids_of(visited@).contains(#[trigger] ids_of(bs@)[s]),
            decreases bs@.len() - t,
        {
            let ghost pth = ids_of(path@);
            proof {
                assert(e.dom().contains(id@));
                assert(e[id@].contains(ids_of(bs@)[t as int]));
                self.edges.lemma_map_key_listed(id@);
                assert(self.edge_keys().contains(id@)) by {
                    let j = choose|j: int| 0 <= j < self.edge_keys().len() && self.edge_keys()[j] == id@;
                    assert(self.edge_keys()[j] == id@);
                }
                assert forall|k: int| 0 <= k < pth.len() implies #[trigger] self.edge_keys().contains(pth[k]) by {
                    if k < p0.len() {
                        assert(pth[k] == ids_of(p0)[k]);
                    }
                }
                assert(pth.no_duplicates()) by {
                    assert forall|a: int, b: int| 0 <= a < b < pth.len() implies pth[a] != pth[b] by {
                        if b == p0.len() {
                            assert(ids_of(p0).contains(pth[a]));
                        }
                    }
                }
                assert(is_chain(e, pth)) by {
                    assert forall|k: int| 0 <= k < pth.len() - 1 implies #[trigger] blocks(e, pth[k], pth[k + 1]) by {
                        if k + 1 < p0.len() {
                            assert(blocks(e, ids_of(p0)[k], ids_of(p0)[k + 1]));
                        } else {
                            assert(pth[k] == ids_of(p0).last());
                        }
                    }
                }
                assert(pth.last() == id@);
                self.edges.lemma_keys_distinct();
                lemma_distinct_within(pth, self.edge_keys());
            }
            let ghost v0 = ids_of(visited@);
            self.detect_cycles(&bs[t], path, visited, cyclic);
            proof {
                if ids_of(cyclic@).len() == 0 {
                    assert forall|s: int| 0 <= s < t + 1 implies ids_of(visited@).contains(#[trigger] ids_of(bs@)[s]) by {
                        if s < t {
                            let x = ids_of(bs@)[s];
                            let w = choose|w: int| 0 <= w < v0.len() && v0[w] == x;
                            assert(ids_of(visited@)[w] == x);
                        }
                    }
                }
                assert(ids_of(old(visited)@).is_prefix_of(ids_of(visited@))) by {
                    let o = ids_of(old(visited)@);
                    assert(o =~= v0.subrange(0, o.len() as int));
                    assert(v0 =~= ids_of(visited@).subrange(0, v0.len() as int));
                    assert(o =~= ids_of(visited@).subrange(0, o.len() as int));
                }
            }
            t = t + 1;
        }
        let _ = path.pop();
        proof {
            assert(path@ =~= p0);
        }
        let ghost v1 = ids_of(visited@);
        visited.push(id.clone());
        proof {
            let vis = ids_of(visited@);
            assert(vis =~= v1.push(id@));
            assert(ids_of(old(visited)@).is_prefix_of(vis)) by {
                let o = ids_of(old(visited)@);
                assert(o =~= v1.subrange(0, o.len() as int));
                assert(o =~= vis.subrange(0, o.len() as int));
            }
            assert(vis[v1.len() as int] == id@);
            if ids_of(cyclic@).len() == 0 {
                assert forall|i: int, b: Seq<char>|
                    0 <= i < vis.len() && #[trigger] blocks(e, vis[i], b) implies vis.take(i).contains(b) by {
                    if i < v1.len() {
                        assert(vis[i] == v1[i]);
                        assert(v1.take(i).contains(b));
                        assert(vis.take(i) =~= v1.take(i));
                    } else {
                        assert(vis[i] == id@);
                        assert(e[id@].contains(b));
                        let s = choose|s: int| 0 <= s < ids_of(bs@).len() && ids_of(bs@)[s] == b;
                        assert(v1.contains(ids_of(bs@)[s]));
                        assert(vis.take(i) =~= v1);
                    }
                }
            }
        }
    }

    /// The ids of the active tickets.
    pub fn active_ids(&self) -> (r: Vec<TicketId>)
        ensures
            ids_of(r@) == self.active_keys(),
            forall|k: Seq<char>| self.active_map().dom().contains(k) <==> #[trigger] ids_of(r@).contains(k),
            ids_of(r@).no_duplicates(),
    {
        proof {
            use_type_invariant(self);
        }
        let mut r: Vec<TicketId> = Vec::new();
        let mut i: usize = 0;
        while i < self.active.len()
            invariant
                self.active.wf(),
                i <= self.active.key_seq().len(),
                r@.len() == i,
                ids_of(r@) == self.active.key_seq().take(i as int),
            decreases self.active.key_seq().len() - i,
        {
            let c = self.active.key_at(i).clone();
            let ghost before = r@;
            r.push(c);
            proof {
                assert forall|j: int| 0 <= j < i implies #[trigger] ids_of(r@)[j] == ids_of(before)[j] by {
                    assert(r@[j] == before[j]);
                }
            }
            i = i + 1;
            assert(ids_of(r@) =~= self.active.key_seq().take(i as int));
        }
        assert(self.active.key_seq().take(i as int) =~= self.active.key_seq());
        proof {
            assert forall|k: Seq<char>| self.active_map().dom().contains(k) <==> #[trigger] ids_of(r@).contains(k) by {
                if self.active_map().dom().contains(k) {
                    self.active.lemma_map_key_listed(k);
                }
                if ids_of(r@).contains(k) {
                    let j = choose|j: int| 0 <= j < ids_of(r@).len() && ids_of(r@)[j] == k;
                    self.active.lemma_key_in_map(j);
                }
            }
            self.active.lemma_keys_distinct();
        }
        r
    }
}

/// A copy of a list of ids.
pub fn clone_ids(v: &Vec<TicketId>) -> (r: Vec<TicketId>)
    ensures
        ids_of(r@) == ids_of(v@),
{
    let mut r: Vec<TicketId> = Vec::new();
    let mut i: usize = 0;
    while i < v.len()
        invariant
            i <= v.len(),
            r@.len() == i,
            ids_of(r@) == ids_of(v@).take(i as int),
        decreases v.len() - i,
    {
        let c = v[i].clone();
        let ghost before = r@;
        r.push(c);
        proof {
            assert forall|j: int| 0 <= j < i implies #[trigger] ids_of(r@)[j] == ids_of(before)[j] by {
                assert(r@[j] == before[j]);
            }
        }
        i = i + 1;
        assert(ids_of(r@) =~= ids_of(v@).take(i as int));
    }
    assert(ids_of(v@).take(i as int) =~= ids_of(v@));
    r
}

} // verus!
