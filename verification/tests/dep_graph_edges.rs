use plain_tickets::domain::{FrontMatter, Ticket, TicketId, TicketStatus, TicketType, Timestamp};
use plain_tickets::graph::{DepGraph, NodeKind};
use plain_tickets::id_map::IdMap;

fn make_ticket(id: &str, blocked_by: Vec<&str>) -> Ticket {
    Ticket {
        front_matter: FrontMatter {
            id: id.parse().unwrap(),
            title: "Test ticket".parse().unwrap(),
            ticket_type: TicketType::Task,
            status: TicketStatus::Todo,
            tags: vec![],
            parent: None,
            blocked_by: blocked_by.iter().map(|s| s.parse().unwrap()).collect(),
            created_at: Timestamp::new(1_700_000_000, 0),
            updated_at: Timestamp::new(1_700_000_000, 0),
        },
        body: String::new(),
    }
}

fn id(s: &str) -> TicketId {
    s.parse().unwrap()
}

fn map_of(entries: Vec<(TicketId, Ticket)>) -> IdMap<Ticket> {
    let mut m = IdMap::new();
    for (k, v) in entries {
        m.insert(k, v);
    }
    m
}

fn ids_contain(v: &[TicketId], x: &TicketId) -> bool {
    v.iter().any(|y| y.as_str() == x.as_str())
}

#[test]
fn node_kind_active_ticket() {
    let graph = DepGraph::from_maps(
        map_of(vec![(id("abc123"), make_ticket("abc123", vec![]))]),
        IdMap::new(),
    );
    assert_eq!(graph.node_kind(&id("abc123")), NodeKind::Active);
}

#[test]
fn node_kind_archived_ticket() {
    let graph = DepGraph::from_maps(
        IdMap::new(),
        map_of(vec![(id("abc123"), make_ticket("abc123", vec![]))]),
    );
    assert_eq!(graph.node_kind(&id("abc123")), NodeKind::Archived);
}

#[test]
fn node_kind_missing_for_unknown_id() {
    let graph = DepGraph::from_maps(IdMap::new(), IdMap::new());
    assert_eq!(graph.node_kind(&id("unknown")), NodeKind::Missing);
}

#[test]
fn blockers_returns_blocked_by_list() {
    let graph = DepGraph::from_maps(
        map_of(vec![
            (id("a"), make_ticket("a", vec!["b", "c"])),
            (id("b"), make_ticket("b", vec![])),
            (id("c"), make_ticket("c", vec![])),
        ]),
        IdMap::new(),
    );
    let blockers = graph.blockers(&id("a"));
    assert_eq!(blockers.len(), 2);
    assert!(ids_contain(blockers, &id("b")));
    assert!(ids_contain(blockers, &id("c")));
}

#[test]
fn blockers_empty_for_unknown_id() {
    let graph = DepGraph::from_maps(IdMap::new(), IdMap::new());
    assert!(graph.blockers(&id("unknown")).is_empty());
}

#[test]
fn cyclic_ids_detects_simple_cycle() {
    // a blocked_by b, b blocked_by a
    let graph = DepGraph::from_maps(
        map_of(vec![
            (id("a"), make_ticket("a", vec!["b"])),
            (id("b"), make_ticket("b", vec!["a"])),
        ]),
        IdMap::new(),
    );
    let cycles = graph.cyclic_ids();
    assert!(ids_contain(&cycles, &id("a")), "a should be in cycle");
    assert!(ids_contain(&cycles, &id("b")), "b should be in cycle");
}

#[test]
fn cyclic_ids_empty_for_acyclic_graph() {
    let graph = DepGraph::from_maps(
        map_of(vec![
            (id("a"), make_ticket("a", vec!["b"])),
            (id("b"), make_ticket("b", vec!["c"])),
            (id("c"), make_ticket("c", vec![])),
        ]),
        IdMap::new(),
    );
    assert!(graph.cyclic_ids().is_empty());
}

#[test]
fn missing_blocker_is_flagged_as_missing() {
    let graph = DepGraph::from_maps(
        map_of(vec![(id("a"), make_ticket("a", vec!["ghost"]))]),
        IdMap::new(),
    );
    assert_eq!(graph.node_kind(&id("ghost")), NodeKind::Missing);
}

#[test]
fn archived_blocker_is_flagged_as_archived() {
    let graph = DepGraph::from_maps(
        map_of(vec![(id("a"), make_ticket("a", vec!["b"]))]),
        map_of(vec![(id("b"), make_ticket("b", vec![]))]),
    );
    assert_eq!(graph.node_kind(&id("b")), NodeKind::Archived);
}

#[test]
fn self_blocking_ticket_is_cyclic() {
    let graph = DepGraph::from_maps(map_of(vec![(id("a"), make_ticket("a", vec!["a"]))]), IdMap::new());
    let cycles = graph.cyclic_ids();
    assert_eq!(cycles.len(), 1);
    assert_eq!(cycles[0].as_str(), "a");
}

#[test]
fn cycle_through_archived_ticket_is_found_once_per_id() {
    let graph = DepGraph::from_maps(
        map_of(vec![(id("a"), make_ticket("a", vec!["b"])), (id("c"), make_ticket("c", vec!["a"]))]),
        map_of(vec![(id("b"), make_ticket("b", vec!["a"]))]),
    );
    let cycles = graph.cyclic_ids();
    assert_eq!(cycles.len(), 2);
    assert!(ids_contain(&cycles, &id("a")));
    assert!(ids_contain(&cycles, &id("b")));
    assert!(!ids_contain(&cycles, &id("c")));
}

#[test]
fn archived_entry_replaces_active_edges() {
    let graph = DepGraph::from_maps(
        map_of(vec![(id("a"), make_ticket("a", vec!["x"]))]),
        map_of(vec![(id("a"), make_ticket("a", vec!["y", "z"]))]),
    );
    let blockers = graph.blockers(&id("a"));
    assert_eq!(blockers.len(), 2);
    assert!(ids_contain(blockers, &id("y")));
    assert_eq!(graph.node_kind(&id("a")), NodeKind::Active);
}

#[test]
fn cyclic_ids_names_every_member_of_overlapping_cycles() {
    // z is blocked by w and u; u by w; w by z: z-w-z and z-u-w-z are cycles.
    let graph = DepGraph::from_maps(
        map_of(vec![
            (id("z"), make_ticket("z", vec!["w", "u"])),
            (id("u"), make_ticket("u", vec!["w"])),
            (id("w"), make_ticket("w", vec!["z"])),
            (id("t"), make_ticket("t", vec!["z"])),
        ]),
        IdMap::new(),
    );
    let cycles = graph.cyclic_ids();
    assert_eq!(cycles.len(), 3);
    for x in ["z", "u", "w"] {
        assert!(ids_contain(&cycles, &id(x)), "{x} should be in a cycle");
    }
    assert!(!ids_contain(&cycles, &id("t")), "t only leads into a cycle");
}

#[test]
fn get_ticket_prefers_active_then_archived() {
    let graph = DepGraph::from_maps(
        map_of(vec![(id("a"), make_ticket("a", vec!["b"]))]),
        map_of(vec![(id("b"), make_ticket("b", vec![]))]),
    );
    assert_eq!(graph.get_ticket(&id("a")).unwrap().front_matter.blocked_by.len(), 1);
    assert!(graph.get_ticket(&id("b")).is_some());
    assert!(graph.get_ticket(&id("c")).is_none());
    let act = graph.active_ids();
    assert_eq!(act.len(), 1);
    assert_eq!(act[0].as_str(), "a");
}
