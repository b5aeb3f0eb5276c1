use plain_tickets::blockers::StubKind;
use plain_tickets::blockers::{blocker_satisfied, is_unblocked, resolve_blocker, BlockerResolution};
use plain_tickets::domain::{
    FrontMatter, Ticket, TicketId, TicketStatus, TicketType, Timestamp,
};
use plain_tickets::id_map::IdMap;

fn make_ticket(id: &str, status: TicketStatus) -> Ticket {
    Ticket {
        front_matter: FrontMatter {
            id: id.parse().unwrap(),
            title: "Test ticket".parse().unwrap(),
            ticket_type: TicketType::Task,
            status,
            tags: vec![],
            parent: None,
            blocked_by: vec![],
            created_at: Timestamp::new(1_700_000_000, 0),
            updated_at: Timestamp::new(1_700_000_000, 0),
        },
        body: String::new(),
    }
}

fn id(s: &str) -> TicketId {
    s.parse().unwrap()
}

fn map_of<V>(entries: Vec<(TicketId, V)>) -> IdMap<V> {
    let mut m = IdMap::new();
    for (k, v) in entries {
        m.insert(k, v);
    }
    m
}

#[test]
fn active_blocker_resolves_active_regardless_of_status() {
    let active = map_of(vec![(id("a"), make_ticket("a", TicketStatus::Todo))]);
    let archived = IdMap::new();
    let archived_failures = IdMap::new();

    let resolution = resolve_blocker(&active, &archived, &archived_failures, &id("a"));

    assert_eq!(resolution, BlockerResolution::Active(id("a")));
}

#[test]
fn archived_done_blocker_resolves_archived_done() {
    let active = IdMap::new();
    let archived = map_of(vec![(id("a"), make_ticket("a", TicketStatus::Done))]);
    let archived_failures = IdMap::new();

    let resolution = resolve_blocker(&active, &archived, &archived_failures, &id("a"));

    assert_eq!(resolution, BlockerResolution::ArchivedDone(id("a")));
}

#[test]
fn archived_non_done_blocker_resolves_archived_stub() {
    let active = IdMap::new();
    let archived = map_of(vec![(id("a"), make_ticket("a", TicketStatus::Rejected))]);
    let archived_failures = IdMap::new();

    let resolution = resolve_blocker(&active, &archived, &archived_failures, &id("a"));

    assert_eq!(
        resolution,
        BlockerResolution::ArchivedStub(id("a"), TicketStatus::Rejected)
    );
}

#[test]
fn blocker_missing_everywhere_resolves_missing() {
    let active = IdMap::new();
    let archived = IdMap::new();
    let archived_failures = IdMap::new();

    let resolution = resolve_blocker(&active, &archived, &archived_failures, &id("a"));

    assert_eq!(resolution, BlockerResolution::Missing(id("a")));
}

#[test]
fn blocker_present_in_archived_failures_resolves_archived_unreadable_not_missing() {
    let active = IdMap::new();
    let archived = IdMap::new();
    let archived_failures = map_of(vec![(
        id("a"),
        "invalid type: string \"nonsense\"".to_string(),
    )]);

    let resolution = resolve_blocker(&active, &archived, &archived_failures, &id("a"));

    assert_eq!(
        resolution,
        BlockerResolution::ArchivedUnreadable(
            id("a"),
            "invalid type: string \"nonsense\"".to_string()
        )
    );
}

#[test]
fn blocker_satisfied_treats_archived_done_as_satisfied() {
    let active: IdMap<Ticket> = IdMap::new();
    let resolution = BlockerResolution::ArchivedDone(id("a"));

    assert!(blocker_satisfied(&active, &resolution));
}

#[test]
fn blocker_satisfied_treats_archived_stub_as_unsatisfied() {
    let active: IdMap<Ticket> = IdMap::new();
    let resolution = BlockerResolution::ArchivedStub(id("a"), TicketStatus::Rejected);

    assert!(!blocker_satisfied(&active, &resolution));
}

#[test]
fn blocker_satisfied_treats_missing_as_unsatisfied() {
    let active: IdMap<Ticket> = IdMap::new();
    let resolution = BlockerResolution::Missing(id("a"));

    assert!(!blocker_satisfied(&active, &resolution));
}

#[test]
fn blocker_satisfied_treats_archived_unreadable_as_unsatisfied() {
    let active: IdMap<Ticket> = IdMap::new();
    let resolution = BlockerResolution::ArchivedUnreadable(id("a"), "boom".to_string());

    assert!(!blocker_satisfied(&active, &resolution));
}

#[test]
fn is_unblocked_true_when_only_blocker_is_archived_done() {
    let active = IdMap::new();
    let archived = map_of(vec![(id("blocker"), make_ticket("blocker", TicketStatus::Done))]);
    let mut dependent = make_ticket("dependent", TicketStatus::Todo);
    dependent.front_matter.blocked_by = vec![id("blocker")];
    let archived_failures = IdMap::new();

    assert!(is_unblocked(&active, &archived, &archived_failures, &dependent));
}

#[test]
fn is_unblocked_false_when_only_blocker_is_archived_non_done() {
    let active = IdMap::new();
    let archived = map_of(vec![(
        id("blocker"),
        make_ticket("blocker", TicketStatus::Rejected),
    )]);
    let mut dependent = make_ticket("dependent", TicketStatus::Todo);
    dependent.front_matter.blocked_by = vec![id("blocker")];
    let archived_failures = IdMap::new();

    assert!(!is_unblocked(&active, &archived, &archived_failures, &dependent));
}

#[test]
fn is_unblocked_false_when_only_blocker_is_missing() {
    let active = IdMap::new();
    let archived = IdMap::new();
    let mut dependent = make_ticket("dependent", TicketStatus::Todo);
    dependent.front_matter.blocked_by = vec![id("blocker")];
    let archived_failures = IdMap::new();

    assert!(!is_unblocked(&active, &archived, &archived_failures, &dependent));
}

#[test]
fn stub_labels_are_distinct_per_kind() {
    let id = TicketId::from("zz9999".to_string());
    let a = StubKind::Archived(TicketStatus::Rejected).label(&id);
    let m = StubKind::Missing.label(&id);
    let u = StubKind::Unreadable("bad yaml".to_string()).label(&id);
    assert_eq!(a, "[archived: zz9999 rejected]");
    assert_eq!(m, "[missing: zz9999]");
    assert_eq!(u, "[unreadable: zz9999 (bad yaml)]");
    assert_ne!(a, m);
    assert_ne!(m, u);
    assert_ne!(a, u);
}
