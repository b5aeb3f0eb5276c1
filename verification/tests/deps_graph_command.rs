use plain_tickets::commands::{cmd_deps_graph, cycle_warning};
use plain_tickets::deps::{render_forest, DepsGraph};
use plain_tickets::domain::{
    FrontMatter, Ticket, TicketId, TicketStatus, TicketType, Timestamp, Title,
};
use plain_tickets::id_map::IdMap;
use plain_tickets::loading::LoadFailure;

fn ticket(id: &str, title: &str, status: TicketStatus, blockers: &[&str]) -> Ticket {
    let at = Timestamp::new(1_700_000_000, 0);
    Ticket {
        front_matter: FrontMatter {
            id: TicketId::from(id.to_string()),
            title: title.parse::<Title>().unwrap(),
            ticket_type: TicketType::Task,
            status,
            tags: vec![],
            parent: None,
            blocked_by: blockers.iter().map(|b| TicketId::from(b.to_string())).collect(),
            created_at: at,
            updated_at: at,
        },
        body: String::new(),
    }
}

fn todo(id: &str, title: &str, blockers: &[&str]) -> Ticket {
    ticket(id, title, TicketStatus::Todo, blockers)
}

fn map(ts: Vec<Ticket>) -> IdMap<Ticket> {
    let mut m = IdMap::new();
    for t in ts {
        m.insert(t.front_matter.id.clone(), t);
    }
    m
}

fn graph(active: Vec<Ticket>, archived: Vec<Ticket>, archived_failures: Vec<LoadFailure>) -> DepsGraph {
    DepsGraph::build(map(active), vec![], map(archived), archived_failures)
}

#[test]
fn linear_chain_renders_nested_deepest_last() {
    let g = graph(
        vec![
            todo("a1a1a1", "Set up DB schema", &[]),
            todo("b2b2b2", "Write migration", &["a1a1a1"]),
            todo("c3c3c3", "Run migration in CI", &["b2b2b2"]),
        ],
        vec![],
        vec![],
    );
    assert_eq!(
        render_forest(&g),
        "a1a1a1  todo  Set up DB schema\n└── b2b2b2  todo  Write migration\n    └── c3c3c3  todo  Run migration in CI\n"
    );
}

#[test]
fn empty_tickets_dir_prints_nothing_and_exits_zero() {
    let g = graph(vec![], vec![], vec![]);
    let (out, warning) = cmd_deps_graph(&g);
    assert_eq!(out, "");
    assert_eq!(warning, None);
}

#[test]
fn blocker_archived_and_done_renders_dependent_as_root() {
    let g = graph(
        vec![todo("d1d1d1", "Build on top", &["o1o1o1"])],
        vec![ticket("o1o1o1", "Old finished setup", TicketStatus::Done, &[])],
        vec![],
    );
    assert_eq!(render_forest(&g), "d1d1d1  todo  Build on top\n");
}

#[test]
fn blocker_archived_and_done_never_appears_as_a_node_or_label() {
    let g = graph(
        vec![todo("d1d1d1", "Build on top", &["o1o1o1"])],
        vec![ticket("o1o1o1", "Old finished setup", TicketStatus::Done, &[])],
        vec![],
    );
    let out = render_forest(&g);
    assert!(!out.contains("o1o1o1"));
    assert!(!out.contains("Old finished setup"));
}

#[test]
fn archived_non_done_blocker_keeps_dependent_blocked_and_renders_stub_root() {
    let g = graph(
        vec![todo("d1d1d1", "Migrate to new queue", &["r1r1r1"])],
        vec![ticket("r1r1r1", "Old rejected setup", TicketStatus::Rejected, &[])],
        vec![],
    );
    assert_eq!(
        render_forest(&g),
        "[archived: r1r1r1 rejected]\n└── d1d1d1  todo  Migrate to new queue\n"
    );
}

#[test]
fn archived_stub_names_both_the_archived_ticket_id_and_its_status() {
    let g = graph(
        vec![todo("d1d1d1", "Depends on abandoned work", &["r1r1r1"])],
        vec![ticket("r1r1r1", "Abandoned approach", TicketStatus::Rejected, &[])],
        vec![],
    );
    assert!(render_forest(&g).contains("[archived: r1r1r1 rejected]"));
}

#[test]
fn missing_blocker_id_renders_as_missing_stub_with_dependent_nested() {
    let g = graph(vec![todo("d1d1d1", "Migrate to new queue", &["zz9999"])], vec![], vec![]);
    assert_eq!(render_forest(&g), "[missing: zz9999]\n└── d1d1d1  todo  Migrate to new queue\n");
}

#[test]
fn missing_and_archived_stubs_are_visually_distinct_from_each_other() {
    let g = graph(
        vec![
            todo("d1d1d1", "Depends on rejected work", &["r1r1r1"]),
            todo("d2d2d2", "Depends on unknown id", &["zz9999"]),
        ],
        vec![ticket("r1r1r1", "Rejected old approach", TicketStatus::Rejected, &[])],
        vec![],
    );
    let out = render_forest(&g);
    assert!(out.contains("[archived: r1r1r1 rejected]"), "{out}");
    assert!(out.contains("[missing: zz9999]"), "{out}");
}

#[test]
fn diamond_expands_shared_dependent_once() {
    let g = graph(
        vec![
            todo("a1a1a1", "Root", &[]),
            todo("b1b1b1", "Left", &["a1a1a1"]),
            todo("c1c1c1", "Right", &["a1a1a1"]),
            todo("d1d1d1", "Join", &["b1b1b1", "c1c1c1"]),
        ],
        vec![],
        vec![],
    );
    let out = render_forest(&g);
    assert_eq!(out.matches("d1d1d1  todo  Join").count(), 2, "{out}");
    assert_eq!(out.lines().count(), 5, "{out}");
}

#[test]
fn cycle_is_reported_with_its_members() {
    let g = graph(
        vec![
            todo("a1a1a1", "First", &["b1b1b1"]),
            todo("b1b1b1", "Second", &["a1a1a1"]),
            todo("c1c1c1", "Outside", &[]),
        ],
        vec![],
        vec![],
    );
    let (_, warning) = cmd_deps_graph(&g);
    assert_eq!(
        warning,
        Some("warning: dependency cycle detected among: a1a1a1, b1b1b1".to_string())
    );
    let cyc = g.cyclic_ids();
    assert_eq!(cyc.len(), 2);
}

#[test]
fn self_blocker_is_a_cycle() {
    let g = graph(vec![todo("a1a1a1", "Me", &["a1a1a1"])], vec![], vec![]);
    assert_eq!(g.cyclic_ids().len(), 1);
}

#[test]
fn no_cycle_no_warning() {
    assert_eq!(cycle_warning(&vec![]), None);
}

#[test]
fn unreadable_archived_blocker_is_reported() {
    let failures = vec![LoadFailure { path: "arch/u1u1u1_x.md".to_string(), reason: "broken".to_string() }];
    let g = DepsGraph::build(map(vec![todo("d1d1d1", "Waits", &["u1u1u1"])]), vec![], map(vec![]), failures);
    assert_eq!(g.load_failures().len(), 1);
}

#[test]
fn diamond_renders_exact_tree_with_repeat_marker() {
    let mut ts = vec![
        todo("a1a1a1", "Root", &[]),
        todo("b1b1b1", "Left", &["a1a1a1"]),
        todo("c1c1c1", "Right", &["a1a1a1"]),
        todo("d1d1d1", "Join", &["b1b1b1", "c1c1c1"]),
    ];
    // Distinct creation times fix the order of siblings.
    for (k, t) in ts.iter_mut().enumerate() {
        t.front_matter.created_at = Timestamp::new(1_700_000_000 + k as i64, 0);
    }
    let g = graph(ts, vec![], vec![]);
    assert_eq!(
        render_forest(&g),
        "a1a1a1  todo  Root\n├── b1b1b1  todo  Left\n│   └── d1d1d1  todo  Join\n└── c1c1c1  todo  Right\n    └── d1d1d1  todo  Join  (see above)\n"
    );
}

#[test]
fn cycle_with_entry_renders_cycle_marker() {
    let mut ts = vec![
        todo("a1a1a1", "Entry", &[]),
        todo("b1b1b1", "Loop one", &["a1a1a1", "c1c1c1"]),
        todo("c1c1c1", "Loop two", &["b1b1b1"]),
    ];
    for (k, t) in ts.iter_mut().enumerate() {
        t.front_matter.created_at = Timestamp::new(1_700_000_000 + k as i64, 0);
    }
    let g = graph(ts, vec![], vec![]);
    assert_eq!(
        render_forest(&g),
        "a1a1a1  todo  Entry\n└── b1b1b1  todo  Loop one\n    └── c1c1c1  todo  Loop two\n        └── b1b1b1  todo  Loop one  (cycle: see above)\n"
    );
}

#[test]
fn pure_cycle_without_root_is_still_drawn() {
    let mut ts = vec![
        todo("a1a1a1", "One", &["b1b1b1"]),
        todo("b1b1b1", "Two", &["a1a1a1"]),
    ];
    for (k, t) in ts.iter_mut().enumerate() {
        t.front_matter.created_at = Timestamp::new(1_700_000_000 + k as i64, 0);
    }
    let g = graph(ts, vec![], vec![]);
    assert_eq!(
        render_forest(&g),
        "a1a1a1  todo  One\n└── b1b1b1  todo  Two\n    └── a1a1a1  todo  One  (cycle: see above)\n"
    );
}
