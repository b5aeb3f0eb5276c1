use plain_tickets::commands::{cmd_list, UnblockedContext};
use plain_tickets::domain::{
    FrontMatter, Tag, Ticket, TicketId, TicketStatus, TicketType, Timestamp, Title,
};
use plain_tickets::id_map::IdMap;
use plain_tickets::loading::LoadFailure;
use plain_tickets::workdir::{ListArgs, WorkingDir};

/// A ticket as `tickets new` makes it; `n` orders creation times.
fn ticket(id: &str, title: &str, ty: TicketType, status: TicketStatus, n: i64) -> Ticket {
    let at = Timestamp::new(1_700_000_000 + n, 0);
    Ticket {
        front_matter: FrontMatter {
            id: TicketId::from(id.to_string()),
            title: title.parse::<Title>().unwrap(),
            ticket_type: ty,
            status,
            tags: vec![],
            parent: None,
            blocked_by: vec![],
            created_at: at,
            updated_at: at,
        },
        body: String::new(),
    }
}

fn draft(id: &str, title: &str, n: i64) -> Ticket {
    ticket(id, title, TicketType::Task, TicketStatus::Draft, n)
}

fn with_status(mut t: Ticket, s: TicketStatus) -> Ticket {
    t.front_matter.status = s;
    t
}

fn with_tags(mut t: Ticket, tags: &[&str]) -> Ticket {
    t.front_matter.tags = tags.iter().map(|s| s.parse::<Tag>().unwrap()).collect();
    t
}

fn blocked_by(mut t: Ticket, id: &str) -> Ticket {
    t.front_matter.blocked_by = vec![TicketId::from(id.to_string())];
    t
}

fn copy(t: &Ticket) -> Ticket {
    let f = &t.front_matter;
    Ticket {
        front_matter: FrontMatter {
            id: f.id.clone(),
            title: f.title.clone(),
            ticket_type: f.ticket_type,
            status: f.status,
            tags: f.tags.clone(),
            parent: f.parent.clone(),
            blocked_by: f.blocked_by.clone(),
            created_at: f.created_at,
            updated_at: f.updated_at,
        },
        body: t.body.clone(),
    }
}

fn args() -> ListArgs {
    ListArgs { status: vec![], ticket_type: vec![], tag: vec![], unblocked: false }
}

fn tags(ts: &[&str]) -> Vec<Tag> {
    ts.iter().map(|s| s.parse::<Tag>().unwrap()).collect()
}

/// The lines `tickets list` prints for these tickets and arguments.
fn list(tickets: Vec<Ticket>, a: &ListArgs) -> Vec<String> {
    let out = if a.unblocked {
        let mut active = IdMap::new();
        for t in &tickets {
            active.insert(t.front_matter.id.clone(), copy(t));
        }
        let ctx = UnblockedContext { active, archived: IdMap::new(), archived_failures: IdMap::new() };
        cmd_list(tickets, &vec![], a, Some(&ctx))
    } else {
        cmd_list(tickets, &vec![], a, None)
    };
    assert!(out.warning.is_none());
    out.lines
}

#[test]
fn list_filter_status_returns_matching_only() {
    let ts = vec![
        with_status(draft("aaaaaa", "Todo ticket", 1), TicketStatus::Todo),
        draft("bbbbbb", "Draft ticket", 2),
    ];
    let a = ListArgs { status: vec![TicketStatus::Todo], ..args() };
    let lines = list(ts, &a);
    assert_eq!(lines.len(), 1, "expected 1 line, got: {:?}", lines);
    assert!(lines[0].contains("Todo ticket"));
}

#[test]
fn list_filter_status_or_semantics() {
    let ts = vec![
        with_status(draft("aaaaaa", "Todo ticket", 1), TicketStatus::Todo),
        with_status(draft("bbbbbb", "Done ticket", 2), TicketStatus::Done),
        draft("cccccc", "Draft ticket", 3),
    ];
    let a = ListArgs { status: vec![TicketStatus::Todo, TicketStatus::Done], ..args() };
    let out = list(ts, &a).join("\n");
    assert_eq!(out.lines().count(), 2);
    assert!(out.contains("Todo ticket"));
    assert!(out.contains("Done ticket"));
    assert!(!out.contains("Draft ticket"));
}

#[test]
fn list_filter_type_returns_matching_only() {
    let ts = vec![
        ticket("aaaaaa", "A bug", TicketType::Bug, TicketStatus::Draft, 1),
        ticket("bbbbbb", "A task", TicketType::Task, TicketStatus::Draft, 2),
    ];
    let a = ListArgs { ticket_type: vec![TicketType::Bug], ..args() };
    let out = list(ts, &a).join("\n");
    assert_eq!(out.lines().count(), 1);
    assert!(out.contains("A bug"));
    assert!(!out.contains("A task"));
}

#[test]
fn list_filter_tag_and_semantics() {
    let ts = vec![
        with_tags(draft("aaaaaa", "Auth and API", 1), &["auth", "api"]),
        with_tags(draft("bbbbbb", "Auth only", 2), &["auth"]),
        draft("cccccc", "No tags", 3),
    ];
    let a = ListArgs { tag: tags(&["auth", "api"]), ..args() };
    let lines = list(ts, &a);
    assert_eq!(lines.len(), 1, "expected 1 line (must have both tags), got: {:?}", lines);
    assert!(lines[0].contains("Auth and API"));
}

#[test]
fn list_no_filters_returns_all() {
    let ts = vec![
        ticket("aaaaaa", "First ticket", TicketType::Bug, TicketStatus::Draft, 1),
        ticket("bbbbbb", "Second ticket", TicketType::Task, TicketStatus::Draft, 2),
    ];
    let out = list(ts, &args()).join("\n");
    assert_eq!(out.lines().count(), 2);
    assert!(out.contains("First ticket"));
    assert!(out.contains("Second ticket"));
}

#[test]
fn list_errors_when_not_initialised() {
    let err = WorkingDir::new("/nowhere".to_string(), false, false).err().unwrap();
    assert!(err.message().contains("not initialised"), "unexpected error: {}", err.message());
}

#[test]
fn list_empty_is_silent() {
    assert!(list(vec![], &args()).is_empty());
}

#[test]
fn list_shows_one_ticket() {
    let lines = list(vec![draft("k3x9qa", "Fix login bug", 1)], &args());
    assert_eq!(lines.len(), 1, "expected 1 line, got: {:?}", lines);
    assert!(lines[0].starts_with("k3x9qa"));
    assert!(lines[0].contains("draft"));
    assert!(lines[0].contains("task"));
    assert!(lines[0].contains("Fix login bug"));
}

#[test]
fn list_shows_multiple_tickets() {
    let ts = vec![
        draft("aaaaaa", "Fix login bug", 1),
        draft("bbbbbb", "Add OAuth support", 2),
        draft("cccccc", "Write docs", 3),
    ];
    let lines = list(ts, &args());
    assert_eq!(lines.len(), 3);
    assert!(lines.iter().any(|l| l.contains("Fix login bug")));
    assert!(lines.iter().any(|l| l.contains("Add OAuth support")));
    assert!(lines.iter().any(|l| l.contains("Write docs")));
}

#[test]
fn list_unblocked_includes_ticket_with_no_blockers() {
    let a = ListArgs { unblocked: true, ..args() };
    let lines = list(vec![draft("aaaaaa", "Free-standing ticket", 1)], &a);
    assert_eq!(lines.len(), 1);
    assert!(lines[0].contains("Free-standing ticket"));
}

#[test]
fn list_unblocked_excludes_ticket_blocked_by_todo() {
    let ts = vec![
        with_status(draft("aaaaaa", "Blocker still todo", 1), TicketStatus::Todo),
        blocked_by(draft("bbbbbb", "Blocked ticket", 2), "aaaaaa"),
    ];
    let a = ListArgs { unblocked: true, ..args() };
    let lines = list(ts, &a);
    assert_eq!(lines.len(), 1, "expected 1 line, got: {:?}", lines);
    assert!(lines[0].contains("Blocker still todo"));
}

#[test]
fn list_unblocked_includes_ticket_whose_only_blocker_is_done() {
    let ts = vec![
        with_status(draft("aaaaaa", "Blocker now done", 1), TicketStatus::Done),
        blocked_by(draft("bbbbbb", "Unblocked ticket", 2), "aaaaaa"),
    ];
    let a = ListArgs { unblocked: true, ..args() };
    let out = list(ts, &a).join("\n");
    assert_eq!(out.lines().count(), 2);
    assert!(out.contains("Blocker now done"));
    assert!(out.contains("Unblocked ticket"));
}

#[test]
fn list_unblocked_and_tag_composes() {
    let ts = vec![
        with_tags(draft("aaaaaa", "Backend and unblocked", 1), &["backend"]),
        with_status(draft("bbbbbb", "Blocker still todo", 2), TicketStatus::Todo),
        blocked_by(with_tags(draft("cccccc", "Backend but blocked", 3), &["backend"]), "bbbbbb"),
        draft("dddddd", "Unblocked but untagged", 4),
    ];
    let a = ListArgs { unblocked: true, tag: tags(&["backend"]), ..args() };
    let lines = list(ts, &a);
    assert_eq!(lines.len(), 1, "expected 1 line, got: {:?}", lines);
    assert!(lines[0].contains("Backend and unblocked"));
}

#[test]
fn list_unblocked_and_status_composes() {
    let ts = vec![
        with_status(draft("aaaaaa", "Todo and unblocked", 1), TicketStatus::Todo),
        with_status(draft("bbbbbb", "Blocker in progress", 2), TicketStatus::InProgress),
        blocked_by(with_status(draft("cccccc", "Todo but blocked", 3), TicketStatus::Todo), "bbbbbb"),
        with_status(draft("dddddd", "Unblocked but done", 4), TicketStatus::Done),
    ];
    let a = ListArgs { unblocked: true, status: vec![TicketStatus::Todo], ..args() };
    let lines = list(ts, &a);
    assert_eq!(lines.len(), 1, "expected 1 line, got: {:?}", lines);
    assert!(lines[0].contains("Todo and unblocked"));
}

#[test]
fn list_unblocked_and_repeated_tag_keeps_and_semantics() {
    let ts = vec![
        with_tags(draft("aaaaaa", "Auth and API unblocked", 1), &["auth", "api"]),
        with_tags(draft("bbbbbb", "Auth only", 2), &["auth"]),
        with_status(draft("cccccc", "Blocker still todo", 3), TicketStatus::Todo),
        blocked_by(with_tags(draft("dddddd", "Auth and API blocked", 4), &["auth", "api"]), "cccccc"),
    ];
    let a = ListArgs { unblocked: true, tag: tags(&["auth", "api"]), ..args() };
    let lines = list(ts, &a);
    assert_eq!(lines.len(), 1, "expected 1 line, got: {:?}", lines);
    assert!(lines[0].contains("Auth and API unblocked"));
}

#[test]
fn list_shows_emoji_for_each_ticket_type() {
    let ts = vec![
        ticket("aaaaaa", "An epic", TicketType::Epic, TicketStatus::Draft, 1),
        ticket("bbbbbb", "A story", TicketType::Story, TicketStatus::Draft, 2),
        ticket("cccccc", "A task", TicketType::Task, TicketStatus::Draft, 3),
        ticket("dddddd", "A bug", TicketType::Bug, TicketStatus::Draft, 4),
    ];
    let out = list(ts, &args()).join("\n");
    assert!(out.contains('🎯'), "missing epic emoji: {}", out);
    assert!(out.contains('📖'), "missing story emoji: {}", out);
    assert!(out.contains('🔧'), "missing task emoji: {}", out);
    assert!(out.contains('🐛'), "missing bug emoji: {}", out);
}

#[test]
fn list_type_word_still_present_alongside_emoji() {
    let ts = vec![
        ticket("aaaaaa", "A bug", TicketType::Bug, TicketStatus::Draft, 1),
        ticket("bbbbbb", "A task", TicketType::Task, TicketStatus::Draft, 2),
    ];
    let lines = list(ts, &args());
    let bug_line = lines.iter().find(|l| l.contains("A bug")).expect("bug line present");
    assert!(bug_line.contains("bug"));
}

fn display_width(s: &str) -> usize {
    ratatui::text::Span::raw(s.to_string()).width()
}

#[test]
fn list_title_column_aligns_across_mixed_type_widths() {
    let ts = vec![
        ticket("aaaaaa", "A bug", TicketType::Bug, TicketStatus::Draft, 1),
        ticket("bbbbbb", "A story", TicketType::Story, TicketStatus::Draft, 2),
    ];
    let lines = list(ts, &args());
    assert_eq!(lines.len(), 2);
    let col = |title: &str| {
        let line = lines.iter().find(|l| l.contains(title)).unwrap();
        display_width(&line[..line.find(title).unwrap()])
    };
    assert_eq!(col("A bug"), col("A story"));
}

#[test]
fn list_widest_type_column_has_no_wasted_padding() {
    let ts = vec![
        ticket("aaaaaa", "Ticket one", TicketType::Epic, TicketStatus::Draft, 1),
        ticket("bbbbbb", "Ticket two", TicketType::Bug, TicketStatus::Draft, 2),
    ];
    let lines = list(ts, &args());
    let epic_line = lines.iter().find(|l| l.contains("Ticket one")).unwrap();
    let word_end = epic_line.find("epic").unwrap() + "epic".len();
    let title_start = epic_line.find("Ticket one").unwrap();
    assert_eq!(&epic_line[word_end..title_start], "  ");
}

#[test]
fn list_sorted_by_status_then_created_at() {
    let ts = vec![
        draft("aaaaaa", "Draft ticket", 1),
        with_status(draft("bbbbbb", "Todo ticket", 2), TicketStatus::Todo),
        with_status(draft("cccccc", "Active ticket", 3), TicketStatus::InProgress),
    ];
    let lines = list(ts, &args());
    assert_eq!(lines.len(), 3);
    assert!(lines[0].contains("Active ticket"), "first should be in-progress: {}", lines[0]);
    assert!(lines[1].contains("Todo ticket"), "second should be todo: {}", lines[1]);
    assert!(lines[2].contains("Draft ticket"), "third should be draft: {}", lines[2]);
}

#[test]
fn list_piped_output_has_no_ansi_escapes() {
    let ts = vec![
        draft("aaaaaa", "Done ticket", 1),
        with_status(draft("bbbbbb", "Done ticket two", 2), TicketStatus::Done),
    ];
    assert!(!list(ts, &args()).join("\n").contains('\u{1b}'));
}

#[test]
fn list_piped_output_is_byte_identical_to_the_uncoloured_format() {
    let ts = vec![
        with_status(draft("done01", "Ticket one", 1), TicketStatus::Done),
        draft("draft2", "Ticket two", 2),
    ];
    let out: String = list(ts, &args()).iter().map(|l| format!("{l}\n")).collect();
    assert_eq!(out, "draft2  draft   🔧 task  Ticket two\ndone01  done    🔧 task  Ticket one\n");
}

#[test]
fn list_same_status_keeps_creation_order() {
    let ts = vec![
        draft("cccccc", "Third", 3),
        draft("aaaaaa", "First", 1),
        draft("bbbbbb", "Second", 2),
    ];
    let lines = list(ts, &args());
    assert!(lines[0].contains("First"));
    assert!(lines[1].contains("Second"));
    assert!(lines[2].contains("Third"));
}

#[test]
fn list_warns_about_files_that_did_not_load() {
    let failures = vec![LoadFailure { path: "x1_bad.md".to_string(), reason: "broken".to_string() }];
    let out = cmd_list(vec![draft("aaaaaa", "Fine", 1)], &failures, &args(), None);
    let w = out.warning.unwrap();
    assert!(w.starts_with("warning: 1 ticket "), "warning was: {w}");
    assert!(w.contains("x1_bad.md"));
    assert_eq!(out.lines.len(), 1);
}

#[test]
fn list_ties_keep_the_order_they_were_loaded_in() {
    // Same status, same creation time: the order of the input stands.
    let ts = vec![
        draft("cccccc", "Loaded first", 1),
        draft("aaaaaa", "Loaded second", 1),
        draft("bbbbbb", "Loaded third", 1),
    ];
    let lines = list(ts, &args());
    assert!(lines[0].contains("Loaded first"));
    assert!(lines[1].contains("Loaded second"));
    assert!(lines[2].contains("Loaded third"));
}

#[test]
fn list_orders_every_status_by_rank() {
    let ts = vec![
        with_status(draft("r1r1r1", "Rejected one", 1), TicketStatus::Rejected),
        with_status(draft("d1d1d1", "Done one", 2), TicketStatus::Done),
        draft("f1f1f1", "Draft one", 3),
        with_status(draft("t1t1t1", "Todo one", 4), TicketStatus::Todo),
        with_status(draft("p1p1p1", "Progress one", 5), TicketStatus::InProgress),
    ];
    let lines = list(ts, &args());
    let order: Vec<&str> = lines.iter().map(|l| &l[..6]).collect();
    assert_eq!(order, vec!["p1p1p1", "t1t1t1", "f1f1f1", "d1d1d1", "r1r1r1"]);
}
