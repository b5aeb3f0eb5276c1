use plain_tickets::board::format_load_failures;
use plain_tickets::loading::LoadFailure;

#[test]
fn format_load_failures_none_when_nothing_failed() {
    assert!(format_load_failures(&vec![]).is_none());
}

#[test]
fn format_load_failures_names_files_and_counts_them() {
    let failures = vec![
        LoadFailure {
            path: "a1_broken.md".to_string(),
            reason: "invalid front matter: missing field `status`".to_string(),
        },
        LoadFailure {
            path: "b2_locked.md".to_string(),
            reason: "permission denied".to_string(),
        },
    ];
    let msg = format_load_failures(&failures).unwrap();
    assert!(msg.contains("2 tickets"), "message was: {msg}");
    assert!(msg.contains("a1_broken.md"), "message was: {msg}");
    assert!(msg.contains("b2_locked.md"), "message was: {msg}");
}

#[test]
fn format_load_failures_singular_for_one_failure() {
    let failures = vec![LoadFailure {
        path: "a1_broken.md".to_string(),
        reason: "invalid front matter".to_string(),
    }];
    let msg = format_load_failures(&failures).unwrap();
    assert!(msg.starts_with("1 ticket "), "message was: {msg}");
}

// The board is built from the tickets that loaded; a file that could not be
// split into front matter and body is recorded as a failure and named in the
// startup flash.

use plain_tickets::board::{seed_load_flash, App};
use plain_tickets::domain::{FrontMatter, Ticket, TicketId, TicketStatus, TicketType, Timestamp, Title};
use plain_tickets::ticket_file::split_front_matter;

fn valid_ticket_contents(id: &str) -> String {
    format!(
        "---\nid: {id}\ntitle: Valid ticket\ntype: task\nstatus: todo\ntags: []\nparent: null\nblocked_by: []\ncreated_at: 2000-01-01T00:00:00Z\nupdated_at: 2000-01-01T00:00:00Z\n---\n"
    )
}

fn valid_ticket(id: &str) -> Ticket {
    let now = Timestamp::new(946_684_800, 0);
    Ticket {
        front_matter: FrontMatter {
            id: TicketId::from(id.to_string()),
            title: "Valid ticket".parse::<Title>().unwrap(),
            ticket_type: TicketType::Task,
            status: TicketStatus::Todo,
            tags: vec![],
            parent: None,
            blocked_by: vec![],
            created_at: now,
            updated_at: now,
        },
        body: String::new(),
    }
}

/// Splits each file; those that split are loaded as the valid ticket,
/// the others become failures.
fn load(files: &[(&str, String)]) -> (Vec<Ticket>, Vec<LoadFailure>) {
    let mut tickets = vec![];
    let mut failures = vec![];
    for (name, contents) in files {
        match split_front_matter(contents) {
            Ok(_) => tickets.push(valid_ticket(&name[..2])),
            Err(e) => failures.push(LoadFailure { path: name.to_string(), reason: e.message() }),
        }
    }
    (tickets, failures)
}

#[test]
fn build_app_seeds_flash_when_a_ticket_fails_to_load() {
    let (tickets, failures) = load(&[
        ("a1_valid.md", valid_ticket_contents("a1")),
        ("b2_broken.md", "not front matter at all".to_string()),
    ]);
    let mut app = App::new(tickets, vec![TicketStatus::Todo]);
    seed_load_flash(&mut app, &failures);

    assert_eq!(app.tickets.len(), 1);
    let msg = app.flash.expect("startup flash must be seeded when a ticket fails to load");
    assert!(msg.contains("b2_broken.md"), "flash was: {msg}");
}

#[test]
fn build_app_no_flash_when_everything_loads_cleanly() {
    let (tickets, failures) = load(&[("a1_valid.md", valid_ticket_contents("a1"))]);
    let mut app = App::new(tickets, vec![TicketStatus::Todo]);
    seed_load_flash(&mut app, &failures);

    assert_eq!(app.tickets.len(), 1);
    assert!(app.flash.is_none());
}

#[test]
fn reload_keeps_earlier_flash_when_nothing_fails() {
    let mut app = App::new(vec![valid_ticket("a1")], vec![TicketStatus::Todo]);
    app.flash = Some("earlier".to_string());
    seed_load_flash(&mut app, &vec![]);
    assert_eq!(app.flash.as_deref(), Some("earlier"));
}
