use plain_tickets::archive::find_by_prefix;
use plain_tickets::commands::{relative_from_seconds, relative_time, show_body, show_lines};
use plain_tickets::domain::{
    FrontMatter, Tag, Ticket, TicketId, TicketStatus, TicketType, Timestamp, Title,
};
use plain_tickets::workdir::WorkingDir;

/// 2026-03-01T00:00:00Z.
const CREATED: i64 = 1_772_323_200;

fn ticket(title: &str) -> Ticket {
    let at = Timestamp::new(CREATED, 0);
    Ticket {
        front_matter: FrontMatter {
            id: TicketId::from("abc123".to_string()),
            title: title.parse::<Title>().unwrap(),
            ticket_type: TicketType::Task,
            status: TicketStatus::Draft,
            tags: vec![],
            parent: None,
            blocked_by: vec![],
            created_at: at,
            updated_at: at,
        },
        body: String::new(),
    }
}

fn shown(t: &Ticket, now_secs: i64) -> String {
    show_lines(t, Timestamp::new(now_secs, 0)).unwrap().join("\n")
}

#[test]
fn show_errors_when_not_initialised() {
    let err = WorkingDir::new("/nowhere".to_string(), true, false).err().unwrap();
    assert!(err.message().contains("not initialised"));
}

#[test]
fn show_errors_when_id_not_found() {
    let names = vec!["abc123_fix-login-bug.md".to_string()];
    assert_eq!(find_by_prefix(&names, "xxxxxx_"), None);
    assert_eq!(find_by_prefix(&names, "abc123_"), Some(0));
}

#[test]
fn show_prints_fields_with_emojis() {
    let out = shown(&ticket("Fix login bug"), CREATED + 5);
    assert!(out.contains("🎫"), "expected title emoji");
    assert!(out.contains("Fix login bug"), "expected title");
    assert!(out.contains("📌"), "expected status emoji");
    assert!(out.contains("draft"), "expected status");
    assert!(out.contains("🏷"), "expected type emoji");
    assert!(out.contains("task"), "expected type");
    assert!(out.contains("📅"), "expected timestamp emoji");
}

#[test]
fn show_omits_empty_optional_fields() {
    let out = shown(&ticket("Plain ticket"), CREATED + 5);
    assert!(!out.contains("🔖"), "tags emoji should be absent");
    assert!(!out.contains("⬆"), "parent emoji should be absent");
    assert!(!out.contains("🚫"), "blocked-by emoji should be absent");
}

#[test]
fn show_displays_tags_and_parent_when_set() {
    let mut t = ticket("Child ticket");
    t.front_matter.tags = vec!["auth".parse::<Tag>().unwrap(), "backend".parse::<Tag>().unwrap()];
    t.front_matter.parent = Some(TicketId::from("p4r3nt".to_string()));
    let out = shown(&t, CREATED + 5);
    assert!(out.contains("🔖  auth, backend"), "expected tags line: {out}");
    assert!(out.contains("⬆"), "expected parent emoji");
    assert!(out.contains("p4r3nt"), "expected parent id");
}

#[test]
fn show_lists_blockers_in_order() {
    let mut t = ticket("Blocked");
    t.front_matter.blocked_by =
        vec![TicketId::from("aaaaaa".to_string()), TicketId::from("bbbbbb".to_string())];
    let out = shown(&t, CREATED + 5);
    assert!(out.contains("🚫  aaaaaa, bbbbbb"), "expected blockers line: {out}");
}

#[test]
fn show_timestamps_include_date_and_relative() {
    let out = shown(&ticket("Timestamp test"), CREATED + 5);
    assert!(out.contains("2026-03-01"), "expected date in output: {out}");
    assert!(out.contains(" · "), "expected · separator");
    assert!(out.contains("just now"), "expected relative time: {out}");
}

#[test]
fn show_exact_lines_for_plain_ticket() {
    let lines = show_lines(&ticket("Plain ticket"), Timestamp::new(CREATED + 3 * 3600, 0)).unwrap();
    assert_eq!(
        lines,
        vec![
            "🎫  Plain ticket",
            "📌  draft",
            "🏷   task",
            "📅  created   2026-03-01 · 3 hours ago",
            "✏️   updated   2026-03-01 · 3 hours ago",
        ]
    );
}

#[test]
fn relative_time_words() {
    assert_eq!(relative_from_seconds(-5), "just now");
    assert_eq!(relative_from_seconds(0), "just now");
    assert_eq!(relative_from_seconds(59), "just now");
    assert_eq!(relative_from_seconds(60), "1 minute ago");
    assert_eq!(relative_from_seconds(119), "1 minute ago");
    assert_eq!(relative_from_seconds(120), "2 minutes ago");
    assert_eq!(relative_from_seconds(3600), "1 hour ago");
    assert_eq!(relative_from_seconds(86_399), "23 hours ago");
    assert_eq!(relative_from_seconds(86_400), "1 day ago");
    assert_eq!(relative_from_seconds(29 * 86_400), "29 days ago");
    assert_eq!(relative_from_seconds(30 * 86_400), "1 month ago");
    assert_eq!(relative_from_seconds(359 * 86_400), "11 months ago");
    assert_eq!(relative_from_seconds(360 * 86_400), "1 year ago");
    assert_eq!(relative_from_seconds(720 * 86_400), "2 years ago");
}

#[test]
fn relative_time_between_instants() {
    let then = Timestamp::new(CREATED, 0);
    assert_eq!(relative_time(Timestamp::new(CREATED + 7200, 0), then), Some("2 hours ago".to_string()));
    assert_eq!(relative_time(Timestamp::new(CREATED - 7200, 0), then), Some("just now".to_string()));
}

#[test]
fn relative_time_rounds_partial_seconds_toward_zero() {
    let then = Timestamp::new(CREATED, 500_000_000);
    assert_eq!(relative_time(Timestamp::new(CREATED + 60, 0), then), Some("just now".to_string()));
    assert_eq!(relative_time(Timestamp::new(CREATED + 120, 0), then), Some("1 minute ago".to_string()));
    assert_eq!(relative_time(Timestamp::new(CREATED + 120, 500_000_000), then), Some("2 minutes ago".to_string()));
}

#[test]
fn show_displays_body_when_present() {
    let mut t = ticket("Ticket with body");
    t.body = "Some description here.".to_string();
    let body = show_body(&t).expect("expected body text");
    assert!(body.contains("Some description here."), "expected body text");
    assert_eq!(show_body(&ticket("No body")), None);
}
