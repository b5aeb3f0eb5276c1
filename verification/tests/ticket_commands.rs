use plain_tickets::archive::{cmd_archive, ArchiveError, ArchiveListing, ArchivePlan};
use plain_tickets::commands::{
    apply_edits, cmd_init, directory_report, git_detect, edit_message, new_ticket, new_ticket_id, renamed_path,
    InitError,
};
use plain_tickets::config::Config;
use plain_tickets::domain::{
    FrontMatter, Tag, Ticket, TicketId, TicketStatus, TicketType, Timestamp, Title,
};
use plain_tickets::workdir::{ArchiveArgs, EditArgs, NewArgs, WorkingDir};

fn wd() -> WorkingDir {
    WorkingDir::new("/t".to_string(), true, true).unwrap()
}

fn names(v: &[&str]) -> Vec<String> {
    v.iter().map(|s| s.to_string()).collect()
}

fn ids(v: &[&str]) -> Vec<TicketId> {
    v.iter().map(|s| TicketId::from(s.to_string())).collect()
}

fn listing(all: &[&str], archived: &[&str], rejected: &[&str]) -> ArchiveListing {
    let loaded = all
        .iter()
        .map(|n| {
            let status = if rejected.contains(n) { TicketStatus::Rejected } else { TicketStatus::Todo };
            (n.to_string(), status)
        })
        .collect();
    ArchiveListing { all_names: names(all), archived_names: names(archived), loaded }
}

fn moves(r: Result<ArchivePlan, ArchiveError>) -> Vec<(String, String, String)> {
    match r {
        Ok(ArchivePlan::Moves(ms)) => ms.into_iter().map(|m| (m.src, m.dst, m.id)).collect(),
        Ok(ArchivePlan::NothingToArchive) => panic!("nothing to archive"),
        Err(e) => panic!("archive refused: {}", e.message()),
    }
}

// ── archive ───────────────────────────────────────────────────────────────

#[test]
fn archive_single_id_moves_file() {
    let args = ArchiveArgs { ids: ids(&["abc123"]), all_rejected: false };
    let ms = moves(cmd_archive(&wd(), &args, &listing(&["abc123_move-me.md"], &[], &[])));
    assert_eq!(
        ms,
        vec![(
            "/t/all/abc123_move-me.md".to_string(),
            "/t/archived/abc123_move-me.md".to_string(),
            "abc123".to_string()
        )]
    );
}

#[test]
fn archive_multiple_ids_moves_all() {
    let args = ArchiveArgs { ids: ids(&["aaaaaa", "bbbbbb"]), all_rejected: false };
    let l = listing(&["bbbbbb_second.md", "aaaaaa_first.md"], &[], &[]);
    let ms = moves(cmd_archive(&wd(), &args, &l));
    assert_eq!(ms.len(), 2);
    assert_eq!(ms[0].1, "/t/archived/aaaaaa_first.md");
    assert_eq!(ms[1].1, "/t/archived/bbbbbb_second.md");
}

#[test]
fn archive_unknown_id_errors_no_files_moved() {
    let args = ArchiveArgs { ids: ids(&["abc123", "xxxxxx"]), all_rejected: false };
    let r = cmd_archive(&wd(), &args, &listing(&["abc123_keep-me.md"], &[], &[]));
    match r {
        Err(ArchiveError::Problems(ps)) => {
            assert_eq!(ps, vec!["xxxxxx: not found".to_string()]);
            assert_eq!(ArchiveError::Problems(ps).message(), "no files moved");
        }
        _ => panic!("expected failure"),
    }
}

#[test]
fn archive_already_archived_id_errors() {
    let args = ArchiveArgs { ids: ids(&["abc123"]), all_rejected: false };
    let r = cmd_archive(&wd(), &args, &listing(&[], &["abc123_archive-me-twice.md"], &[]));
    assert_eq!(
        r.err(),
        Some(ArchiveError::Problems(vec!["abc123: already in archived/".to_string()]))
    );
}

#[test]
fn archive_success_output_format() {
    let args = ArchiveArgs { ids: ids(&["abc123"]), all_rejected: false };
    let r = cmd_archive(&wd(), &args, &listing(&["abc123_format-test.md"], &[], &[]));
    match r {
        Ok(ArchivePlan::Moves(ms)) => {
            assert_eq!(ms.len(), 1);
            assert!(ms[0].report.contains("abc123"), "id missing from output: {}", ms[0].report);
            assert!(ms[0].report.contains("archived"), "word 'archived' missing: {}", ms[0].report);
            assert_eq!(ms[0].report, "abc123  archived \u{2192} /t/archived/abc123_format-test.md");
            assert_eq!(ms[0].message, "tickets: archive abc123");
        }
        _ => panic!("expected a move"),
    }
}

#[test]
fn archive_not_initialised_errors() {
    assert!(WorkingDir::new("/t".to_string(), false, true).is_err());
}

#[test]
fn archive_all_rejected_moves_rejected_tickets() {
    let args = ArchiveArgs { ids: vec![], all_rejected: true };
    let l = listing(
        &["r1r1r1_rejected-one.md", "r2r2r2_rejected-two.md", "k3k3k3_keep-this.md"],
        &[],
        &["r1r1r1_rejected-one.md", "r2r2r2_rejected-two.md"],
    );
    let ms = moves(cmd_archive(&wd(), &args, &l));
    assert_eq!(ms.len(), 2);
    assert_eq!(ms[0].1, "/t/archived/r1r1r1_rejected-one.md");
    assert_eq!(ms[1].1, "/t/archived/r2r2r2_rejected-two.md");
    assert!(ms.iter().all(|m| !m.0.contains("keep-this")));
}

#[test]
fn archive_all_rejected_no_matches_exits_zero() {
    let args = ArchiveArgs { ids: vec![], all_rejected: true };
    let r = cmd_archive(&wd(), &args, &listing(&["n1n1n1_not-rejected.md"], &[], &[]));
    assert!(matches!(r, Ok(ArchivePlan::NothingToArchive)));
}

#[test]
fn archive_all_rejected_and_ids_is_hard_error() {
    let args = ArchiveArgs { ids: ids(&["abc123"]), all_rejected: true };
    let r = cmd_archive(&wd(), &args, &listing(&["abc123_combo.md"], &[], &[]));
    let e = r.err().unwrap();
    assert_eq!(e, ArchiveError::ConflictingArguments);
    assert_eq!(e.message(), "--all-rejected and explicit IDs are mutually exclusive");
}

#[test]
fn archive_does_not_mutate_front_matter() {
    // Archiving is a move of the file: source and destination share a name.
    let args = ArchiveArgs { ids: ids(&["abc123"]), all_rejected: false };
    let ms = moves(cmd_archive(&wd(), &args, &listing(&["abc123_immutable.md"], &[], &[])));
    assert_eq!(ms[0].0.rsplit('/').next(), ms[0].1.rsplit('/').next());
}

// ── init ──────────────────────────────────────────────────────────────────

#[test]
fn init_creates_subdirs() {
    assert_eq!(directory_report("/t/all", false), "  created /t/all");
    assert_eq!(directory_report("/t/archived", true), "  exists  /t/archived");
}

#[test]
fn init_errors_if_already_initialised() {
    let e = cmd_init("/t/.tickets.toml", true, false).unwrap_err();
    assert_eq!(e, InitError::AlreadyInitialised);
    assert!(e.message().contains("already initialised"));
}

#[test]
fn init_force_with_no_existing_config_behaves_like_plain_init() {
    let line = cmd_init("/t/.tickets.toml", false, true).unwrap();
    assert!(line.contains("created"));
    assert!(!line.contains("rewrote"));
    assert_eq!(cmd_init("/t/.tickets.toml", true, true).unwrap(), "  rewrote /t/.tickets.toml");
}

// ── edit ──────────────────────────────────────────────────────────────────

fn sample() -> Ticket {
    let at = Timestamp::new(1_700_000_000, 0);
    Ticket {
        front_matter: FrontMatter {
            id: TicketId::from("abc123".to_string()),
            title: "Some ticket".parse::<Title>().unwrap(),
            ticket_type: TicketType::Task,
            status: TicketStatus::Draft,
            tags: vec!["keep".parse::<Tag>().unwrap()],
            parent: None,
            blocked_by: vec![],
            created_at: at,
            updated_at: at,
        },
        body: "old body".to_string(),
    }
}

fn edit_args() -> EditArgs {
    EditArgs {
        id: TicketId::from("abc123".to_string()),
        title: None,
        ticket_type: None,
        status: None,
        tag: vec![],
        parent: None,
        clear_parent: false,
        blocked_by: vec![],
        clear_blocked_by: false,
        body: None,
    }
}

#[test]
fn edit_updates_status() {
    let mut t = sample();
    let later = Timestamp::new(1_700_000_100, 0);
    let renamed = apply_edits(&mut t, EditArgs { status: Some(TicketStatus::InProgress), ..edit_args() }, later, String::new());
    assert!(!renamed);
    assert_eq!(t.front_matter.status, TicketStatus::InProgress);
    assert_eq!(t.front_matter.updated_at, later);
    assert_eq!(t.front_matter.created_at, Timestamp::new(1_700_000_000, 0));
    assert_eq!(t.front_matter.tags, vec!["keep".parse::<Tag>().unwrap()]);
    assert_eq!(t.body, "old body");
}

#[test]
fn edit_updates_title() {
    let mut t = sample();
    let title = "New title".parse::<Title>().unwrap();
    let changed = apply_edits(&mut t, EditArgs { title: Some(title), ..edit_args() }, Timestamp::new(1, 0), String::new());
    assert!(changed);
    assert_eq!(t.front_matter.title.as_str(), "New title");
    assert_eq!(edit_message(&t), "tickets: edit abc123 \"New title\"");
    assert_eq!(
        renamed_path("/t/all", "/t/all/abc123_some-ticket.md", &t.front_matter.id, &t.front_matter.title),
        Some("/t/all/abc123_new-title.md".to_string())
    );
    assert_eq!(
        renamed_path("/t/all", "/t/all/abc123_new-title.md", &t.front_matter.id, &t.front_matter.title),
        None
    );
}

#[test]
fn edit_sets_and_clears_parent() {
    let mut t = sample();
    let p = TicketId::from("p4r3nt".to_string());
    apply_edits(&mut t, EditArgs { parent: Some(p.clone()), ..edit_args() }, Timestamp::new(1, 0), String::new());
    assert_eq!(t.front_matter.parent, Some(p.clone()));
    apply_edits(&mut t, EditArgs { parent: Some(p), clear_parent: true, ..edit_args() }, Timestamp::new(2, 0), String::new());
    assert_eq!(t.front_matter.parent, None);
}

#[test]
fn edit_nonexistent_ticket_fails() {
    let names = vec!["abc123_some-ticket.md".to_string()];
    assert_eq!(plain_tickets::archive::find_by_prefix(&names, "zzzzzz_"), None);
}

#[test]
fn edit_body_from_stdin_and_blockers() {
    let mut t = sample();
    let args = EditArgs {
        body: Some("-".to_string()),
        blocked_by: ids(&["b1b1b1"]),
        tag: vec!["x".parse::<Tag>().unwrap()],
        ..edit_args()
    };
    apply_edits(&mut t, args, Timestamp::new(3, 0), "from stdin".to_string());
    assert_eq!(t.body, "from stdin");
    assert_eq!(t.front_matter.blocked_by, ids(&["b1b1b1"]));
    assert_eq!(t.front_matter.tags, vec!["x".parse::<Tag>().unwrap()]);
    apply_edits(&mut t, EditArgs { clear_blocked_by: true, blocked_by: ids(&["c1c1c1"]), ..edit_args() }, Timestamp::new(4, 0), String::new());
    assert!(t.front_matter.blocked_by.is_empty());
}

// ── new ───────────────────────────────────────────────────────────────────

fn new_args(title: &str) -> NewArgs {
    NewArgs {
        title: title.parse().unwrap(),
        ticket_type: None,
        tag: vec![],
        parent: None,
        blocked_by: vec![],
        status: None,
        body: None,
    }
}

#[test]
fn new_creates_ticket_file() {
    let id = TicketId::from("k3x9qa".to_string());
    let n = new_ticket(id, Timestamp::new(1_700_000_000, 0), &Config::default(), new_args("Fix login bug"), String::new());
    assert_eq!(n.file_name, "k3x9qa_fix-login-bug.md");
    assert_eq!(n.report, "k3x9qa k3x9qa_fix-login-bug.md");
    assert_eq!(n.commit_message, "tickets: new k3x9qa \"Fix login bug\"");
    assert_eq!(n.ticket.front_matter.ticket_type, TicketType::Task);
    assert_eq!(n.ticket.front_matter.status, TicketStatus::Draft);
    assert_eq!(n.ticket.body, "");
}

#[test]
fn new_with_type_tags_status() {
    let args = NewArgs {
        ticket_type: Some(TicketType::Epic),
        status: Some(TicketStatus::Todo),
        tag: vec!["auth".parse().unwrap(), "backend".parse().unwrap()],
        ..new_args("Auth epic")
    };
    let n = new_ticket(TicketId::from("e1e1e1".to_string()), Timestamp::new(5, 0), &Config::default(), args, String::new());
    assert_eq!(n.ticket.front_matter.ticket_type, TicketType::Epic);
    assert_eq!(n.ticket.front_matter.status, TicketStatus::Todo);
    assert_eq!(n.ticket.front_matter.tags.len(), 2);
    assert_eq!(n.ticket.front_matter.created_at, Timestamp::new(5, 0));
}

#[test]
fn new_without_init_fails() {
    assert!(WorkingDir::new("/t".to_string(), false, false).is_err());
}

#[test]
fn new_ticket_id_is_six_id_chars() {
    for _ in 0..20 {
        let id = new_ticket_id();
        let s = id.as_str();
        assert_eq!(s.chars().count(), 6);
        assert!(s.chars().all(|c| c.is_ascii_digit() || c.is_ascii_lowercase()), "{s}");
    }
}

// ── validation ────────────────────────────────────────────────────────────

#[test]
fn new_empty_title_fails() {
    assert!("".parse::<Title>().is_err());
}

#[test]
fn new_title_with_invalid_chars_fails() {
    assert!("foo!".parse::<Title>().is_err());
}

#[test]
fn new_title_over_120_chars_fails() {
    assert!("a".repeat(121).parse::<Title>().is_err());
}

#[test]
fn new_tag_with_space_fails() {
    assert!("foo bar".parse::<Tag>().is_err());
}

#[test]
fn new_tag_with_special_chars_fails() {
    assert!("foo!".parse::<Tag>().is_err());
}

#[test]
fn new_invalid_type_fails() {
    assert_eq!(TicketType::from_label("banana"), None);
}

#[test]
fn new_invalid_status_fails() {
    assert_eq!(TicketStatus::from_label("open"), None);
}

#[test]
fn git_found_at_or_above_the_directory() {
    assert!(!git_detect(&vec![]));
    assert!(!git_detect(&vec![false, false, false]));
    assert!(git_detect(&vec![false, true, false]));
    assert!(git_detect(&vec![true]));
}

#[test]
fn edit_with_the_same_title_reports_no_change() {
    let mut t = sample();
    let same = t.front_matter.title.clone();
    let changed = apply_edits(&mut t, EditArgs { title: Some(same), ..edit_args() }, Timestamp::new(1, 0), String::new());
    assert!(!changed);
}
