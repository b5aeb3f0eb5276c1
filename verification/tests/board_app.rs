use plain_tickets::board::{clipboard_flash, update, App, Cmd, Message, Screen};
use plain_tickets::domain::{
    FrontMatter, Ticket, TicketId, TicketStatus, TicketType, Timestamp, Title,
};

/// Fixed, obviously-fictional timestamp for test fixtures (2000-01-01).
fn fixed_timestamp() -> Timestamp {
    Timestamp::new(946_684_800, 0)
}

fn make_ticket(id: &str, title: &str, status: TicketStatus) -> Ticket {
    let now = fixed_timestamp();
    Ticket {
        front_matter: FrontMatter {
            id: TicketId::from(id.to_string()),
            title: title.parse::<Title>().unwrap(),
            ticket_type: TicketType::Task,
            status,
            tags: vec![],
            parent: None,
            blocked_by: vec![],
            created_at: now,
            updated_at: now,
        },
        body: String::new(),
    }
}

fn default_columns() -> Vec<TicketStatus> {
    vec![
        TicketStatus::Todo,
        TicketStatus::InProgress,
        TicketStatus::Done,
    ]
}

// ── col_indices / grouping ─────────────────────────────────────────────

#[test]
fn tickets_grouped_into_correct_columns() {
    let tickets = vec![
        make_ticket("a", "Fix bug", TicketStatus::Todo),
        make_ticket("b", "Add feature", TicketStatus::InProgress),
        make_ticket("c", "Old task", TicketStatus::Done),
    ];
    let app = App::new(tickets, default_columns());
    assert_eq!(app.col_indices(0).len(), 1);
    assert_eq!(app.col_indices(1).len(), 1);
    assert_eq!(app.col_indices(2).len(), 1);
}

#[test]
fn tickets_not_in_any_column_are_excluded() {
    let tickets = vec![
        make_ticket("a", "Draft ticket", TicketStatus::Draft),
        make_ticket("b", "Todo ticket", TicketStatus::Todo),
    ];
    let app = App::new(tickets, default_columns());
    assert_eq!(app.col_indices(0).len(), 1); // only todo
    assert_eq!(app.col_indices(1).len(), 0);
    assert_eq!(app.col_indices(2).len(), 0);
}

#[test]
fn multiple_tickets_in_same_column() {
    let tickets = vec![
        make_ticket("a", "Task one", TicketStatus::Todo),
        make_ticket("b", "Task two", TicketStatus::Todo),
        make_ticket("c", "Task three", TicketStatus::Done),
    ];
    let app = App::new(tickets, default_columns());
    assert_eq!(app.col_indices(0).len(), 2);
    assert_eq!(app.col_indices(2).len(), 1);
}

// ── focused_ticket ─────────────────────────────────────────────────────

#[test]
fn focused_ticket_returns_first_ticket_in_first_column() {
    let tickets = vec![
        make_ticket("a", "First", TicketStatus::Todo),
        make_ticket("b", "Second", TicketStatus::Done),
    ];
    let app = App::new(tickets, default_columns());
    let focused = app.focused_ticket().unwrap();
    assert_eq!(focused.front_matter.id.to_string(), "a");
}

#[test]
fn focused_ticket_returns_none_when_column_is_empty() {
    let tickets = vec![make_ticket("a", "Done task", TicketStatus::Done)];
    let app = App::new(tickets, default_columns());
    // col 0 = "todo" is empty
    assert!(app.focused_ticket().is_none());
}

// ── navigation via update ──────────────────────────────────────────────

#[test]
fn update_move_right_advances_column() {
    let tickets = vec![
        make_ticket("a", "Todo task", TicketStatus::Todo),
        make_ticket("b", "Done task", TicketStatus::Done),
    ];
    let mut app = App::new(tickets, default_columns());
    let cmd = update(&mut app, Message::MoveRight);
    assert_eq!(cmd, Cmd::Nothing);
    assert_eq!(app.col, 1);
}

#[test]
fn update_move_right_no_op_at_last_column() {
    let mut app = App::new(vec![], default_columns());
    app.col = 2;
    update(&mut app, Message::MoveRight);
    assert_eq!(app.col, 2);
}

#[test]
fn update_move_left_no_op_at_first_column() {
    let mut app = App::new(vec![], default_columns());
    update(&mut app, Message::MoveLeft);
    assert_eq!(app.col, 0);
}

#[test]
fn update_move_down_advances_row() {
    let tickets = vec![
        make_ticket("a", "First", TicketStatus::Todo),
        make_ticket("b", "Second", TicketStatus::Todo),
    ];
    let mut app = App::new(tickets, default_columns());
    update(&mut app, Message::MoveDown);
    assert_eq!(app.row, 1);
}

#[test]
fn update_move_down_no_op_at_last_row() {
    let tickets = vec![make_ticket("a", "Only", TicketStatus::Todo)];
    let mut app = App::new(tickets, default_columns());
    update(&mut app, Message::MoveDown);
    assert_eq!(app.row, 0);
}

#[test]
fn update_move_right_clamps_row_in_new_column() {
    let tickets = vec![
        make_ticket("a", "First", TicketStatus::Todo),
        make_ticket("b", "Second", TicketStatus::Todo),
        make_ticket("c", "Only", TicketStatus::InProgress),
    ];
    let mut app = App::new(tickets, default_columns());
    app.row = 1;
    update(&mut app, Message::MoveRight);
    assert_eq!(app.col, 1);
    assert_eq!(app.row, 0);
}

// ── move ticket ────────────────────────────────────────────────────────

#[test]
fn update_move_ticket_right_changes_status_and_returns_save() {
    let tickets = vec![make_ticket("a", "Fix bug", TicketStatus::Todo)];
    let mut app = App::new(tickets, default_columns());
    let cmd = update(&mut app, Message::MoveTicketRight);
    assert_eq!(cmd, Cmd::SaveFocused);
    assert_eq!(app.tickets[0].front_matter.status, TicketStatus::InProgress);
}

#[test]
fn update_move_ticket_right_keeps_focus_on_moved_ticket() {
    let tickets = vec![make_ticket("a", "Fix bug", TicketStatus::Todo)];
    let mut app = App::new(tickets, default_columns());
    update(&mut app, Message::MoveTicketRight);
    assert_eq!(app.col, 1);
    assert_eq!(
        app.focused_ticket().unwrap().front_matter.id.to_string(),
        "a"
    );
}

#[test]
fn update_move_ticket_right_at_last_col_returns_none() {
    let tickets = vec![make_ticket("a", "Done", TicketStatus::Done)];
    let mut app = App::new(tickets, default_columns());
    app.col = 2;
    let cmd = update(&mut app, Message::MoveTicketRight);
    assert_eq!(cmd, Cmd::Nothing);
    assert_eq!(app.tickets[0].front_matter.status, TicketStatus::Done);
}

#[test]
fn update_move_ticket_left_changes_status_and_returns_save() {
    let tickets = vec![make_ticket("a", "In flight", TicketStatus::InProgress)];
    let mut app = App::new(tickets, default_columns());
    app.col = 1;
    let cmd = update(&mut app, Message::MoveTicketLeft);
    assert_eq!(cmd, Cmd::SaveFocused);
    assert_eq!(app.tickets[0].front_matter.status, TicketStatus::Todo);
}

#[test]
fn update_move_ticket_left_at_leftmost_col_returns_none() {
    let tickets = vec![make_ticket("a", "Fix bug", TicketStatus::Todo)];
    let mut app = App::new(tickets, default_columns());
    let cmd = update(&mut app, Message::MoveTicketLeft);
    assert_eq!(cmd, Cmd::Nothing);
}

#[test]
fn update_move_ticket_right_no_focused_ticket_returns_none() {
    // col 0 = todo is empty
    let tickets = vec![make_ticket("a", "Done task", TicketStatus::Done)];
    let mut app = App::new(tickets, default_columns());
    let cmd = update(&mut app, Message::MoveTicketRight);
    assert_eq!(cmd, Cmd::Nothing);
}

// ── screen transitions ─────────────────────────────────────────────────

#[test]
fn update_quit_returns_quit() {
    let mut app = App::new(vec![], default_columns());
    assert_eq!(update(&mut app, Message::Quit), Cmd::Quit);
}

#[test]
fn update_open_detail_transitions_to_detail_screen() {
    let tickets = vec![make_ticket("a", "Fix bug", TicketStatus::Todo)];
    let mut app = App::new(tickets, default_columns());
    update(&mut app, Message::OpenDetail);
    assert_eq!(app.screen, Screen::Detail);
}

#[test]
fn update_open_detail_no_op_when_column_empty() {
    let mut app = App::new(vec![], default_columns());
    update(&mut app, Message::OpenDetail);
    assert_eq!(app.screen, Screen::Board);
}

#[test]
fn update_close_overlay_from_detail_returns_to_board() {
    let tickets = vec![make_ticket("a", "Fix bug", TicketStatus::Todo)];
    let mut app = App::new(tickets, default_columns());
    app.screen = Screen::Detail;
    update(&mut app, Message::CloseOverlay);
    assert_eq!(app.screen, Screen::Board);
}

#[test]
fn update_toggle_help_shows_help_screen() {
    let mut app = App::new(vec![], default_columns());
    update(&mut app, Message::ToggleHelp);
    assert_eq!(app.screen, Screen::Help);
}

#[test]
fn update_any_message_from_help_returns_to_board() {
    let mut app = App::new(vec![], default_columns());
    app.screen = Screen::Help;
    update(&mut app, Message::MoveLeft);
    assert_eq!(app.screen, Screen::Board);
}

#[test]
fn update_open_editor_from_board_returns_open_editor_cmd() {
    let mut app = App::new(vec![], default_columns());
    assert_eq!(update(&mut app, Message::OpenEditor), Cmd::OpenEditor);
}

#[test]
fn update_new_ticket_returns_create_and_edit_cmd() {
    let mut app = App::new(vec![], default_columns());
    assert_eq!(update(&mut app, Message::NewTicket), Cmd::CreateAndEdit);
}

#[test]
fn update_copy_id_returns_cmd_with_focused_id() {
    let tickets = vec![make_ticket("abc123", "Fix bug", TicketStatus::Todo)];
    let mut app = App::new(tickets, default_columns());
    let cmd = update(&mut app, Message::CopyId);
    assert_eq!(cmd, Cmd::CopyId("abc123".to_string()));
}

#[test]
fn update_copy_id_no_op_when_no_focused_ticket() {
    let mut app = App::new(vec![], default_columns());
    let cmd = update(&mut app, Message::CopyId);
    assert_eq!(cmd, Cmd::Nothing);
}

// ── set_tickets ───────────────────────────────────────────────────────

#[test]
fn set_tickets_clamps_row_when_column_shrinks() {
    let tickets = vec![
        make_ticket("a", "First", TicketStatus::Todo),
        make_ticket("b", "Second", TicketStatus::Todo),
    ];
    let mut app = App::new(tickets, default_columns());
    app.row = 1;
    app.set_tickets(vec![make_ticket("a", "First", TicketStatus::Todo)]);
    assert_eq!(app.row, 0);
}

// ── filter ────────────────────────────────────────────────────────────

#[test]
fn col_indices_returns_only_tickets_matching_the_query() {
    let tickets = vec![
        make_ticket("a", "Fix login bug", TicketStatus::Todo),
        make_ticket("b", "Add search", TicketStatus::Todo),
        make_ticket("c", "Fix payments", TicketStatus::Todo),
    ];
    let mut app = App::new(tickets, default_columns());
    app.filter = "fix".to_string();
    let indices = app.col_indices(0);
    assert_eq!(indices.len(), 2);
    for i in indices {
        assert!(
            app.tickets[i]
                .front_matter
                .title
                .to_string()
                .contains("Fix")
        );
    }
}

#[test]
fn col_indices_matches_id_or_title_independently() {
    let tickets = vec![
        make_ticket("abc999", "Nothing special", TicketStatus::Todo),
        make_ticket("xyz111", "abc widget", TicketStatus::Todo),
        make_ticket("qqq222", "Unrelated", TicketStatus::Todo),
    ];
    let mut app = App::new(tickets, default_columns());
    app.filter = "abc".to_string();
    let indices = app.col_indices(0);
    let matched_ids: Vec<String> = indices
        .iter()
        .map(|&i| app.tickets[i].front_matter.id.to_string())
        .collect();
    // Matches via id (abc999) and via title (xyz111 has "abc widget"),
    // but not the unrelated third ticket.
    assert!(matched_ids.contains(&"abc999".to_string()));
    assert!(matched_ids.contains(&"xyz111".to_string()));
    assert_eq!(matched_ids.len(), 2);
}

#[test]
fn col_indices_query_is_case_insensitive() {
    let tickets = vec![
        make_ticket("ABC123", "Fix Login Bug", TicketStatus::Todo),
        make_ticket("def456", "Unrelated", TicketStatus::Todo),
    ];
    let mut app = App::new(tickets, default_columns());

    // Lowercase query matches mixed-case title.
    app.filter = "login".to_string();
    assert_eq!(app.col_indices(0).len(), 1);

    // Uppercase query matches lowercase id.
    app.filter = "ABC123".to_string();
    assert_eq!(app.col_indices(0).len(), 1);
}

#[test]
fn row_is_clamped_when_the_filter_shrinks_the_focused_column() {
    let tickets = vec![
        make_ticket("a", "Fix login", TicketStatus::Todo),
        make_ticket("b", "Fix search", TicketStatus::Todo),
        make_ticket("c", "Unrelated", TicketStatus::Todo),
    ];
    let mut app = App::new(tickets, default_columns());
    app.row = 2; // focused on "Unrelated"
    app.push_filter_char('f');
    app.push_filter_char('i');
    app.push_filter_char('x');
    // Only 2 tickets match "fix" now; row must be clamped into range.
    assert_eq!(app.col_indices(app.col).len(), 2);
    assert_eq!(app.row, 1);
}

#[test]
fn focused_ticket_none_and_no_key_panics_when_nothing_matches() {
    let tickets = vec![
        make_ticket("a", "Fix login", TicketStatus::Todo),
        make_ticket("b", "Fix search", TicketStatus::InProgress),
    ];
    let mut app = App::new(tickets, default_columns());
    app.row = 1;
    app.filter = "nonexistent-query".to_string();
    app.clamp_row();

    assert!(app.focused_ticket().is_none());
    assert_eq!(app.col_indices(0).len(), 0);

    // Enter/y/e all route through focused_ticket() / focused_ticket_index()
    // and must be safe no-ops; H/L move must also be safe no-ops.
    assert_eq!(update(&mut app, Message::OpenDetail), Cmd::Nothing);
    assert_eq!(app.screen, Screen::Board);
    assert_eq!(update(&mut app, Message::CopyId), Cmd::Nothing);
    assert_eq!(update(&mut app, Message::OpenEditor), Cmd::OpenEditor);
    assert_eq!(update(&mut app, Message::MoveTicketLeft), Cmd::Nothing);
    assert_eq!(update(&mut app, Message::MoveTicketRight), Cmd::Nothing);
}

// ── filter mode transitions via update ──────────────────────────────

#[test]
fn update_open_filter_switches_to_filter_screen() {
    let mut app = App::new(vec![], default_columns());
    update(&mut app, Message::OpenFilter);
    assert_eq!(app.screen, Screen::Filter);
}

#[test]
fn update_filter_input_appends_live_and_narrows_board() {
    let tickets = vec![
        make_ticket("a", "Fix login", TicketStatus::Todo),
        make_ticket("b", "Unrelated", TicketStatus::Todo),
    ];
    let mut app = App::new(tickets, default_columns());
    app.screen = Screen::Filter;
    update(&mut app, Message::FilterInput('f'));
    update(&mut app, Message::FilterInput('i'));
    update(&mut app, Message::FilterInput('x'));
    assert_eq!(app.filter, "fix");
    assert_eq!(app.col_indices(0).len(), 1);
}

#[test]
fn update_filter_backspace_removes_last_character() {
    let mut app = App::new(vec![], default_columns());
    app.screen = Screen::Filter;
    app.filter = "fix".to_string();
    update(&mut app, Message::FilterBackspace);
    assert_eq!(app.filter, "fi");
}

#[test]
fn update_filter_commit_keeps_query_and_returns_to_board() {
    let mut app = App::new(vec![], default_columns());
    app.screen = Screen::Filter;
    app.filter = "fix".to_string();
    update(&mut app, Message::FilterCommit);
    assert_eq!(app.screen, Screen::Board);
    assert_eq!(app.filter, "fix");
}

#[test]
fn update_filter_cancel_clears_query_even_if_active_before_prompt_opened() {
    let mut app = App::new(vec![], default_columns());
    app.filter = "already active".to_string();
    app.screen = Screen::Filter;
    update(&mut app, Message::FilterCancel);
    assert_eq!(app.screen, Screen::Board);
    assert_eq!(app.filter, "");
}

#[test]
fn update_clear_filter_from_board_clears_active_filter() {
    let mut app = App::new(vec![], default_columns());
    app.filter = "fix".to_string();
    update(&mut app, Message::ClearFilter);
    assert_eq!(app.filter, "");
}

#[test]
fn update_clear_filter_from_board_is_no_op_when_no_filter_active() {
    let mut app = App::new(vec![], default_columns());
    let cmd = update(&mut app, Message::ClearFilter);
    assert_eq!(cmd, Cmd::Nothing);
    assert_eq!(app.filter, "");
}

// ── laws on concrete boards ─────────────────────────────────────────────

#[test]
fn move_ticket_right_then_left_restores_status_and_focus() {
    let tickets = vec![
        make_ticket("a", "First", TicketStatus::Todo),
        make_ticket("b", "Second", TicketStatus::Todo),
        make_ticket("c", "Other", TicketStatus::InProgress),
    ];
    let mut app = App::new(tickets, default_columns());
    app.row = 1;
    assert_eq!(update(&mut app, Message::MoveTicketRight), Cmd::SaveFocused);
    assert_eq!(app.col, 1);
    assert_eq!(app.tickets[1].front_matter.status, TicketStatus::InProgress);
    assert_eq!(update(&mut app, Message::MoveTicketLeft), Cmd::SaveFocused);
    assert_eq!(app.col, 0);
    assert_eq!(app.row, 1);
    assert_eq!(app.tickets[1].front_matter.status, TicketStatus::Todo);
    assert_eq!(app.focused_ticket().unwrap().front_matter.id.as_str(), "b");
}

#[test]
fn cursor_stays_on_a_card_through_any_messages() {
    let tickets = vec![
        make_ticket("a", "First", TicketStatus::Todo),
        make_ticket("b", "Second", TicketStatus::Todo),
        make_ticket("c", "Third", TicketStatus::Done),
    ];
    let mut app = App::new(tickets, default_columns());
    let msgs = [
        Message::MoveDown,
        Message::MoveDown,
        Message::MoveRight,
        Message::MoveRight,
        Message::MoveUp,
        Message::MoveTicketLeft,
        Message::MoveLeft,
        Message::OpenFilter,
        Message::FilterInput('z'),
        Message::FilterCommit,
        Message::ClearFilter,
        Message::MoveDown,
    ];
    for m in msgs {
        update(&mut app, m);
        let len = app.col_indices(app.col).len();
        assert!(app.col < app.columns.len());
        assert!(app.row < len || (len == 0 && app.row == 0), "row {} of {len}", app.row);
    }
}

#[test]
fn typing_then_backspace_restores_the_query() {
    let mut app = App::new(vec![make_ticket("a", "First", TicketStatus::Todo)], default_columns());
    update(&mut app, Message::OpenFilter);
    update(&mut app, Message::FilterInput('f'));
    update(&mut app, Message::FilterInput('i'));
    update(&mut app, Message::FilterBackspace);
    assert_eq!(app.filter, "f");
    assert_eq!(app.screen, Screen::Filter);
}

#[test]
fn clipboard_outcome_sets_flash_only() {
    let columns = vec![TicketStatus::Todo];
    let mut app = App::new(vec![make_ticket("abc123", "Copy me", TicketStatus::Todo)], columns);
    clipboard_flash(&mut app, "abc123", true);
    assert_eq!(app.flash.as_deref(), Some("Copied abc123"));
    assert_eq!(app.screen, Screen::Board);
    clipboard_flash(&mut app, "abc123", false);
    assert_eq!(app.flash.as_deref(), Some("Clipboard unavailable"));
    assert_eq!(app.tickets.len(), 1);
}

#[test]
fn typing_into_the_filter_only_narrows_the_column() {
    let columns = vec![TicketStatus::Todo];
    let tickets = vec![
        make_ticket("aaa111", "Fix login", TicketStatus::Todo),
        make_ticket("bbb222", "Find search", TicketStatus::Todo),
        make_ticket("ccc333", "Other", TicketStatus::Todo),
    ];
    let mut app = App::new(tickets, columns);
    let all = app.col_indices(0);
    app.filter = "f".to_string();
    let f = app.col_indices(0);
    app.filter = "fi".to_string();
    let fi = app.col_indices(0);
    app.filter = "fix".to_string();
    let fix = app.col_indices(0);
    assert_eq!(all, vec![0, 1, 2]);
    assert_eq!(f, vec![0, 1]);
    assert_eq!(fi, vec![0, 1]);
    assert_eq!(fix, vec![0]);
    assert!(fix.iter().all(|k| fi.contains(k)) && fi.iter().all(|k| f.contains(k)));
}
