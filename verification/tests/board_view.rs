use plain_tickets::board::{App, Screen};
use plain_tickets::domain::{
    FrontMatter, Tag, Ticket, TicketId, TicketStatus, TicketType, Timestamp, Title,
};
use plain_tickets::view::{
    board_plan, card_emoji, centered_rect_fixed, detail_plan, footer_text, help_lines_compact,
    help_lines_single, help_plan, split_lines, tag_color, wrap_text, BoardPlan, Rect, TagColor,
};

/// 2000-01-01.
fn fixed_timestamp() -> Timestamp {
    Timestamp::new(946_684_800, 0)
}

fn make_ticket_full(id: &str, title: &str, status: TicketStatus, tags: &[&str], body: &str) -> Ticket {
    let now = fixed_timestamp();
    Ticket {
        front_matter: FrontMatter {
            id: TicketId::from(id.to_string()),
            title: title.parse::<Title>().unwrap(),
            ticket_type: TicketType::Task,
            status,
            tags: tags.iter().map(|t| t.parse::<Tag>().unwrap()).collect(),
            parent: None,
            blocked_by: vec![],
            created_at: now,
            updated_at: now,
        },
        body: body.to_string(),
    }
}

fn make_ticket(id: &str, title: &str, status: TicketStatus) -> Ticket {
    make_ticket_full(id, title, status, &[], "")
}

fn frame(width: u16, height: u16) -> Rect {
    Rect { x: 0, y: 0, width, height }
}

fn plan(app: &App, w: u16, h: u16) -> BoardPlan {
    board_plan(app, frame(w, h), false).unwrap()
}

/// The ids of the cards drawn in column `c`.
fn shown_ids(p: &BoardPlan, c: usize) -> Vec<String> {
    p.columns[c].cards.iter().map(|k| k.id.clone()).collect()
}

fn three() -> Vec<Ticket> {
    vec![
        make_ticket("aaa111", "First ticket", TicketStatus::Todo),
        make_ticket("bbb222", "Second ticket", TicketStatus::Todo),
        make_ticket("ccc333", "Third ticket", TicketStatus::Todo),
    ]
}

// ── scroll ─────────────────────────────────────────────────────────────

#[test]
fn board_focused_card_visible_when_column_overflows() {
    let mut app = App::new(three(), vec![TicketStatus::Todo]);
    app.row = 2;
    let ids = shown_ids(&plan(&app, 30, 10), 0);
    assert!(ids.contains(&"ccc333".to_string()), "focused card not visible: {ids:?}");
    assert!(!ids.contains(&"aaa111".to_string()), "first card should be scrolled off: {ids:?}");
}

#[test]
fn board_shows_down_indicator_when_cards_clipped_below() {
    let app = App::new(three(), vec![TicketStatus::Todo]);
    let p = plan(&app, 30, 10);
    assert_eq!(p.columns[0].label, "todo ↓");
}

#[test]
fn board_shows_up_indicator_when_scrolled() {
    let mut app = App::new(three(), vec![TicketStatus::Todo]);
    app.row = 2;
    let p = plan(&app, 30, 10);
    assert_eq!(p.columns[0].label, "todo ↑");
}

#[test]
fn focused_card_always_visible_while_navigating_down() {
    let ids = ["aa1111", "bb2222", "cc3333", "dd4444", "ee5555"];
    let long_title = "A title that wraps to a second line here";
    let tickets = ids.iter().map(|id| make_ticket(id, long_title, TicketStatus::Todo)).collect();
    let mut app = App::new(tickets, vec![TicketStatus::Todo]);
    for (row, id) in ids.iter().enumerate() {
        app.row = row;
        let shown = shown_ids(&plan(&app, 30, 13), 0);
        assert!(shown.contains(&id.to_string()), "row={row}: focused card '{id}' not visible: {shown:?}");
    }
}

#[test]
fn board_card_renders_as_bordered_box_with_id_in_title() {
    let app = App::new(vec![make_ticket("abc123", "Fix login bug", TicketStatus::Todo)], vec![TicketStatus::Todo]);
    let p = plan(&app, 30, 10);
    let card = &p.columns[0].cards[0];
    assert_eq!(card.id, "abc123");
    assert_eq!(card.emoji, card_emoji(TicketType::Task));
    assert_eq!(card.lines, vec!["Fix login bug"]);
    assert!(card.focused);
    assert_eq!(card.area, Rect { x: 0, y: 1, width: 30, height: 3 });
}

#[test]
fn board_card_footer_shows_tags() {
    let t = make_ticket_full("abc123", "Fix login bug", TicketStatus::Todo, &["tui", "config"], "");
    let app = App::new(vec![t], vec![TicketStatus::Todo]);
    let p = plan(&app, 30, 10);
    let tags: Vec<String> = p.columns[0].cards[0].tags.iter().map(|l| l.text.clone()).collect();
    assert_eq!(tags, vec!["#tui", "#config"]);
    assert_eq!(p.columns[0].cards[0].tags[0].color, tag_color("tui"));
}

#[test]
fn board_card_wraps_long_title() {
    let app = App::new(
        vec![make_ticket("abc123", "Fix the login bug on the home page", TicketStatus::Todo)],
        vec![TicketStatus::Todo],
    );
    let p = plan(&app, 30, 12);
    let card = &p.columns[0].cards[0];
    assert_eq!(card.lines, vec!["Fix the login bug on the", "home page"]);
    assert_eq!(card.area.height, 4);
}

#[test]
fn board_cards_clip_when_column_overflows() {
    let mut ts = three();
    ts[2] = make_ticket("ccc333", "Third ticket should not appear", TicketStatus::Todo);
    let app = App::new(ts, vec![TicketStatus::Todo]);
    let ids = shown_ids(&plan(&app, 30, 10), 0);
    assert_eq!(ids, vec!["aaa111", "bbb222"]);
}

#[test]
fn board_renders_three_columns() {
    let app = App::new(
        vec![
            make_ticket("aaa111", "Fix login bug", TicketStatus::Todo),
            make_ticket("bbb222", "Add search", TicketStatus::InProgress),
        ],
        vec![TicketStatus::Todo, TicketStatus::InProgress, TicketStatus::Done],
    );
    let p = plan(&app, 80, 20);
    let labels: Vec<&str> = p.columns.iter().map(|c| c.label.as_str()).collect();
    assert_eq!(labels, vec!["todo", "in-progress", "done"]);
    assert_eq!(shown_ids(&p, 0), vec!["aaa111"]);
    assert_eq!(shown_ids(&p, 1), vec!["bbb222"]);
    assert!(shown_ids(&p, 2).is_empty());
    assert!(p.columns[0].focused && !p.columns[1].focused);
    let widths: u16 = p.columns.iter().map(|c| c.label_area.width).sum();
    assert_eq!(widths, 80);
    assert_eq!(p.footer_area, Rect { x: 0, y: 19, width: 80, height: 1 });
    assert_eq!(
        p.footer,
        "h/l col j/k row H/L mv y copy Enter view e edit n new / filter ? help q quit"
    );
}

#[test]
fn board_without_columns_draws_nothing() {
    let app = App::new(vec![], vec![]);
    assert!(board_plan(&app, frame(80, 20), false).is_none());
}

// ── detail ─────────────────────────────────────────────────────────────

fn detail_app(body: &str) -> App {
    let mut app = App::new(
        vec![make_ticket_full("abc123", "Fix login bug", TicketStatus::Todo, &[], body)],
        vec![TicketStatus::Todo],
    );
    app.screen = Screen::Detail;
    app
}

fn numbered(n: usize) -> String {
    (1..=n).map(|k| format!("line {k}")).collect::<Vec<_>>().join("\n")
}

#[test]
fn detail_view_renders_ticket_fields() {
    let p = detail_plan(&detail_app(""), frame(80, 24)).unwrap();
    assert_eq!(
        p.lines,
        vec![
            "ID:      abc123",
            "Title:   Fix login bug",
            "Status:  todo",
            "Type:    task",
            "Created: 2000-01-01",
            "Updated: 2000-01-01",
        ]
    );
    assert_eq!(p.marker, None);
    assert_eq!(p.area.height, 20);
}

#[test]
fn detail_view_long_body_is_not_silently_truncated() {
    let p = detail_plan(&detail_app(&numbered(40)), frame(80, 24)).unwrap();
    assert!(!p.lines.iter().any(|l| l == "line 40"));
    let m = p.marker.unwrap();
    assert!(m.contains("more line") && m.contains("press e to open"), "{m}");
}

#[test]
fn detail_view_truncation_marker_states_accurate_hidden_count() {
    let p = detail_plan(&detail_app(&numbered(40)), frame(80, 24)).unwrap();
    let shown = (1..=40).filter(|n| p.lines.contains(&format!("line {n}"))).count();
    let hidden = 40 - shown;
    assert!(hidden > 0);
    assert_eq!(p.marker.unwrap(), format!("… {hidden} more lines — press e to open"));
}

#[test]
fn detail_view_body_exactly_filling_height_shows_no_marker() {
    let p = detail_plan(&detail_app(&numbered(11)), frame(80, 24)).unwrap();
    for n in 1..=11 {
        assert!(p.lines.contains(&format!("line {n}")), "line {n} missing");
    }
    assert_eq!(p.marker, None);
}

#[test]
fn detail_view_body_one_line_over_height_shows_marker() {
    let p = detail_plan(&detail_app(&numbered(12)), frame(80, 24)).unwrap();
    assert_eq!(p.marker.unwrap(), "… 2 more lines — press e to open");
}

#[test]
fn detail_view_without_focused_ticket_draws_nothing() {
    let mut app = App::new(vec![], vec![TicketStatus::Todo]);
    app.screen = Screen::Detail;
    assert!(detail_plan(&app, frame(80, 24)).is_none());
}

// ── footer ─────────────────────────────────────────────────────────────

#[test]
fn board_renders_filter_prompt_while_typing() {
    let mut app = App::new(vec![], vec![TicketStatus::Todo]);
    app.screen = Screen::Filter;
    app.filter = "log".to_string();
    assert_eq!(footer_text(&app, false), "/log");
}

#[test]
fn board_renders_active_filter_indicator_after_enter() {
    let mut app = App::new(vec![], vec![TicketStatus::Todo]);
    app.filter = "log".to_string();
    assert_eq!(footer_text(&app, false), "filter: \"log\"  (Esc clears)");
}

#[test]
fn fresh_flash_wins_over_everything() {
    let mut app = App::new(vec![], vec![TicketStatus::Todo]);
    app.filter = "log".to_string();
    app.flash = Some("copied".to_string());
    assert_eq!(footer_text(&app, true), "copied");
    assert_eq!(footer_text(&app, false), "filter: \"log\"  (Esc clears)");
}

// ── help ───────────────────────────────────────────────────────────────

#[test]
fn help_overlay_renders_keybindings() {
    let lines = help_lines_single();
    assert_eq!(lines.len(), 17);
    assert_eq!(lines[0], "  Keybindings");
    assert_eq!(lines[2], "  h / ←      move focus left");
    assert_eq!(lines[16], "  [any key]  dismiss");
}

#[test]
fn help_overlay_shows_quit_keybinding_at_80x24() {
    let p = help_plan(frame(80, 24));
    assert!(p.lines.iter().any(|l| l.contains("q          quit")));
}

#[test]
fn help_overlay_shows_dismiss_line_at_80x24() {
    let p = help_plan(frame(80, 24));
    assert!(p.lines.iter().any(|l| l.contains("[any key]  dismiss")));
    assert_eq!(p.lines, help_lines_single());
}

#[test]
fn help_overlay_switches_to_compact_layout_on_short_terminal() {
    let p = help_plan(frame(80, 15));
    assert_eq!(p.lines, help_lines_compact());
    let all = p.lines.join("\n");
    for key in ["h / ←", "l / →", "j / ↓", "k / ↑", "H", "L", "Enter/Spc", "e", "n", "y", "/", "? / F1", "q"] {
        assert!(all.contains(key), "keybinding '{key}' missing");
    }
    assert!(all.contains("dismiss"));
    assert!(p.area.height <= 15);
}

#[test]
fn help_overlay_compact_layout_renders_correctly() {
    let lines = help_lines_compact();
    assert_eq!(lines.len(), 11);
    assert_eq!(lines[2], "  h / ←      move focus left     e          open in editor");
    assert_eq!(lines[7], "  L          move ticket right   q          quit");
    assert_eq!(lines[8], "  Enter/Spc  open detail view");
}

// ── helpers ────────────────────────────────────────────────────────────

#[test]
fn wrap_text_packs_words_greedily() {
    assert_eq!(wrap_text("a bb ccc", 4), vec!["a bb", "ccc"]);
    assert_eq!(wrap_text("   ", 10), vec![""]);
    assert_eq!(wrap_text("toolongword x", 3), vec!["toolongword", "x"]);
    assert_eq!(wrap_text("keep  as is", 0), vec!["keep  as is"]);
}

#[test]
fn split_lines_like_str_lines() {
    assert_eq!(split_lines("a\nb\r\nc"), vec!["a", "b", "c"]);
    assert_eq!(split_lines("a\n"), vec!["a"]);
    assert_eq!(split_lines(""), Vec::<String>::new());
    assert_eq!(split_lines("\n\nx"), vec!["", "", "x"]);
}

#[test]
fn tag_color_is_deterministic_fnv1a() {
    assert_eq!(tag_color("tui"), tag_color("tui"));
    // FNV-1a of the empty string is the offset basis, 14695981039346656037 % 8 == 5.
    assert_eq!(tag_color(""), TagColor::LightGreen);
}

#[test]
fn centered_rect_fixed_clamps_and_centres() {
    assert_eq!(centered_rect_fixed(20, 10, frame(80, 24)), Rect { x: 30, y: 7, width: 20, height: 10 });
    assert_eq!(centered_rect_fixed(200, 100, frame(80, 24)), Rect { x: 0, y: 0, width: 80, height: 24 });
}
