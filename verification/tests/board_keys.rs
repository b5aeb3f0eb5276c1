use plain_tickets::board::{Message, Screen};
use plain_tickets::keys::{key_to_message, KeyCode};

#[test]
fn board_y_maps_to_copy_id() {
    assert_eq!(
        key_to_message(KeyCode::Char('y'), &Screen::Board),
        Some(Message::CopyId)
    );
}

#[test]
fn board_q_maps_to_quit() {
    assert_eq!(
        key_to_message(KeyCode::Char('q'), &Screen::Board),
        Some(Message::Quit)
    );
}

#[test]
fn board_hjkl_map_to_navigation() {
    assert_eq!(
        key_to_message(KeyCode::Char('h'), &Screen::Board),
        Some(Message::MoveLeft)
    );
    assert_eq!(
        key_to_message(KeyCode::Char('l'), &Screen::Board),
        Some(Message::MoveRight)
    );
    assert_eq!(
        key_to_message(KeyCode::Char('j'), &Screen::Board),
        Some(Message::MoveDown)
    );
    assert_eq!(
        key_to_message(KeyCode::Char('k'), &Screen::Board),
        Some(Message::MoveUp)
    );
}

#[test]
fn board_arrows_map_to_navigation() {
    assert_eq!(
        key_to_message(KeyCode::Left, &Screen::Board),
        Some(Message::MoveLeft)
    );
    assert_eq!(
        key_to_message(KeyCode::Right, &Screen::Board),
        Some(Message::MoveRight)
    );
    assert_eq!(
        key_to_message(KeyCode::Down, &Screen::Board),
        Some(Message::MoveDown)
    );
    assert_eq!(
        key_to_message(KeyCode::Up, &Screen::Board),
        Some(Message::MoveUp)
    );
}

#[test]
fn board_shift_h_l_map_to_move_ticket() {
    assert_eq!(
        key_to_message(KeyCode::Char('H'), &Screen::Board),
        Some(Message::MoveTicketLeft)
    );
    assert_eq!(
        key_to_message(KeyCode::Char('L'), &Screen::Board),
        Some(Message::MoveTicketRight)
    );
}

#[test]
fn board_enter_and_space_open_detail() {
    assert_eq!(
        key_to_message(KeyCode::Enter, &Screen::Board),
        Some(Message::OpenDetail)
    );
    assert_eq!(
        key_to_message(KeyCode::Char(' '), &Screen::Board),
        Some(Message::OpenDetail)
    );
}

#[test]
fn board_question_mark_and_f1_toggle_help() {
    assert_eq!(
        key_to_message(KeyCode::Char('?'), &Screen::Board),
        Some(Message::ToggleHelp)
    );
    assert_eq!(
        key_to_message(KeyCode::F(1), &Screen::Board),
        Some(Message::ToggleHelp)
    );
}

#[test]
fn detail_q_and_esc_close_overlay() {
    assert_eq!(
        key_to_message(KeyCode::Char('q'), &Screen::Detail),
        Some(Message::CloseOverlay)
    );
    assert_eq!(
        key_to_message(KeyCode::Esc, &Screen::Detail),
        Some(Message::CloseOverlay)
    );
}

#[test]
fn detail_unhandled_key_returns_none() {
    assert_eq!(key_to_message(KeyCode::Char('x'), &Screen::Detail), None);
}

#[test]
fn help_any_key_returns_close_overlay() {
    assert_eq!(
        key_to_message(KeyCode::Char('a'), &Screen::Help),
        Some(Message::CloseOverlay)
    );
    assert_eq!(
        key_to_message(KeyCode::Esc, &Screen::Help),
        Some(Message::CloseOverlay)
    );
}

// ── filter mode ───────────────────────────────────────────────────────

#[test]
fn board_slash_enters_filter_mode() {
    assert_eq!(
        key_to_message(KeyCode::Char('/'), &Screen::Board),
        Some(Message::OpenFilter)
    );
}

#[test]
fn filter_mode_q_is_text_input_not_quit() {
    assert_eq!(
        key_to_message(KeyCode::Char('q'), &Screen::Filter),
        Some(Message::FilterInput('q'))
    );
}

#[test]
fn filter_mode_other_command_keys_are_also_text_input() {
    // j/k/n/e must be literal query text while the prompt is open, not
    // navigation/create/edit commands.
    assert_eq!(
        key_to_message(KeyCode::Char('j'), &Screen::Filter),
        Some(Message::FilterInput('j'))
    );
    assert_eq!(
        key_to_message(KeyCode::Char('k'), &Screen::Filter),
        Some(Message::FilterInput('k'))
    );
    assert_eq!(
        key_to_message(KeyCode::Char('n'), &Screen::Filter),
        Some(Message::FilterInput('n'))
    );
    assert_eq!(
        key_to_message(KeyCode::Char('e'), &Screen::Filter),
        Some(Message::FilterInput('e'))
    );
}

#[test]
fn filter_mode_esc_cancels_and_enter_commits() {
    assert_eq!(
        key_to_message(KeyCode::Esc, &Screen::Filter),
        Some(Message::FilterCancel)
    );
    assert_eq!(
        key_to_message(KeyCode::Enter, &Screen::Filter),
        Some(Message::FilterCommit)
    );
}

#[test]
fn filter_mode_backspace_deletes_a_character() {
    assert_eq!(
        key_to_message(KeyCode::Backspace, &Screen::Filter),
        Some(Message::FilterBackspace)
    );
}

#[test]
fn slash_in_detail_and_help_screens_produces_no_message() {
    assert_eq!(key_to_message(KeyCode::Char('/'), &Screen::Detail), None);
    assert_eq!(key_to_message(KeyCode::Char('/'), &Screen::Help), None);
}

#[test]
fn board_esc_maps_to_clear_filter() {
    assert_eq!(
        key_to_message(KeyCode::Esc, &Screen::Board),
        Some(Message::ClearFilter)
    );
}
