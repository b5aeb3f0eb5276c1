//! Which key, on which screen, sends which message to the board.
use vstd::prelude::*;

use crate::board::{Message, Screen};
use crate::view::help_table;

verus! {

/// A key the board reacts to; every other key is `Other`.
#[derive(Clone, Copy, Debug, PartialEq, Eq, Structural)]
pub enum KeyCode {
    Char(char),
    Enter,
    Esc,
    Backspace,
    Left,
    Right,
    Up,
    Down,
    /// A function key, by number.
    F(u8),
    Other,
}

/// The key map. On help, any key but `/` closes the overlay. On detail,
/// `q`/`Esc` close it and `e` edits. On the board: `q` quits, `h l j k` and
/// the arrows navigate, `H`/`L` move the ticket, `Enter`/space open it, `e`
/// edits, `n` creates, `y` copies the id, `?`/F1 show help, `/` filters and
/// `Esc` clears the filter. On the filter prompt every character is text and
/// only `Enter`, `Esc` and `Backspace` are controls.
pub open spec fn key_message(code: KeyCode, screen: Screen) -> Option<Message> {
    match screen {
        Screen::Help => match code {
            KeyCode::Char('/') => None,
            _ => Some(Message::CloseOverlay),
        },
        Screen::Detail => match code {
            KeyCode::Char('q') | KeyCode::Esc => Some(Message::CloseOverlay),
            KeyCode::Char('e') => Some(Message::OpenEditor),
            _ => None,
        },
        Screen::Board => match code {
            KeyCode::Char('q') => Some(Message::Quit),
            KeyCode::Char('h') | KeyCode::Left => Some(Message::MoveLeft),
            KeyCode::Char('l') | KeyCode::Right => Some(Message::MoveRight),
            KeyCode::Char('j') | KeyCode::Down => Some(Message::MoveDown),
            KeyCode::Char('k') | KeyCode::Up => Some(Message::MoveUp),
            KeyCode::Char('H') => Some(Message::MoveTicketLeft),
            KeyCode::Char('L') => Some(Message::MoveTicketRight),
            KeyCode::Enter | KeyCode::Char(' ') => Some(Message::OpenDetail),
            KeyCode::Char('e') => Some(Message::OpenEditor),
            KeyCode::Char('n') => Some(Message::NewTicket),
            KeyCode::Char('y') => Some(Message::CopyId),
            KeyCode::Char('?') | KeyCode::F(1) => Some(Message::ToggleHelp),
            KeyCode::Char('/') => Some(Message::OpenFilter),
            KeyCode::Esc => Some(Message::ClearFilter),
            _ => None,
        },
        Screen::Filter => match code {
            KeyCode::Enter => Some(Message::FilterCommit),
            KeyCode::Esc => Some(Message::FilterCancel),
            KeyCode::Backspace => Some(Message::FilterBackspace),
            KeyCode::Char(c) => Some(Message::FilterInput(c)),
            _ => None,
        },
    }
}

/// The message a key sends on a screen, if any (see `key_message`).
pub fn key_to_message(code: KeyCode, screen: &Screen) -> (r: Option<Message>)
    ensures
        r == key_message(code, *screen),
{
    match screen {
        Screen::Help => match code {
            KeyCode::Char('/') => None,
            _ => Some(Message::CloseOverlay),
        },
        Screen::Detail => match code {
            KeyCode::Char('q') | KeyCode::Esc => Some(Message::CloseOverlay),
            KeyCode::Char('e') => Some(Message::OpenEditor),
            _ => None,
        },
        Screen::Board => match code {
            KeyCode::Char('q') => Some(Message::Quit),
            KeyCode::Char('h') | KeyCode::Left => Some(Message::MoveLeft),
            KeyCode::Char('l') | KeyCode::Right => Some(Message::MoveRight),
            KeyCode::Char('j') | KeyCode::Down => Some(Message::MoveDown),
            KeyCode::Char('k') | KeyCode::Up => Some(Message::MoveUp),
            KeyCode::Char('H') => Some(Message::MoveTicketLeft),
            KeyCode::Char('L') => Some(Message::MoveTicketRight),
            KeyCode::Enter | KeyCode::Char(' ') => Some(Message::OpenDetail),
            KeyCode::Char('e') => Some(Message::OpenEditor),
            KeyCode::Char('n') => Some(Message::NewTicket),
            KeyCode::Char('y') => Some(Message::CopyId),
            KeyCode::Char('?') | KeyCode::F(1) => Some(Message::ToggleHelp),
            KeyCode::Char('/') => Some(Message::OpenFilter),
            KeyCode::Esc => Some(Message::ClearFilter),
            _ => None,
        },
        Screen::Filter => match code {
            KeyCode::Enter => Some(Message::FilterCommit),
            KeyCode::Esc => Some(Message::FilterCancel),
            KeyCode::Backspace => Some(Message::FilterBackspace),
            KeyCode::Char(c) => Some(Message::FilterInput(c)),
            _ => None,
        },
    }
}

/// On the filter prompt every character key is literal text, never a
/// command: typing `q` there never quits.
pub proof fn lemma_filter_prompt_captures_characters(c: char)
    ensures
        key_message(KeyCode::Char(c), Screen::Filter) == Some(Message::FilterInput(c)),
{
}

/// `/` opens the filter only from the board: it does nothing on the detail
/// and help screens.
pub proof fn lemma_slash_only_filters_from_board()
    ensures
        key_message(KeyCode::Char('/'), Screen::Board) == Some(Message::OpenFilter),
        key_message(KeyCode::Char('/'), Screen::Detail) is None,
        key_message(KeyCode::Char('/'), Screen::Help) is None,
{
}

/// The key a line of the help table names first: `Enter` for the line that
/// starts with `Enter`, otherwise the line's first character.
pub open spec fn first_key(label: Seq<char>) -> KeyCode {
    if label.len() >= 5 && label[0] == 'E' && label.take(5) == "Enter"@ {
        KeyCode::Enter
    } else {
        KeyCode::Char(label[0])
    }
}

/// The action each line of the help table describes, line by line: focus
/// left, right, down, up; ticket left, right; detail view; editor; new
/// ticket; copy the id; filter; this help; quit.
pub open spec fn help_actions() -> Seq<Message> {
    seq![
        Message::MoveLeft,
        Message::MoveRight,
        Message::MoveDown,
        Message::MoveUp,
        Message::MoveTicketLeft,
        Message::MoveTicketRight,
        Message::OpenDetail,
        Message::OpenEditor,
        Message::NewTicket,
        Message::CopyId,
        Message::OpenFilter,
        Message::ToggleHelp,
        Message::Quit,
    ]
}

/// Every key the help screen lists does, on the board, what its line in
/// the help describes (the first key named on each line).
pub proof fn lemma_help_keys_do_what_help_says()
    ensures
        help_actions().len() == help_table().len(),
        forall|i: int| 0 <= i < help_table().len() ==> key_message(first_key(#[trigger] help_table()[i].0), Screen::Board)
            == Some(help_actions()[i]),
{
    reveal_strlit("h / ←");
    reveal_strlit("l / →");
    reveal_strlit("j / ↓");
    reveal_strlit("k / ↑");
    reveal_strlit("H");
    reveal_strlit("L");
    reveal_strlit("Enter/Spc");
    reveal_strlit("e");
    reveal_strlit("n");
    reveal_strlit("y");
    reveal_strlit("/");
    reveal_strlit("? / F1");
    reveal_strlit("q");
    reveal_strlit("Enter");
    assert(key_message(first_key(help_table()[0].0), Screen::Board) == Some(help_actions()[0]));
    assert(key_message(first_key(help_table()[1].0), Screen::Board) == Some(help_actions()[1]));
    assert(key_message(first_key(help_table()[2].0), Screen::Board) == Some(help_actions()[2]));
    assert(key_message(first_key(help_table()[3].0), Screen::Board) == Some(help_actions()[3]));
    assert(key_message(first_key(help_table()[4].0), Screen::Board) == Some(help_actions()[4]));
    assert(key_message(first_key(help_table()[5].0), Screen::Board) == Some(help_actions()[5]));
    assert("Enter/Spc"@.take(5) =~= "Enter"@);
    assert(key_message(first_key(help_table()[6].0), Screen::Board) == Some(help_actions()[6]));
    assert(key_message(first_key(help_table()[7].0), Screen::Board) == Some(help_actions()[7]));
    assert(key_message(first_key(help_table()[8].0), Screen::Board) == Some(help_actions()[8]));
    assert(key_message(first_key(help_table()[9].0), Screen::Board) == Some(help_actions()[9]));
    assert(key_message(first_key(help_table()[10].0), Screen::Board) == Some(help_actions()[10]));
    assert(key_message(first_key(help_table()[11].0), Screen::Board) == Some(help_actions()[11]));
    assert(key_message(first_key(help_table()[12].0), Screen::Board) == Some(help_actions()[12]));
}

/// The second key a help line names does what the first does: the arrows
/// move like `h l j k`, space opens like `Enter`, and F1 shows the help like
/// `?`, on every screen but the filter prompt, where letters are text.
pub proof fn lemma_alternative_keys(screen: Screen)
    requires
        screen != Screen::Filter,
    ensures
        key_message(KeyCode::Left, screen) == key_message(KeyCode::Char('h'), screen),
        key_message(KeyCode::Right, screen) == key_message(KeyCode::Char('l'), screen),
        key_message(KeyCode::Down, screen) == key_message(KeyCode::Char('j'), screen),
        key_message(KeyCode::Up, screen) == key_message(KeyCode::Char('k'), screen),
        key_message(KeyCode::Char(' '), screen) == key_message(KeyCode::Enter, screen),
        key_message(KeyCode::F(1), screen) == key_message(KeyCode::Char('?'), screen),
{
}

} // verus!
