//! The kanban board model: its state, the messages a user sends it, the side
//! effects it asks for, and the pure transition between states.
use vstd::prelude::*;

use crate::domain::{Ticket, TicketId, TicketStatus, Timestamp};
use crate::loading::{failure_summary, summarize_failures, LoadFailure};
use crate::text::{chars_of, contains_chars, contains_seq, lowercase, occurs_at, owned, push_char, push_str, to_lower};

verus! {

// ── model ────────────────────────────────────────────────────────────────────

/// Which screen the board shows.
#[derive(Clone, Copy, Debug, PartialEq, Eq, Structural)]
pub enum Screen {
    Board,
    Detail,
    Help,
    /// The `/` filter prompt is open; every printable key is literal text.
    Filter,
}

/// The board's state.
pub struct App {
    pub tickets: Vec<Ticket>,
    /// Status shown in each kanban column, e.g. todo, in-progress, done.
    pub columns: Vec<TicketStatus>,
    /// Focused column.
    pub col: usize,
    /// Focused row within the focused column.
    pub row: usize,
    pub screen: Screen,
    /// Transient status bar message.
    pub flash: Option<String>,
    /// Live filter query, matched case-insensitively against id and title.
    pub filter: String,
}

/// A ticket matches an already lower-cased query when the query is empty or
/// occurs in its lower-cased id or its lower-cased title.
pub open spec fn query_matches(t: Ticket, q: Seq<char>) -> bool {
    q.len() == 0 || contains_seq(lowercase(t.front_matter.id@), q) || contains_seq(
        lowercase(t.front_matter.title@),
        q,
    )
}

/// Positions, in order, of the tickets with this status that match the query.
pub open spec fn column_of(tickets: Seq<Ticket>, status: TicketStatus, q: Seq<char>) -> Seq<int>
    decreases tickets.len(),
{
    if tickets.len() == 0 {
        Seq::empty()
    } else {
        let r = column_of(tickets.drop_last(), status, q);
        let t = tickets.last();
        if t.front_matter.status == status && query_matches(t, q) {
            r.push(tickets.len() - 1)
        } else {
            r
        }
    }
}

/// `row`, brought within a column of `len` rows (0 for an empty column).
pub open spec fn clamp(row: int, len: int) -> int {
    if len <= 0 {
        0
    } else if row < len {
        row
    } else {
        len - 1
    }
}

/// The first position `k >= from` in `c` whose ticket has id `id`.
pub open spec fn find_id(tickets: Seq<Ticket>, c: Seq<int>, id: Seq<char>, from: int) -> Option<
    int,
>
    decreases c.len() - from,
{
    if from < 0 || from >= c.len() {
        None
    } else if tickets[c[from]].front_matter.id@ == id {
        Some(from)
    } else {
        find_id(tickets, c, id, from + 1)
    }
}

/// `n` is `o` with its status set to `status` and its update time to `now`.
pub open spec fn restatused(o: Ticket, n: Ticket, status: TicketStatus, now: Timestamp) -> bool {
    &&& n.front_matter.status == status
    &&& n.front_matter.updated_at == now
    &&& n.front_matter.id == o.front_matter.id
    &&& n.front_matter.title == o.front_matter.title
    &&& n.front_matter.ticket_type == o.front_matter.ticket_type
    &&& n.front_matter.tags == o.front_matter.tags
    &&& n.front_matter.parent == o.front_matter.parent
    &&& n.front_matter.blocked_by == o.front_matter.blocked_by
    &&& n.front_matter.created_at == o.front_matter.created_at
    &&& n.body == o.body
}

impl App {
    /// Positions of the tickets shown in column `col`, in order (none for a
    /// column that does not exist).
    pub open spec fn column_spec(&self, col: int) -> Seq<int> {
        if 0 <= col < self.columns@.len() {
            column_of(self.tickets@, self.columns@[col], lowercase(self.filter@))
        } else {
            Seq::empty()
        }
    }

    /// Position of the focused ticket, if the focused row holds one.
    pub open spec fn focused_spec(&self) -> Option<int> {
        let c = self.column_spec(self.col as int);
        if self.row < c.len() {
            Some(c[self.row as int])
        } else {
            None
        }
    }

    /// A board over these tickets and columns, focused on the first row of
    /// the first column, with no filter and no message.
    pub fn new(tickets: Vec<Ticket>, columns: Vec<TicketStatus>) -> (r: App)
        ensures
            r.tickets == tickets,
            r.columns == columns,
            r.col == 0,
            r.row == 0,
            r.screen == Screen::Board,
            r.flash is None,
            r.filter@ == Seq::<char>::empty(),
            cursor_ok(r),
    {
        App { tickets, columns, col: 0, row: 0, screen: Screen::Board, flash: None, filter: String::new() }
    }

    /// Positions of the tickets in column `col` whose status is that
    /// column's and that match the current filter.
    pub fn col_indices(&self, col: usize) -> (r: Vec<usize>)
        requires
            col < self.columns.len(),
        ensures
            r@.len() == self.column_spec(col as int).len(),
            forall|i: int| 0 <= i < r@.len() ==> r@[i] == self.column_spec(col as int)[i],
            forall|i: int| 0 <= i < r@.len() ==> r@[i] < self.tickets@.len(),
    {
        self.column(col)
    }

    /// Like `col_indices`, but total: no positions for a missing column.
    fn column(&self, col: usize) -> (r: Vec<usize>)
        ensures
            r@.len() == self.column_spec(col as int).len(),
            forall|i: int| 0 <= i < r@.len() ==> r@[i] == self.column_spec(col as int)[i],
            forall|i: int| 0 <= i < r@.len() ==> r@[i] < self.tickets@.len(),
    {
        let mut r: Vec<usize> = Vec::new();
        if col >= self.columns.len() {
            return r;
        }
        let status = self.columns[col];
        let low = to_lower(self.filter.as_str());
        let q = chars_of(low.as_str());
        let mut i: usize = 0;
        while i < self.tickets.len()
            invariant
                col < self.columns.len(),
                status == self.columns@[col as int],
                q@ == lowercase(self.filter@),
                i <= self.tickets.len(),
                r@.len() == column_of(self.tickets@.take(i as int), status, q@).len(),
                forall|j: int|
                    0 <= j < r@.len() ==> r@[j] == column_of(self.tickets@.take(i as int), status, q@)[j],
                forall|j: int| 0 <= j < r@.len() ==> r@[j] < i,
            decreases self.tickets.len() - i,
        {
            let t = &self.tickets[i];
            proof {
                assert(self.tickets@.take(i + 1).drop_last() =~= self.tickets@.take(i as int));
                assert(self.tickets@.take(i + 1).last() == self.tickets@[i as int]);
            }
            if t.front_matter.status == status && ticket_matches_query(t, &q) {
                r.push(i);
            }
            i = i + 1;
        }
        assert(self.tickets@.take(self.tickets@.len() as int) =~= self.tickets@);
        r
    }

    /// Position of the focused ticket, if the focused row holds one.
    pub fn focused_ticket_index(&self) -> (r: Option<usize>)
        ensures
            match r {
                Some(i) => self.focused_spec() == Some(i as int) && i < self.tickets@.len(),
                None => self.focused_spec() is None,
            },
    {
        let c = self.column(self.col);
        if self.row < c.len() {
            Some(c[self.row])
        } else {
            None
        }
    }

    /// The focused ticket, if the focused row holds one.
    pub fn focused_ticket(&self) -> (r: Option<&Ticket>)
        ensures
            match r {
                Some(t) => self.focused_spec() matches Some(i) && *t == self.tickets@[i],
                None => self.focused_spec() is None,
            },
    {
        match self.focused_ticket_index() {
            Some(i) => Some(&self.tickets[i]),
            None => None,
        }
    }

    /// Replaces the tickets (after an external edit) and brings the focused
    /// row back within the focused column.
    pub fn set_tickets(&mut self, tickets: Vec<Ticket>)
        ensures
            final(self).tickets == tickets,
            final(self).row == clamp(old(self).row as int, final(self).column_spec(old(self).col as int).len() as int),
            final(self).columns == old(self).columns,
            final(self).col == old(self).col,
            final(self).screen == old(self).screen,
            final(self).flash == old(self).flash,
            final(self).filter == old(self).filter,
            cursor_ok(*old(self)) ==> cursor_ok(*final(self)),
    {
        self.tickets = tickets;
        self.clamp_row();
    }

    /// Brings the focused row within the focused column.
    pub fn clamp_row(&mut self)
        ensures
            final(self).row == clamp(old(self).row as int, old(self).column_spec(old(self).col as int).len() as int),
            final(self).tickets == old(self).tickets,
            final(self).columns == old(self).columns,
            final(self).col == old(self).col,
            final(self).screen == old(self).screen,
            final(self).flash == old(self).flash,
            final(self).filter == old(self).filter,
    {
        let len = self.column(self.col).len();
        if len == 0 {
            self.row = 0;
        } else if self.row > len - 1 {
            self.row = len - 1;
        }
    }
}

/// `n` is the board `o` with only the focused row changed, to `row`.
pub open spec fn only_row(o: App, n: App, row: int) -> bool {
    &&& n.row == row
    &&& n.tickets == o.tickets
    &&& n.columns == o.columns
    &&& n.col == o.col
    &&& n.screen == o.screen
    &&& n.flash == o.flash
    &&& n.filter == o.filter
}

/// `n` is the board `o` focused on column `col`, with the row clamped to it.
pub open spec fn moved_to_column(o: App, n: App, col: int) -> bool {
    &&& n.col == col
    &&& n.row == clamp(o.row as int, o.column_spec(col).len() as int)
    &&& n.tickets == o.tickets
    &&& n.columns == o.columns
    &&& n.screen == o.screen
    &&& n.flash == o.flash
    &&& n.filter == o.filter
}

/// `n` is the board `o` with the filter text `filter` and the row clamped to
/// the focused column as that filter narrows it.
pub open spec fn refiltered(o: App, n: App, filter: Seq<char>) -> bool {
    &&& n.filter@ == filter
    &&& n.row == clamp(o.row as int, n.column_spec(o.col as int).len() as int)
    &&& n.tickets == o.tickets
    &&& n.columns == o.columns
    &&& n.col == o.col
    &&& n.screen == o.screen
    &&& n.flash == o.flash
}

/// `n` is the board `o` showing screen `s`, nothing else changed.
pub open spec fn only_screen(o: App, n: App, s: Screen) -> bool {
    &&& n.screen == s
    &&& n.tickets == o.tickets
    &&& n.columns == o.columns
    &&& n.col == o.col
    &&& n.row == o.row
    &&& n.flash == o.flash
    &&& n.filter == o.filter
}

/// Moving the focused ticket of `o` to column `target` at time `now` gives
/// `n`: nothing happens when no ticket is focused; otherwise that ticket
/// takes the target column's status and `now` as its update time, the focus
/// moves to the target column, onto the first row holding the moved id.
pub open spec fn moved_ticket(o: App, n: App, target: int, now: Timestamp) -> bool {
    match o.focused_spec() {
        None => n == o,
        Some(idx) => {
            &&& n.tickets@.len() == o.tickets@.len()
            &&& forall|j: int| 0 <= j < o.tickets@.len() && j != idx ==> n.tickets@[j] == o.tickets@[j]
            &&& restatused(o.tickets@[idx], n.tickets@[idx], o.columns@[target], now)
            &&& n.col == target
            &&& n.row == match find_id(
                n.tickets@,
                n.column_spec(target),
                o.tickets@[idx].front_matter.id@,
                0,
            ) {
                Some(k) => k,
                None => 0,
            }
            &&& n.columns == o.columns
            &&& n.screen == o.screen
            &&& n.flash == o.flash
            &&& n.filter == o.filter
        },
    }
}

impl App {
    /// Focus the column to the left, if any.
    pub fn move_left(&mut self)
        ensures
            old(self).col > 0 ==> moved_to_column(*old(self), *final(self), old(self).col - 1),
            old(self).col == 0 ==> *final(self) == *old(self),
    {
        if self.col > 0 {
            self.col = self.col - 1;
            self.clamp_row();
        }
    }

    /// Focus the column to the right, if any.
    pub fn move_right(&mut self)
        ensures
            old(self).col + 1 < old(self).columns@.len() ==> moved_to_column(
                *old(self),
                *final(self),
                old(self).col + 1,
            ),
            old(self).col + 1 >= old(self).columns@.len() ==> *final(self) == *old(self),
    {
        if self.col < self.columns.len() && self.col + 1 < self.columns.len() {
            self.col = self.col + 1;
            self.clamp_row();
        }
    }

    /// Focus the row above, if any.
    pub fn move_up(&mut self)
        ensures
            old(self).row > 0 ==> only_row(*old(self), *final(self), old(self).row - 1),
            old(self).row == 0 ==> *final(self) == *old(self),
    {
        if self.row > 0 {
            self.row = self.row - 1;
        }
    }

    /// Focus the row below, if the focused column has one.
    pub fn move_down(&mut self)
        ensures
            ({
                let n = old(self).column_spec(old(self).col as int).len();
                if n > 0 && old(self).row < n - 1 {
                    only_row(*old(self), *final(self), old(self).row + 1)
                } else {
                    *final(self) == *old(self)
                }
            }),
    {
        let count = self.column(self.col).len();
        if count > 0 && self.row < count - 1 {
            self.row = self.row + 1;
        }
    }

    /// Moves the focused ticket into the column on the left, at time `now`.
    /// Returns whether a ticket moved.
    pub fn move_ticket_left(&mut self, now: Timestamp) -> (r: bool)
        ensures
            old(self).col == 0 || old(self).col > old(self).columns@.len() ==> !r && *final(self)
                == *old(self),
            old(self).col > 0 && old(self).col <= old(self).columns@.len() ==> moved_ticket(
                *old(self),
                *final(self),
                old(self).col - 1,
                now,
            ) && r == (old(self).focused_spec() is Some),
    {
        if self.col == 0 || self.col > self.columns.len() {
            return false;
        }
        self.move_ticket_to(self.col - 1, now)
    }

    /// Moves the focused ticket into the column on the right, at time `now`.
    /// Returns whether a ticket moved.
    pub fn move_ticket_right(&mut self, now: Timestamp) -> (r: bool)
        ensures
            old(self).col + 1 >= old(self).columns@.len() ==> !r && *final(self) == *old(self),
            old(self).col + 1 < old(self).columns@.len() ==> moved_ticket(
                *old(self),
                *final(self),
                old(self).col + 1,
                now,
            ) && r == (old(self).focused_spec() is Some),
    {
        if self.col >= self.columns.len() || self.col + 1 >= self.columns.len() {
            return false;
        }
        self.move_ticket_to(self.col + 1, now)
    }

    fn move_ticket_to(&mut self, target: usize, now: Timestamp) -> (r: bool)
        requires
            target < old(self).columns@.len(),
        ensures
            moved_ticket(*old(self), *final(self), target as int, now),
            r == (old(self).focused_spec() is Some),
    {
        let idx = match self.focused_ticket_index() {
            Some(i) => i,
            None => return false,
        };
        let ticket_id = self.tickets[idx].front_matter.id.clone();
        let new_status = self.columns[target];
        let ghost before = self.tickets@;
        let mut t = self.tickets.remove(idx);
        t.front_matter.status = new_status;
        t.front_matter.updated_at = now;
        self.tickets.insert(idx, t);
        proof {
            assert(self.tickets@ =~= before.update(idx as int, self.tickets@[idx as int]));
            assert forall|j: int| 0 <= j < before.len() && j != idx implies self.tickets@[j]
                == before[j] by {
                if j < idx {
                } else {
                }
            }
        }
        self.col = target;
        let c = self.column(target);
        let mut k: usize = 0;
        let mut found = false;
        while k < c.len() && !found
            invariant
                k <= c.len(),
                c@.len() == self.column_spec(target as int).len(),
                forall|i: int| 0 <= i < c@.len() ==> c@[i] == self.column_spec(target as int)[i],
                forall|i: int| 0 <= i < c@.len() ==> c@[i] < self.tickets@.len(),
                !found ==> find_id(self.tickets@, self.column_spec(target as int), ticket_id@, 0)
                    == find_id(self.tickets@, self.column_spec(target as int), ticket_id@, k as int),
                found ==> k < c.len() && find_id(
                    self.tickets@,
                    self.column_spec(target as int),
                    ticket_id@,
                    0,
                ) == Some(k as int),
            decreases c.len() - k, if found { 0int } else { 1int },
        {
            if self.tickets[c[k]].front_matter.id.same(&ticket_id) {
                found = true;
            } else {
                k = k + 1;
            }
        }
        if found {
            self.row = k;
        } else {
            self.row = 0;
        }
        true
    }

    /// Opens the filter prompt.
    pub fn open_filter(&mut self)
        ensures
            only_screen(*old(self), *final(self), Screen::Filter),
    {
        self.screen = Screen::Filter;
    }

    /// Appends a character to the live filter query and re-clamps the row.
    pub fn push_filter_char(&mut self, c: char)
        ensures
            refiltered(*old(self), *final(self), old(self).filter@.push(c)),
    {
        push_char(&mut self.filter, c);
        self.clamp_row();
    }

    /// Removes the last character of the live filter query (if any) and
    /// re-clamps the row.
    pub fn pop_filter_char(&mut self)
        ensures
            refiltered(
                *old(self),
                *final(self),
                if old(self).filter@.len() > 0 {
                    old(self).filter@.drop_last()
                } else {
                    old(self).filter@
                },
            ),
    {
        pop_char(&mut self.filter);
        self.clamp_row();
    }

    /// `Enter` from the prompt: keeps the query, back to the board.
    pub fn commit_filter(&mut self)
        ensures
            only_screen(*old(self), *final(self), Screen::Board),
    {
        self.screen = Screen::Board;
    }

    /// `Esc` from the prompt: discards the query, even one active before the
    /// prompt was opened, and goes back to the board.
    pub fn cancel_filter(&mut self)
        ensures
            final(self).screen == Screen::Board,
            final(self).filter@ == Seq::<char>::empty(),
            final(self).row == clamp(old(self).row as int, final(self).column_spec(old(self).col as int).len() as int),
            final(self).tickets == old(self).tickets,
            final(self).columns == old(self).columns,
            final(self).col == old(self).col,
            final(self).flash == old(self).flash,
    {
        self.filter = String::new();
        self.screen = Screen::Board;
        self.clamp_row();
    }

    /// `Esc` from the board: clears an active filter; nothing otherwise.
    pub fn clear_filter(&mut self)
        ensures
            old(self).filter@.len() > 0 ==> refiltered(*old(self), *final(self), Seq::<char>::empty()),
            old(self).filter@.len() == 0 ==> *final(self) == *old(self),
    {
        let v = chars_of(self.filter.as_str());
        if v.len() > 0 {
            self.filter = String::new();
            self.clamp_row();
        }
    }
}

/// Calls `String::pop`, which removes the last character, if any.
#[verifier::external_body]
fn pop_char(s: &mut String) -> (r: Option<char>)
    ensures
        old(s)@.len() > 0 ==> final(s)@ == old(s)@.drop_last() && r == Some(old(s)@.last()),
        old(s)@.len() == 0 ==> final(s)@ == old(s)@ && r is None,
{
    s.pop()
}

/// Whether `t` matches the already lower-cased query `q`: `q` is empty or
/// occurs in the lower-cased id or the lower-cased title.
pub fn ticket_matches_query(t: &Ticket, q: &Vec<char>) -> (r: bool)
    ensures
        r == query_matches(*t, q@),
{
    if q.len() == 0 {
        return true;
    }
    let id_low = to_lower(t.front_matter.id.as_str());
    let id_chars = chars_of(id_low.as_str());
    if contains_chars(&id_chars, q) {
        return true;
    }
    let title_low = to_lower(t.front_matter.title.as_str());
    let title_chars = chars_of(title_low.as_str());
    contains_chars(&title_chars, q)
}


// ── messages and commands ────────────────────────────────────────────────────

/// Every user-driven event, as a domain action rather than a key code.
#[derive(Clone, Copy, Debug, PartialEq, Eq, Structural)]
pub enum Message {
    MoveLeft,
    MoveRight,
    MoveUp,
    MoveDown,
    MoveTicketLeft,
    MoveTicketRight,
    OpenDetail,
    CloseOverlay,
    OpenEditor,
    NewTicket,
    ToggleHelp,
    CopyId,
    Quit,
    /// `/` from the board: open the filter prompt.
    OpenFilter,
    /// A literal character typed while the filter prompt is open.
    FilterInput(char),
    /// `Backspace` while the filter prompt is open.
    FilterBackspace,
    /// `Enter` from the filter prompt: keep the query, back to the board.
    FilterCommit,
    /// `Esc` from the filter prompt: discard the query, back to the board.
    FilterCancel,
    /// `Esc` from the board: clear an active filter (nothing if none).
    ClearFilter,
}

/// A side effect the board asks its runtime to perform.
#[derive(Debug, PartialEq, Eq)]
pub enum Cmd {
    Nothing,
    Quit,
    /// Persist the focused ticket (and commit it when configured).
    SaveFocused,
    /// Open the focused ticket in the editor, then resume.
    OpenEditor,
    /// Create a draft ticket with the focused column's status, then edit it.
    CreateAndEdit,
    /// Copy this ticket id to the clipboard.
    CopyId(String),
}

/// `n` is `o` after the filter prompt was cancelled: back to the board, no
/// query, the row clamped to the unfiltered column.
pub open spec fn filter_cancelled(o: App, n: App) -> bool {
    &&& n.screen == Screen::Board
    &&& n.filter@ == Seq::<char>::empty()
    &&& n.row == clamp(o.row as int, n.column_spec(o.col as int).len() as int)
    &&& n.tickets == o.tickets
    &&& n.columns == o.columns
    &&& n.col == o.col
    &&& n.flash == o.flash
}

/// The transition `update` makes: from board `o`, on message `msg`, at time
/// `now`, the board becomes `n` and the runtime is asked for `cmd`.
pub open spec fn update_post(o: App, n: App, msg: Message, cmd: Cmd, now: Timestamp) -> bool {
    match o.screen {
        // Any message dismisses the help overlay.
        Screen::Help => only_screen(o, n, Screen::Board) && cmd == Cmd::Nothing,
        Screen::Detail => match msg {
            Message::CloseOverlay | Message::Quit => only_screen(o, n, Screen::Board) && cmd
                == Cmd::Nothing,
            Message::OpenEditor => n == o && cmd == Cmd::OpenEditor,
            _ => n == o && cmd == Cmd::Nothing,
        },
        Screen::Filter => match msg {
            Message::FilterInput(c) => refiltered(o, n, o.filter@.push(c)) && cmd == Cmd::Nothing,
            Message::FilterBackspace => refiltered(
                o,
                n,
                if o.filter@.len() > 0 {
                    o.filter@.drop_last()
                } else {
                    o.filter@
                },
            ) && cmd == Cmd::Nothing,
            Message::FilterCommit => only_screen(o, n, Screen::Board) && cmd == Cmd::Nothing,
            Message::FilterCancel => filter_cancelled(o, n) && cmd == Cmd::Nothing,
            _ => n == o && cmd == Cmd::Nothing,
        },
        Screen::Board => match msg {
            Message::Quit => n == o && cmd == Cmd::Quit,
            Message::MoveLeft => (if o.col > 0 {
                moved_to_column(o, n, o.col - 1)
            } else {
                n == o
            }) && cmd == Cmd::Nothing,
            Message::MoveRight => (if o.col + 1 < o.columns@.len() {
                moved_to_column(o, n, o.col + 1)
            } else {
                n == o
            }) && cmd == Cmd::Nothing,
            Message::MoveUp => (if o.row > 0 {
                only_row(o, n, o.row - 1)
            } else {
                n == o
            }) && cmd == Cmd::Nothing,
            Message::MoveDown => ({
                let len = o.column_spec(o.col as int).len();
                if len > 0 && o.row < len - 1 {
                    only_row(o, n, o.row + 1)
                } else {
                    n == o
                }
            }) && cmd == Cmd::Nothing,
            Message::MoveTicketLeft => if o.col > 0 && o.col <= o.columns@.len() {
                moved_ticket(o, n, o.col - 1, now) && cmd == (if o.focused_spec() is Some {
                    Cmd::SaveFocused
                } else {
                    Cmd::Nothing
                })
            } else {
                n == o && cmd == Cmd::Nothing
            },
            Message::MoveTicketRight => if o.col + 1 < o.columns@.len() {
                moved_ticket(o, n, o.col + 1, now) && cmd == (if o.focused_spec() is Some {
                    Cmd::SaveFocused
                } else {
                    Cmd::Nothing
                })
            } else {
                n == o && cmd == Cmd::Nothing
            },
            Message::OpenDetail => (if o.focused_spec() is Some {
                only_screen(o, n, Screen::Detail)
            } else {
                n == o
            }) && cmd == Cmd::Nothing,
            Message::OpenEditor => n == o && cmd == Cmd::OpenEditor,
            Message::NewTicket => n == o && cmd == Cmd::CreateAndEdit,
            Message::ToggleHelp => only_screen(o, n, Screen::Help) && cmd == Cmd::Nothing,
            Message::CopyId => n == o && match o.focused_spec() {
                Some(i) => cmd matches Cmd::CopyId(id) && id@ == o.tickets@[i].front_matter.id@,
                None => cmd == Cmd::Nothing,
            },
            Message::OpenFilter => only_screen(o, n, Screen::Filter) && cmd == Cmd::Nothing,
            Message::ClearFilter => (if o.filter@.len() > 0 {
                refiltered(o, n, Seq::<char>::empty())
            } else {
                n == o
            }) && cmd == Cmd::Nothing,
            // Filter-editing messages only ever arrive on the filter prompt.
            _ => n == o && cmd == Cmd::Nothing,
        },
    }
}

/// The pure state transition: updates `app` on `msg`, with `now` as the time
/// any moved ticket is stamped with, and returns the side effect to perform.
pub fn update_at(app: &mut App, msg: Message, now: Timestamp) -> (cmd: Cmd)
    ensures
        update_post(*old(app), *final(app), msg, cmd, now),
{
    match app.screen {
        Screen::Help => {
            app.screen = Screen::Board;
            Cmd::Nothing
        },
        Screen::Detail => match msg {
            Message::CloseOverlay | Message::Quit => {
                app.screen = Screen::Board;
                Cmd::Nothing
            },
            Message::OpenEditor => Cmd::OpenEditor,
            _ => Cmd::Nothing,
        },
        Screen::Filter => match msg {
            Message::FilterInput(c) => {
                app.push_filter_char(c);
                Cmd::Nothing
            },
            Message::FilterBackspace => {
                app.pop_filter_char();
                Cmd::Nothing
            },
            Message::FilterCommit => {
                app.commit_filter();
                Cmd::Nothing
            },
            Message::FilterCancel => {
                app.cancel_filter();
                Cmd::Nothing
            },
            _ => Cmd::Nothing,
        },
        Screen::Board => match msg {
            Message::Quit => Cmd::Quit,
            Message::MoveLeft => {
                app.move_left();
                Cmd::Nothing
            },
            Message::MoveRight => {
                app.move_right();
                Cmd::Nothing
            },
            Message::MoveUp => {
                app.move_up();
                Cmd::Nothing
            },
            Message::MoveDown => {
                app.move_down();
                Cmd::Nothing
            },
            Message::MoveTicketLeft => {
                if app.move_ticket_left(now) {
                    Cmd::SaveFocused
                } else {
                    Cmd::Nothing
                }
            },
            Message::MoveTicketRight => {
                if app.move_ticket_right(now) {
                    Cmd::SaveFocused
                } else {
                    Cmd::Nothing
                }
            },
            Message::OpenDetail => {
                if app.focused_ticket_index().is_some() {
                    app.screen = Screen::Detail;
                }
                Cmd::Nothing
            },
            Message::OpenEditor => Cmd::OpenEditor,
            Message::NewTicket => Cmd::CreateAndEdit,
            Message::ToggleHelp => {
                app.screen = Screen::Help;
                Cmd::Nothing
            },
            Message::CloseOverlay => Cmd::Nothing,
            Message::CopyId => match app.focused_ticket() {
                Some(t) => Cmd::CopyId(t.front_matter.id.to_string()),
                None => Cmd::Nothing,
            },
            Message::OpenFilter => {
                app.open_filter();
                Cmd::Nothing
            },
            Message::ClearFilter => {
                app.clear_filter();
                Cmd::Nothing
            },
            _ => Cmd::Nothing,
        },
    }
}

/// The state transition on `msg`, stamping any moved ticket with the current
/// time: as `update_at`, for some instant read from the clock.
pub fn update(app: &mut App, msg: Message) -> (cmd: Cmd)
    ensures
        exists|now: Timestamp| update_post(*old(app), *final(app), msg, cmd, now),
{
    let now = crate::domain::clock_now();
    update_at(app, msg, now)
}

/// The footer message naming every ticket file that could not be loaded, or
/// `None` when nothing failed.
pub fn format_load_failures(failures: &Vec<LoadFailure>) -> (r: Option<String>)
    ensures
        match r {
            Some(m) => failures@.len() > 0 && m@ == failure_summary(failures@),
            None => failures@.len() == 0,
        },
{
    if failures.len() == 0 {
        return None;
    }
    Some(summarize_failures(failures))
}

/// After tickets are (re)loaded: when some files failed, the flash message
/// names them; otherwise the board is left as it was.
pub fn seed_load_flash(app: &mut App, failures: &Vec<LoadFailure>)
    ensures
        failures@.len() == 0 ==> *final(app) == *old(app),
        failures@.len() > 0 ==> *final(app) == (App { flash: Some(final(app).flash->Some_0), ..*old(app) }),
        failures@.len() > 0 ==> final(app).flash->Some_0@ == failure_summary(failures@),
{
    match format_load_failures(failures) {
        Some(msg) => {
            app.flash = Some(msg);
        },
        None => {},
    }
}

/// After the focused ticket's id was handed to the clipboard: the flash
/// says `Copied <id>` when that worked and `Clipboard unavailable` when it
/// did not; nothing else on the board changes.
pub fn clipboard_flash(app: &mut App, id: &str, copied: bool)
    ensures
        *final(app) == (App { flash: final(app).flash, ..*old(app) }),
        final(app).flash matches Some(m) && m@ == if copied {
            "Copied "@ + id@
        } else {
            "Clipboard unavailable"@
        },
{
    let msg = if copied {
        let mut m = owned("Copied ");
        push_str(&mut m, id);
        m
    } else {
        owned("Clipboard unavailable")
    };
    app.flash = Some(msg);
}

// ── laws ─────────────────────────────────────────────────────────────────────

proof fn lemma_longer_query_matches_less(t: Ticket, q: Seq<char>, c: char)
    ensures
        query_matches(t, q.push(c)) ==> query_matches(t, q),
{
    let qc = q.push(c);
    if query_matches(t, qc) && q.len() > 0 {
        let a = lowercase(t.front_matter.id@);
        let b = lowercase(t.front_matter.title@);
        if contains_seq(a, qc) {
            let i = choose|i: int| occurs_at(a, qc, i);
            assert(a.subrange(i, i + q.len()) =~= qc.subrange(0, q.len() as int));
            assert(qc.subrange(0, q.len() as int) =~= q);
            assert(occurs_at(a, q, i));
        } else {
            let i = choose|i: int| occurs_at(b, qc, i);
            assert(b.subrange(i, i + q.len()) =~= qc.subrange(0, q.len() as int));
            assert(qc.subrange(0, q.len() as int) =~= q);
            assert(occurs_at(b, q, i));
        }
    }
}

/// A filter only narrows a column: with one more character typed into a
/// (lower-cased) query, every ticket still shown was shown before, and
/// every ticket shown under a query is shown with no query at all.
pub proof fn lemma_filter_narrows(tickets: Seq<Ticket>, status: TicketStatus, q: Seq<char>, c: char)
    ensures
        forall|k: int| #[trigger] column_of(tickets, status, q.push(c)).contains(k) ==> column_of(tickets, status, q).contains(k),
        forall|k: int| #[trigger] column_of(tickets, status, q).contains(k) ==> column_of(tickets, status, Seq::empty()).contains(k),
    decreases tickets.len(),
{
    if tickets.len() > 0 {
        let rest = tickets.drop_last();
        lemma_filter_narrows(rest, status, q, c);
        lemma_longer_query_matches_less(tickets.last(), q, c);
        let a = column_of(rest, status, q.push(c));
        let b = column_of(rest, status, q);
        let e = column_of(rest, status, Seq::empty());
        assert forall|k: int| #[trigger] column_of(tickets, status, q.push(c)).contains(k) implies column_of(tickets, status, q).contains(k) by {
            if a.contains(k) {
                assert(b.contains(k));
                let j = choose|j: int| 0 <= j < b.len() && b[j] == k;
                assert(column_of(tickets, status, q)[j] == k);
            } else {
                assert(k == tickets.len() - 1);
                assert(column_of(tickets, status, q).last() == k);
            }
        }
        assert forall|k: int| #[trigger] column_of(tickets, status, q).contains(k) implies column_of(tickets, status, Seq::empty()).contains(k) by {
            if b.contains(k) {
                assert(e.contains(k));
                let j = choose|j: int| 0 <= j < e.len() && e[j] == k;
                assert(column_of(tickets, status, Seq::empty())[j] == k);
            } else {
                assert(k == tickets.len() - 1);
                assert(column_of(tickets, status, Seq::empty()).last() == k);
            }
        }
    }
}


/// The focus is on a column of the board (the first when there is none) and
/// on a row that column has (the first when it is empty).
pub open spec fn cursor_ok(a: App) -> bool {
    &&& (a.columns@.len() == 0 ==> a.col == 0)
    &&& (a.columns@.len() > 0 ==> a.col < a.columns@.len())
    &&& a.row == clamp(a.row as int, a.column_spec(a.col as int).len() as int)
}

/// A row found by id in a column is a row of that column.
proof fn lemma_find_id_bound(tickets: Seq<Ticket>, c: Seq<int>, id: Seq<char>, from: int)
    ensures
        find_id(tickets, c, id, from) matches Some(k) ==> from <= k < c.len()
            && tickets[c[k]].front_matter.id@ == id,
    decreases c.len() - from,
{
    if 0 <= from < c.len() && tickets[c[from]].front_matter.id@ != id {
        lemma_find_id_bound(tickets, c, id, from + 1);
    }
}

/// Every message keeps the focus on a column of the board and on a row that
/// column has: the board never points at a card that is not there.
pub proof fn lemma_update_keeps_cursor(o: App, n: App, msg: Message, cmd: Cmd, now: Timestamp)
    requires
        cursor_ok(o),
        update_post(o, n, msg, cmd, now),
    ensures
        cursor_ok(n),
{
    if o.screen == Screen::Board {
        match msg {
            Message::MoveTicketLeft | Message::MoveTicketRight => {
                if let Some(idx) = o.focused_spec() {
                    let target = n.col as int;
                    lemma_find_id_bound(n.tickets@, n.column_spec(target), o.tickets@[idx].front_matter.id@, 0);
                }
            },
            _ => {},
        }
    }
}

/// No two tickets of the board share an id.
pub open spec fn ids_unique(tickets: Seq<Ticket>) -> bool {
    forall|i: int, j: int|
        0 <= i < j < tickets.len() ==> (#[trigger] tickets[i]).front_matter.id@ != (#[trigger] tickets[j]).front_matter.id@
}

/// A column lists, in increasing order, exactly the positions of the tickets
/// with its status that match the query.
proof fn lemma_column_of_props(tickets: Seq<Ticket>, s: TicketStatus, q: Seq<char>)
    ensures
        forall|k: int| 0 <= k < column_of(tickets, s, q).len() ==> {
            let i = #[trigger] column_of(tickets, s, q)[k];
            &&& 0 <= i < tickets.len()
            &&& tickets[i].front_matter.status == s
            &&& query_matches(tickets[i], q)
        },
        forall|a: int, b: int|
            0 <= a < b < column_of(tickets, s, q).len() ==> #[trigger] column_of(tickets, s, q)[a]
                < #[trigger] column_of(tickets, s, q)[b],
        forall|i: int|
            0 <= i < tickets.len() && (#[trigger] tickets[i]).front_matter.status == s && query_matches(tickets[i], q)
                ==> column_of(tickets, s, q).contains(i),
    decreases tickets.len(),
{
    if tickets.len() > 0 {
        let init = tickets.drop_last();
        lemma_column_of_props(init, s, q);
        let r = column_of(init, s, q);
        let c = column_of(tickets, s, q);
        assert forall|i: int|
            0 <= i < tickets.len() && (#[trigger] tickets[i]).front_matter.status == s && query_matches(tickets[i], q)
                implies c.contains(i) by {
            if i < tickets.len() - 1 {
                assert(init[i] == tickets[i]);
                let k = choose|k: int| 0 <= k < r.len() && r[k] == i;
                assert(c[k] == i);
            } else {
                assert(c[c.len() - 1] == i);
            }
        }
        assert forall|k: int| 0 <= k < c.len() implies {
            let i = #[trigger] c[k];
            &&& 0 <= i < tickets.len()
            &&& tickets[i].front_matter.status == s
            &&& query_matches(tickets[i], q)
        } by {
            if k < r.len() {
                assert(c[k] == r[k]);
                assert(init[r[k]] == tickets[r[k]]);
            }
        }
    }
}

/// Two boards whose tickets agree on status, id and title have the same
/// columns.
proof fn lemma_column_of_same(t1: Seq<Ticket>, t2: Seq<Ticket>, s: TicketStatus, q: Seq<char>)
    requires
        t1.len() == t2.len(),
        forall|i: int| 0 <= i < t1.len() ==> {
            &&& (#[trigger] t1[i]).front_matter.status == t2[i].front_matter.status
            &&& t1[i].front_matter.id@ == t2[i].front_matter.id@
            &&& t1[i].front_matter.title@ == t2[i].front_matter.title@
        },
    ensures
        column_of(t1, s, q) == column_of(t2, s, q),
    decreases t1.len(),
{
    if t1.len() > 0 {
        assert forall|i: int| 0 <= i < t1.drop_last().len() implies {
            &&& (#[trigger] t1.drop_last()[i]).front_matter.status == t2.drop_last()[i].front_matter.status
            &&& t1.drop_last()[i].front_matter.id@ == t2.drop_last()[i].front_matter.id@
            &&& t1.drop_last()[i].front_matter.title@ == t2.drop_last()[i].front_matter.title@
        } by {
            assert(t1.drop_last()[i] == t1[i]);
            assert(t2.drop_last()[i] == t2[i]);
        }
        lemma_column_of_same(t1.drop_last(), t2.drop_last(), s, q);
        assert(t1.last() == t1[t1.len() - 1]);
        assert(t2.last() == t2[t2.len() - 1]);
    }
}

/// Searching a column by id finds the one row holding that id.
proof fn lemma_find_id_unique(tickets: Seq<Ticket>, c: Seq<int>, id: Seq<char>, from: int, k: int)
    requires
        0 <= from <= k < c.len(),
        tickets[c[k]].front_matter.id@ == id,
        forall|j: int| from <= j < c.len() && j != k ==> tickets[#[trigger] c[j]].front_matter.id@ != id,
    ensures
        find_id(tickets, c, id, from) == Some(k),
    decreases k - from,
{
    if from < k {
        lemma_find_id_unique(tickets, c, id, from + 1, k);
    }
}

/// In a column of a board with unique ids, the ticket at position `idx`
/// is found by its id at the row that holds it.
proof fn lemma_find_in_column(tickets: Seq<Ticket>, s: TicketStatus, q: Seq<char>, idx: int)
    requires
        ids_unique(tickets),
        0 <= idx < tickets.len(),
        tickets[idx].front_matter.status == s,
        query_matches(tickets[idx], q),
    ensures
        find_id(tickets, column_of(tickets, s, q), tickets[idx].front_matter.id@, 0) matches Some(k)
            && 0 <= k < column_of(tickets, s, q).len() && column_of(tickets, s, q)[k] == idx,
{
    let c = column_of(tickets, s, q);
    lemma_column_of_props(tickets, s, q);
    assert(c.contains(idx));
    let k = choose|k: int| 0 <= k < c.len() && c[k] == idx;
    assert forall|j: int| 0 <= j < c.len() && j != k implies tickets[#[trigger] c[j]].front_matter.id@
        != tickets[idx].front_matter.id@ by {
        if j < k {
            assert(c[j] < c[k]);
        } else {
            assert(c[k] < c[j]);
        }
    }
    lemma_find_id_unique(tickets, c, tickets[idx].front_matter.id@, 0, k);
}

/// Moving the focused ticket one column right and then back left, on a
/// board whose ids are unique, puts everything back as it was but the
/// ticket's update time: its status, the focused column and row.
pub proof fn lemma_move_right_then_left(
    a: App,
    b: App,
    d: App,
    c1: Cmd,
    c2: Cmd,
    t1: Timestamp,
    t2: Timestamp,
)
    requires
        a.screen == Screen::Board,
        ids_unique(a.tickets@),
        a.focused_spec() is Some,
        a.col + 1 < a.columns@.len(),
        update_post(a, b, Message::MoveTicketRight, c1, t1),
        update_post(b, d, Message::MoveTicketLeft, c2, t2),
    ensures
        ({
            let idx = a.focused_spec()->Some_0;
            &&& d.col == a.col
            &&& d.row == a.row
            &&& d.columns == a.columns
            &&& d.screen == a.screen
            &&& d.filter == a.filter
            &&& d.tickets@.len() == a.tickets@.len()
            &&& forall|j: int| 0 <= j < a.tickets@.len() && j != idx ==> d.tickets@[j] == a.tickets@[j]
            &&& restatused(a.tickets@[idx], d.tickets@[idx], a.tickets@[idx].front_matter.status, t2)
        }),
{
    let idx = a.focused_spec()->Some_0;
    let q = lowercase(a.filter@);
    let col = a.col as int;
    lemma_column_of_props(a.tickets@, a.columns@[col], q);
    let ca = a.column_spec(col);
    assert(ca[a.row as int] == idx);
    let ta = a.tickets@[idx];
    // After the move right the ticket sits in the next column, focused.
    let tb = b.tickets@[idx];
    assert(tb.front_matter.id == ta.front_matter.id && tb.front_matter.title == ta.front_matter.title);
    assert(query_matches(tb, q) == query_matches(ta, q));
    assert(ids_unique(b.tickets@)) by {
        assert forall|i: int, j: int| 0 <= i < j < b.tickets@.len() implies (#[trigger] b.tickets@[i]).front_matter.id@
            != (#[trigger] b.tickets@[j]).front_matter.id@ by {
            assert(a.tickets@[i].front_matter.id@ != a.tickets@[j].front_matter.id@);
        }
    }
    lemma_find_in_column(b.tickets@, a.columns@[col + 1], q, idx);
    assert(b.focused_spec() == Some(idx));
    // Moving it back left finds it in its first column again, at its old row.
    let td = d.tickets@[idx];
    assert(td.front_matter.status == ta.front_matter.status);
    assert(ids_unique(d.tickets@)) by {
        assert forall|i: int, j: int| 0 <= i < j < d.tickets@.len() implies (#[trigger] d.tickets@[i]).front_matter.id@
            != (#[trigger] d.tickets@[j]).front_matter.id@ by {
            assert(b.tickets@[i].front_matter.id@ != b.tickets@[j].front_matter.id@);
        }
    }
    assert(query_matches(td, q) == query_matches(ta, q));
    lemma_find_in_column(d.tickets@, a.columns@[col], q, idx);
    lemma_column_of_same(d.tickets@, a.tickets@, a.columns@[col], q);
    let cd = d.column_spec(col);
    assert(cd == ca);
    let k = d.row as int;
    assert(cd[k] == idx);
    if k != a.row as int {
        if k < a.row {
            assert(ca[k] < ca[a.row as int]);
        } else {
            assert(ca[a.row as int] < ca[k]);
        }
    }
}

/// On the filter prompt, typing a character and then Backspace gives back
/// the query the prompt had, still on the prompt.
pub proof fn lemma_type_then_backspace(
    a: App,
    b: App,
    d: App,
    c: char,
    c1: Cmd,
    c2: Cmd,
    t1: Timestamp,
    t2: Timestamp,
)
    requires
        a.screen == Screen::Filter,
        update_post(a, b, Message::FilterInput(c), c1, t1),
        update_post(b, d, Message::FilterBackspace, c2, t2),
    ensures
        d.filter@ == a.filter@,
        d.screen == Screen::Filter,
        d.tickets == a.tickets,
        d.columns == a.columns,
        d.col == a.col,
        c1 == Cmd::Nothing && c2 == Cmd::Nothing,
{
    assert(b.filter@.drop_last() =~= a.filter@);
}

} // verus!
