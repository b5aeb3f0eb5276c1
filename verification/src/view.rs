//! What the kanban board draws: the columns with their cards and scroll
//! markers, the footer, the detail box and the help box. The terminal
//! drawing itself stays outside; this module decides what goes where.
use vstd::prelude::*;

use ratatui::layout::{Constraint, Layout, Rect as TRect};
use ratatui::layout::Constraint::{Length, Min, Percentage, Ratio};
use ratatui::layout::Direction::{Horizontal, Vertical};

use crate::board::{App, Screen};
use crate::domain::{Ticket, TicketType};
use crate::text::{char_is_whitespace, is_ws, owned, push_char, push_str, utf8_len, utf8_len_of};

verus! {

// ── text wrapping ────────────────────────────────────────────────────────────

/// The words of `s` and the word being read at its end: runs of characters
/// that are not whitespace.
pub open spec fn words_fold(s: Seq<char>) -> (Seq<Seq<char>>, Seq<char>)
    decreases s.len(),
{
    if s.len() == 0 {
        (Seq::empty(), Seq::empty())
    } else {
        let (done, cur) = words_fold(s.drop_last());
        let c = s.last();
        if is_ws(c) {
            if cur.len() > 0 {
                (done.push(cur), Seq::empty())
            } else {
                (done, cur)
            }
        } else {
            (done, cur.push(c))
        }
    }
}

/// The whitespace-separated words of `s`, in order (`str::split_whitespace`).
pub open spec fn words(s: Seq<char>) -> Seq<Seq<char>> {
    let (done, cur) = words_fold(s);
    if cur.len() > 0 {
        done.push(cur)
    } else {
        done
    }
}

/// The finished lines and the line being filled after placing `ws` greedily
/// on lines of at most `width` bytes.
pub open spec fn wrap_fold(ws: Seq<Seq<char>>, width: nat) -> (Seq<Seq<char>>, Seq<char>)
    decreases ws.len(),
{
    if ws.len() == 0 {
        (Seq::empty(), Seq::empty())
    } else {
        let (lines, cur) = wrap_fold(ws.drop_last(), width);
        let w = ws.last();
        if cur.len() == 0 {
            (lines, w)
        } else if utf8_len(cur) + 1 + utf8_len(w) <= width {
            (lines, cur + " "@ + w)
        } else {
            (lines.push(cur), w)
        }
    }
}

/// The lines a card shows for `text` at `width` bytes: the words placed
/// greedily, one space apart, a word longer than the width alone on its
/// line; one empty line when there are no words; the text as it is when
/// the width is zero.
pub open spec fn wrapped(text: Seq<char>, width: nat) -> Seq<Seq<char>> {
    if width == 0 {
        seq![text]
    } else {
        let (lines, cur) = wrap_fold(words(text), width);
        let all = if cur.len() > 0 {
            lines.push(cur)
        } else {
            lines
        };
        if all.len() == 0 {
            seq![Seq::<char>::empty()]
        } else {
            all
        }
    }
}

/// The whitespace-separated words of `s`.
fn split_words(s: &str) -> (r: Vec<Vec<char>>)
    ensures
        r@.len() == words(s@).len(),
        forall|i: int| 0 <= i < r@.len() ==> #[trigger] r@[i]@ == words(s@)[i],
{
    let cs = crate::text::chars_of(s);
    let mut done: Vec<Vec<char>> = Vec::new();
    let mut cur: Vec<char> = Vec::new();
    let mut i: usize = 0;
    while i < cs.len()
        invariant
            i <= cs@.len(),
            cs@ == s@,
            done@.len() == words_fold(s@.take(i as int)).0.len(),
            forall|j: int| 0 <= j < done@.len() ==> #[trigger] done@[j]@ == words_fold(s@.take(i as int)).0[j],
            cur@ == words_fold(s@.take(i as int)).1,
        decreases cs@.len() - i,
    {
        let c = cs[i];
        proof {
            assert(s@.take(i + 1).drop_last() =~= s@.take(i as int));
            assert(s@.take(i + 1).last() == c);
        }
        if char_is_whitespace(c) {
            if cur.len() > 0 {
                let w = cur;
                done.push(w);
                cur = Vec::new();
            }
        } else {
            cur.push(c);
        }
        i = i + 1;
    }
    proof {
        assert(s@.take(i as int) =~= s@);
    }
    if cur.len() > 0 {
        done.push(cur);
    }
    done
}

/// The lines of `text` at `width` bytes (see `wrapped`).
pub fn wrap_text(text: &str, width: usize) -> (r: Vec<String>)
    ensures
        r@.len() == wrapped(text@, width as nat).len(),
        forall|i: int| 0 <= i < r@.len() ==> #[trigger] r@[i]@ == wrapped(text@, width as nat)[i],
{
    if width == 0 {
        let mut r: Vec<String> = Vec::new();
        r.push(owned(text));
        return r;
    }
    let ws = split_words(text);
    let ghost wsv = words(text@);
    let mut lines: Vec<String> = Vec::new();
    let mut cur = String::new();
    let mut cur_len: u128 = 0;
    proof {
        assert(wsv.take(0) =~= Seq::<Seq<char>>::empty());
    }
    let mut i: usize = 0;
    while i < ws.len()
        invariant
            i <= ws@.len(),
            width > 0,
            ws@.len() == wsv.len(),
            forall|j: int| 0 <= j < ws@.len() ==> #[trigger] ws@[j]@ == wsv[j],
            lines@.len() == wrap_fold(wsv.take(i as int), width as nat).0.len(),
            forall|j: int| 0 <= j < lines@.len() ==> #[trigger] lines@[j]@ == wrap_fold(wsv.take(i as int), width as nat).0[j],
            cur@ == wrap_fold(wsv.take(i as int), width as nat).1,
            cur_len == utf8_len(cur@),
            cur_len <= 4 * (usize::MAX as u128),
        decreases ws@.len() - i,
    {
        let w = &ws[i];
        let wl = utf8_len_of(w);
        proof {
            crate::text::lemma_utf8_len_bound(w@);
            assert(w@.len() == w.len());
        }
        proof {
            assert(wsv.take(i + 1).drop_last() =~= wsv.take(i as int));
            assert(wsv.take(i + 1).last() == w@);
        }
        proof {
            crate::text::lemma_utf8_len_lower(cur@);
        }
        if cur_len == 0 {
            cur = crate::text::string_from_chars(w);
            cur_len = wl;
        } else if cur_len + 1 + wl <= width as u128 {
            let ghost before = cur@;
            let mut sp_v: Vec<char> = Vec::new();
            sp_v.push(' ');
            let sp = utf8_len_of(&sp_v);
            proof {
                crate::text::lemma_utf8_len_bound(sp_v@);
                assert(sp_v@ =~= seq![' ']);
            }
            push_char(&mut cur, ' ');
            crate::text::push_chars(&mut cur, w);
            proof {
                reveal_strlit(" ");
                crate::text::lemma_utf8_len_append(before, seq![' ']);
                crate::text::lemma_utf8_len_append(before + seq![' '], w@);

                assert(cur@ =~= before + seq![' '] + w@);
                assert(seq![' '] =~= " "@);
            }
            cur_len = cur_len + sp + wl;
        } else {
            lines.push(cur);
            cur = crate::text::string_from_chars(w);
            cur_len = wl;
        }
        i = i + 1;
    }
    proof {
        assert(wsv.take(i as int) =~= wsv);
    }
    proof {
        crate::text::lemma_utf8_len_lower(cur@);
    }
    if cur_len > 0 {
        lines.push(cur);
    }
    if lines.len() == 0 {
        lines.push(String::new());
    }
    lines
}


// ── cards ────────────────────────────────────────────────────────────────────

/// `a - b`, or 0 when `b` is larger.
pub open spec fn sat_sub(a: int, b: int) -> int {
    if a >= b {
        a - b
    } else {
        0
    }
}

/// The rows a card takes: its top and bottom border and its title lines
/// (at most `u16::MAX`).
pub open spec fn card_height(title: Seq<char>, text_width: nat) -> nat {
    let h = 2 + wrapped(title, text_width).len();
    if h > 65535 {
        65535
    } else {
        h
    }
}

/// The heights of the cards of a column: the tickets at positions `idx`.
pub open spec fn card_heights(tickets: Seq<Ticket>, idx: Seq<int>, text_width: nat) -> Seq<nat> {
    Seq::new(idx.len(), |i: int| card_height(tickets[idx[i]].front_matter.title@, text_width))
}

/// Going up from card `s` with `rem` rows left, the first card that still
/// fits.
pub open spec fn back_fill(hs: Seq<nat>, s: int, rem: int) -> int
    decreases s,
{
    if s <= 0 {
        0
    } else if hs[s - 1] > rem {
        s
    } else {
        back_fill(hs, s - 1, rem - hs[s - 1])
    }
}

/// The first card shown so that card `target` is the lowest visible one,
/// with as many cards above it as fit in `height` rows (0 when there is no
/// such card; `target` itself when it alone fills the height).
pub open spec fn scroll_spec(hs: Seq<nat>, target: int, height: int) -> int {
    if hs.len() == 0 || target >= hs.len() {
        0
    } else if hs[target] >= height {
        target
    } else {
        back_fill(hs, target, height - hs[target])
    }
}

/// How many cards from `start` on fit one below the other in `room` rows.
pub open spec fn fit_count(hs: Seq<nat>, start: int, room: int) -> nat
    decreases hs.len() - start,
{
    if start < 0 || start >= hs.len() {
        0
    } else if hs[start] > room {
        0
    } else {
        1 + fit_count(hs, start + 1, room - hs[start])
    }
}

/// The rows taken by the `k` cards from `start` on.
pub open spec fn rows_of(hs: Seq<nat>, start: int, k: int) -> int
    decreases k,
{
    if k <= 0 {
        0
    } else {
        rows_of(hs, start, k - 1) + hs[start + k - 1]
    }
}

/// The marker after a column's name: `↕`, `↑` or `↓` when cards are hidden
/// above, below or both.
pub open spec fn scroll_marker(above: bool, below: bool) -> Seq<char> {
    if above && below {
        " ↕"@
    } else if above {
        " ↑"@
    } else if below {
        " ↓"@
    } else {
        ""@
    }
}

/// The rows a card takes for this ticket at `text_width` (see
/// `card_height`).
fn card_rows(t: &Ticket, text_width: usize) -> (r: u16)
    ensures
        r == card_height(t.front_matter.title@, text_width as nat),
{
    let lines = wrap_text(t.front_matter.title.as_str(), text_width);
    let n = lines.len();
    if n > 65533 {
        65535
    } else {
        2 + n as u16
    }
}

/// The first card to show in a column of the board so that the card at
/// `target_row` is the lowest visible one, with as many cards above it as
/// fit (see `scroll_spec`).
pub fn scroll_for_row(indices: &Vec<usize>, app: &App, target_row: usize, area: Rect) -> (r: usize)
    requires
        forall|i: int| 0 <= i < indices@.len() ==> (#[trigger] indices@[i]) < app.tickets@.len(),
    ensures
        r == scroll_spec(
            card_heights(app.tickets@, Seq::new(indices@.len(), |i: int| indices@[i] as int), sat_sub(area.width as int, 2) as nat),
            target_row as int,
            area.height as int,
        ),
{
    let ghost idx = Seq::new(indices@.len(), |i: int| indices@[i] as int);
    let text_width: usize = if area.width >= 2 { (area.width - 2) as usize } else { 0 };
    let ghost hs = card_heights(app.tickets@, idx, text_width as nat);
    proof {
        assert(text_width as nat == sat_sub(area.width as int, 2) as nat);
        assert(hs =~= card_heights(app.tickets@, Seq::new(indices@.len(), |i: int| indices@[i] as int), sat_sub(area.width as int, 2) as nat));
    }
    if indices.len() == 0 || target_row >= indices.len() {
        return 0;
    }
    let focused_h = card_rows(&app.tickets[indices[target_row]], text_width);
    assert(focused_h == hs[target_row as int]);
    if focused_h >= area.height {
        return target_row;
    }
    let mut remaining: u16 = area.height - focused_h;
    let mut scroll: usize = target_row;
    while scroll > 0
        invariant
            scroll <= target_row < indices@.len(),
            forall|i: int| 0 <= i < indices@.len() ==> (#[trigger] indices@[i]) < app.tickets@.len(),
            idx == Seq::new(indices@.len(), |i: int| indices@[i] as int),
            hs == card_heights(app.tickets@, idx, text_width as nat),
            hs[target_row as int] < area.height,
            hs =~= card_heights(app.tickets@, Seq::new(indices@.len(), |i: int| indices@[i] as int), sat_sub(area.width as int, 2) as nat),
            back_fill(hs, scroll as int, remaining as int) == back_fill(hs, target_row as int, area.height - hs[target_row as int]),
        decreases scroll,
    {
        let h = card_rows(&app.tickets[indices[scroll - 1]], text_width);
        assert(h == hs[scroll - 1]);
        if h > remaining {
            proof {
                assert(hs[scroll - 1] > remaining);
                assert(back_fill(hs, scroll as int, remaining as int) == scroll as int);
                assert(hs[target_row as int] < area.height);
            }
            return scroll;
        }
        remaining = remaining - h;
        scroll = scroll - 1;
    }
    scroll
}

/// The colour of a tag's label on a card.
#[derive(Clone, Copy, Debug, PartialEq, Eq, Structural)]
pub enum TagColor {
    Cyan,
    Green,
    Yellow,
    Magenta,
    LightBlue,
    LightGreen,
    LightYellow,
    LightMagenta,
}

/// The FNV-1a hash (64 bits) of the bytes.
pub open spec fn fnv1a(bytes: Seq<u8>) -> u64
    decreases bytes.len(),
{
    if bytes.len() == 0 {
        14695981039346656037u64
    } else {
        (fnv1a(bytes.drop_last()) ^ (bytes.last() as u64)).wrapping_mul(1099511628211u64)
    }
}

/// The colour at position `i` of the palette.
pub open spec fn palette(i: int) -> TagColor {
    if i == 0 {
        TagColor::Cyan
    } else if i == 1 {
        TagColor::Green
    } else if i == 2 {
        TagColor::Yellow
    } else if i == 3 {
        TagColor::Magenta
    } else if i == 4 {
        TagColor::LightBlue
    } else if i == 5 {
        TagColor::LightGreen
    } else if i == 6 {
        TagColor::LightYellow
    } else {
        TagColor::LightMagenta
    }
}

/// The colour of a tag: the FNV-1a hash of its UTF-8 bytes picks one of
/// eight colours, so a tag always gets the same one.
pub fn tag_color(tag: &str) -> (r: TagColor)
    ensures
        r == palette((fnv1a(vstd::utf8::encode_utf8(tag@)) % 8) as int),
{
    let bytes = tag.as_bytes();
    let mut hash: u64 = 14695981039346656037u64;
    let mut i: usize = 0;
    while i < bytes.len()
        invariant
            i <= bytes@.len(),
            bytes@ == vstd::utf8::encode_utf8(tag@),
            hash == fnv1a(bytes@.take(i as int)),
        decreases bytes@.len() - i,
    {
        proof {
            assert(bytes@.take(i + 1).drop_last() =~= bytes@.take(i as int));
            assert(bytes@.take(i + 1).last() == bytes@[i as int]);
        }
        hash = (hash ^ (bytes[i] as u64)).wrapping_mul(1099511628211u64);
        i = i + 1;
    }
    proof {
        assert(bytes@.take(i as int) =~= bytes@);
    }
    let k = hash % 8;
    if k == 0 {
        TagColor::Cyan
    } else if k == 1 {
        TagColor::Green
    } else if k == 2 {
        TagColor::Yellow
    } else if k == 3 {
        TagColor::Magenta
    } else if k == 4 {
        TagColor::LightBlue
    } else if k == 5 {
        TagColor::LightGreen
    } else if k == 6 {
        TagColor::LightYellow
    } else {
        TagColor::LightMagenta
    }
}

/// The emoji at the top of a card, by type.
pub open spec fn card_emoji_spec(t: TicketType) -> Seq<char> {
    match t {
        TicketType::Epic => "🌟"@,
        TicketType::Story => "📖"@,
        TicketType::Task => "📋"@,
        TicketType::Bug => "🐛"@,
    }
}

/// The emoji at the top of a card for this type.
pub fn card_emoji(t: TicketType) -> (r: &'static str)
    ensures
        r@ == card_emoji_spec(t),
{
    match t {
        TicketType::Epic => "🌟",
        TicketType::Story => "📖",
        TicketType::Task => "📋",
        TicketType::Bug => "🐛",
    }
}

// ── footer ───────────────────────────────────────────────────────────────────

/// The footer's usual key hint.
pub open spec fn default_footer_hint() -> Seq<char> {
    "h/l col j/k row H/L mv y copy Enter view e edit n new / filter ? help q quit"@
}

/// The footer: a fresh flash message first, else the filter prompt while it
/// is open, else the active filter, else the key hint.
pub open spec fn footer_spec(app: App, flash_fresh: bool) -> Seq<char> {
    if flash_fresh && app.flash is Some {
        app.flash->Some_0@
    } else if app.screen == Screen::Filter {
        "/"@ + app.filter@
    } else if app.filter@.len() > 0 {
        "filter: \""@ + app.filter@ + "\"  (Esc clears)"@
    } else {
        default_footer_hint()
    }
}

/// The footer's text; `flash_fresh` says whether the flash message is recent
/// enough to show.
pub fn footer_text(app: &App, flash_fresh: bool) -> (r: String)
    ensures
        r@ == footer_spec(*app, flash_fresh),
{
    if flash_fresh {
        match &app.flash {
            Some(m) => {
                return owned(m.as_str());
            },
            None => {},
        }
    }
    if app.screen == Screen::Filter {
        let mut r = owned("/");
        push_str(&mut r, app.filter.as_str());
        r
    } else if crate::text::chars_of(app.filter.as_str()).len() > 0 {
        let mut r = owned("filter: \"");
        push_str(&mut r, app.filter.as_str());
        push_str(&mut r, "\"  (Esc clears)");
        r
    } else {
        owned("h/l col j/k row H/L mv y copy Enter view e edit n new / filter ? help q quit")
    }
}

// ── layout ───────────────────────────────────────────────────────────────────

/// A rectangle of the terminal, in cells.
#[derive(Clone, Copy, Debug, PartialEq, Eq, Structural)]
pub struct Rect {
    pub x: u16,
    pub y: u16,
    pub width: u16,
    pub height: u16,
}

/// The direction a layout splits an area in.
#[derive(Clone, Copy, Debug, PartialEq, Eq, Structural)]
pub enum Axis {
    /// One part above the other.
    Vertical,
    /// One part beside the other.
    Horizontal,
}

/// The size rule of one part of a layout, as ratatui's `Constraint` has it.
#[derive(Clone, Copy, Debug, PartialEq, Eq, Structural)]
pub enum Part {
    /// At least this many cells.
    Min(u16),
    /// Exactly this many cells.
    Length(u16),
    /// This percentage of the area.
    Percentage(u16),
    /// This fraction of the area.
    Ratio(u32, u32),
}

/// The areas ratatui's `Layout::split` gives `area` split along `axis`
/// by the rules `parts`, one area per rule.
pub uninterp spec fn layout_parts(area: Rect, axis: Axis, parts: Seq<Part>) -> Seq<Rect>;

/// Splits `area` along `axis` with ratatui's `Layout` (no margin, no
/// spacing), one area per rule, as `Layout::split` documents. ratatui's
/// constraint solver is not restated; the result is named by
/// `layout_parts`.
#[verifier::external_body]
fn split(area: Rect, axis: Axis, parts: &Vec<Part>) -> (r: Vec<Rect>)
    requires
        forall|i: int| 0 <= i < parts@.len() ==> (#[trigger] parts@[i] matches Part::Ratio(_, d) ==> d > 0),
    ensures
        r@ == layout_parts(area, axis, parts@),
        r@.len() == parts@.len(),
{
    let a = TRect { x: area.x, y: area.y, width: area.width, height: area.height };
    let cs: Vec<Constraint> = parts.iter().map(|p| match *p {
        Part::Min(v) => Min(v),
        Part::Length(v) => Length(v),
        Part::Percentage(v) => Percentage(v),
        Part::Ratio(n, d) => Ratio(n, d),
    }).collect();
    let dir = match axis { Axis::Vertical => Vertical, Axis::Horizontal => Horizontal };
    let rs = Layout::default().direction(dir).constraints(cs).split(a);
    rs.iter().map(|q| Rect { x: q.x, y: q.y, width: q.width, height: q.height }).collect()
}

/// The board above the footer row: `area` split vertically into the rest
/// (`Min(0)`) and a last row (`Length(1)`).
pub open spec fn footer_split(area: Rect) -> (Rect, Rect) {
    let p = layout_parts(area, Axis::Vertical, seq![Part::Min(0), Part::Length(1)]);
    (p[0], p[1])
}

/// `area` split horizontally into `n` parts of equal ratio.
pub open spec fn column_split(area: Rect, n: u32) -> Seq<Rect> {
    layout_parts(area, Axis::Horizontal, Seq::new(n as nat, |i: int| Part::Ratio(1, n)))
}

/// The percentages `(100 - p) / 2`, `p`, `(100 - p) / 2`.
pub open spec fn thirds(p: u16) -> Seq<Part> {
    seq![Part::Percentage(((100 - p) / 2) as u16), Part::Percentage(p), Part::Percentage(((100 - p) / 2) as u16)]
}

/// The middle of `area` at `px`% of its width and `py`% of its height: the
/// middle of three percentage parts vertically, then of three horizontally.
pub open spec fn centered_area(px: u16, py: u16, area: Rect) -> Rect {
    layout_parts(layout_parts(area, Axis::Vertical, thirds(py))[1], Axis::Horizontal, thirds(px))[1]
}

/// Splits `area` into the board and the footer row.
fn split_footer(area: Rect) -> (r: (Rect, Rect))
    ensures
        r == footer_split(area),
{
    let mut parts: Vec<Part> = Vec::new();
    parts.push(Part::Min(0));
    parts.push(Part::Length(1));
    assert(parts@ =~= seq![Part::Min(0), Part::Length(1)]);
    let rs = split(area, Axis::Vertical, &parts);
    (rs[0], rs[1])
}

/// Splits `area` into `n` columns of equal ratio.
fn split_columns(area: Rect, n: u32) -> (r: Vec<Rect>)
    requires
        n > 0,
    ensures
        r@ == column_split(area, n),
        r@.len() == n,
{
    let mut parts: Vec<Part> = Vec::new();
    let mut i: u32 = 0;
    while i < n
        invariant
            i <= n,
            parts@ =~= Seq::new(i as nat, |k: int| Part::Ratio(1, n)),
        decreases n - i,
    {
        parts.push(Part::Ratio(1, n));
        i = i + 1;
    }
    split(area, Axis::Horizontal, &parts)
}

/// The three percentage parts `(100 - p) / 2`, `p`, `(100 - p) / 2`.
fn thirds_of(p: u16) -> (r: Vec<Part>)
    requires
        p <= 100,
    ensures
        r@ == thirds(p),
{
    let side = (100 - p) / 2;
    let mut r: Vec<Part> = Vec::new();
    r.push(Part::Percentage(side));
    r.push(Part::Percentage(p));
    r.push(Part::Percentage(side));
    assert(r@ =~= thirds(p));
    r
}

/// The middle of `area` at `px`% by `py`%: the middle of three percentage
/// parts each way (see `centered_area`).
fn centered_rect(px: u16, py: u16, area: Rect) -> (r: Rect)
    requires
        px <= 100,
        py <= 100,
    ensures
        r == centered_area(px, py, area),
{
    let rows = split(area, Axis::Vertical, &thirds_of(py));
    let cols = split(rows[1], Axis::Horizontal, &thirds_of(px));
    cols[1]
}

/// A box of `width` by `height` centred in `r`, each side clamped to `r`'s.
pub open spec fn centered_fixed_spec(width: u16, height: u16, r: Rect) -> Rect {
    let w = if width < r.width { width } else { r.width };
    let h = if height < r.height { height } else { r.height };
    Rect { x: (r.x + (r.width - w) / 2) as u16, y: (r.y + (r.height - h) / 2) as u16, width: w, height: h }
}

/// Centres a box of exactly `width` by `height` in `r`, clamping both to
/// `r` so that the box never leaves it.
pub fn centered_rect_fixed(width: u16, height: u16, r: Rect) -> (out: Rect)
    requires
        r.x + r.width <= u16::MAX,
        r.y + r.height <= u16::MAX,
    ensures
        out == centered_fixed_spec(width, height, r),
{
    let w = if width < r.width { width } else { r.width };
    let h = if height < r.height { height } else { r.height };
    let x = r.x + (r.width - w) / 2;
    let y = r.y + (r.height - h) / 2;
    Rect { x, y, width: w, height: h }
}


// ── board ────────────────────────────────────────────────────────────────────

/// A tag on a card: `#<tag>` in the tag's colour.
pub struct TagLabel {
    pub text: String,
    pub color: TagColor,
}

/// A card to draw: its area, the ticket (by position in `App::tickets`),
/// whether it has the focus, the type emoji and id at its top, its tags at
/// its bottom and its title lines.
pub struct CardPlan {
    pub area: Rect,
    pub ticket: usize,
    pub focused: bool,
    pub emoji: String,
    pub id: String,
    pub tags: Vec<TagLabel>,
    pub lines: Vec<String>,
}

/// A column to draw: its label and where it goes, whether it has the focus,
/// and its visible cards.
pub struct ColumnPlan {
    pub label: String,
    pub label_area: Rect,
    pub focused: bool,
    pub cards: Vec<CardPlan>,
}

/// The board to draw: its columns and the footer line.
pub struct BoardPlan {
    pub columns: Vec<ColumnPlan>,
    pub footer: String,
    pub footer_area: Rect,
}

/// `a + b` in `u16`, stopping at `u16::MAX`.
pub open spec fn sat_add16(a: u16, b: u16) -> u16 {
    if a + b > 65535 {
        65535
    } else {
        (a + b) as u16
    }
}

/// Where a column's cards go: below its label row.
pub open spec fn cards_area_of(chunk: Rect) -> Rect {
    Rect { x: chunk.x, y: sat_add16(chunk.y, 1), width: chunk.width, height: sat_sub(chunk.height as int, 1) as u16 }
}

/// The `#<tag>` labels of a card, each in its tag's colour.
pub open spec fn tag_labels_ok(labels: Seq<TagLabel>, tags: Seq<crate::domain::Tag>) -> bool {
    &&& labels.len() == tags.len()
    &&& forall|i: int| 0 <= i < tags.len() ==> (#[trigger] labels[i]).text@ == "#"@ + tags[i]@
        && labels[i].color == palette((fnv1a(vstd::utf8::encode_utf8(tags[i]@)) % 8) as int)
}

/// The `k`-th visible card of a column is drawn right: the column's cards
/// are the tickets at `idx` with heights `hs`, shown from `start`, in the
/// area `inner`, the title wrapped at `tw`.
pub open spec fn card_ok(
    app: App,
    card: CardPlan,
    focused_col: bool,
    idx: Seq<int>,
    hs: Seq<nat>,
    inner: Rect,
    tw: nat,
    start: int,
    k: int,
) -> bool {
    let i = start + k;
    let t = app.tickets@[idx[i]];
    &&& card.ticket == idx[i]
    &&& card.area == Rect { x: inner.x, y: (inner.y + rows_of(hs, start, k)) as u16, width: inner.width, height: hs[i] as u16 }
    &&& card.focused == (focused_col && i == app.row)
    &&& card.emoji@ == card_emoji_spec(t.front_matter.ticket_type)
    &&& card.id@ == t.front_matter.id@
    &&& tag_labels_ok(card.tags@, t.front_matter.tags@)
    &&& card.lines@.len() == wrapped(t.front_matter.title@, tw).len()
    &&& forall|j: int| 0 <= j < card.lines@.len() ==> #[trigger] card.lines@[j]@ == wrapped(t.front_matter.title@, tw)[j]
}

/// Column `c` of the board is drawn right in `chunk`: the label (status and
/// scroll marker) on its first row, and as many cards as fit below it,
/// starting where the focused card is the lowest visible one in the
/// focused column and from the top elsewhere.
pub open spec fn column_ok(app: App, col: ColumnPlan, c: int, chunk: Rect) -> bool {
    let idx = app.column_spec(c);
    let inner = cards_area_of(chunk);
    let tw = sat_sub(inner.width as int, 2) as nat;
    let hs = card_heights(app.tickets@, idx, tw);
    let focused = c == app.col;
    let scroll = if focused { scroll_spec(hs, app.row as int, inner.height as int) } else { 0 };
    let start = if scroll < idx.len() { scroll } else { idx.len() as int };
    let room = sat_add16(inner.y, inner.height) - inner.y;
    let shown = fit_count(hs, start, room);
    &&& col.focused == focused
    &&& col.label_area == Rect { x: chunk.x, y: chunk.y, width: chunk.width, height: 1 }
    &&& col.label@ == app.columns@[c].label() + scroll_marker(scroll > 0, scroll + shown < idx.len())
    &&& col.cards@.len() == shown
    &&& forall|k: int| 0 <= k < shown ==> card_ok(app, #[trigger] col.cards@[k], focused, idx, hs, inner, tw, start, k)
}

/// The `#<tag>` labels of the tags.
fn tag_labels(tags: &Vec<crate::domain::Tag>) -> (r: Vec<TagLabel>)
    ensures
        tag_labels_ok(r@, tags@),
{
    let mut r: Vec<TagLabel> = Vec::new();
    let mut i: usize = 0;
    while i < tags.len()
        invariant
            i <= tags@.len(),
            r@.len() == i,
            forall|j: int| 0 <= j < i ==> (#[trigger] r@[j]).text@ == "#"@ + tags@[j]@
                && r@[j].color == palette((fnv1a(vstd::utf8::encode_utf8(tags@[j]@)) % 8) as int),
        decreases tags@.len() - i,
    {
        let mut text = owned("#");
        push_str(&mut text, tags[i].as_str());
        let color = tag_color(tags[i].as_str());
        r.push(TagLabel { text, color });
        i = i + 1;
    }
    r
}

/// The cards of one column that fit in `inner`, from `scroll` on; with how
/// many there are.
fn column_cards(app: &App, idx: &Vec<usize>, inner: Rect, scroll: usize, focused_col: bool) -> (r: Vec<CardPlan>)
    requires
        forall|i: int| 0 <= i < idx@.len() ==> (#[trigger] idx@[i]) < app.tickets@.len(),
    ensures
        ({
            let ix = Seq::new(idx@.len(), |i: int| idx@[i] as int);
            let tw = sat_sub(inner.width as int, 2) as nat;
            let hs = card_heights(app.tickets@, ix, tw);
            let start = if scroll < idx@.len() { scroll as int } else { idx@.len() as int };
            let room = sat_add16(inner.y, inner.height) - inner.y;
            &&& r@.len() == fit_count(hs, start, room)
            &&& forall|k: int| 0 <= k < r@.len() ==> card_ok(*app, #[trigger] r@[k], focused_col, ix, hs, inner, tw, start, k)
        }),
{
    let ghost ix = Seq::new(idx@.len(), |i: int| idx@[i] as int);
    let tw: usize = if inner.width >= 2 { (inner.width - 2) as usize } else { 0 };
    let ghost hs = card_heights(app.tickets@, ix, tw as nat);
    proof {
        assert(tw as nat == sat_sub(inner.width as int, 2) as nat);
    }
    let total = idx.len();
    let start = if scroll < total { scroll } else { total };
    let max_y: u16 = if inner.y as u32 + inner.height as u32 > 65535 { 65535 } else { inner.y + inner.height };
    let ghost room = max_y - inner.y;
    let mut y: u16 = inner.y;
    let mut cards: Vec<CardPlan> = Vec::new();
    let mut k: usize = start;
    while k < total
        invariant
            start <= k <= total,
            total == idx@.len(),
            forall|i: int| 0 <= i < idx@.len() ==> (#[trigger] idx@[i]) < app.tickets@.len(),
            ix == Seq::new(idx@.len(), |i: int| idx@[i] as int),
            hs == card_heights(app.tickets@, ix, tw as nat),
            tw as nat == sat_sub(inner.width as int, 2) as nat,
            max_y == sat_add16(inner.y, inner.height),
            room == max_y - inner.y,
            inner.y <= y <= max_y,
            y == inner.y + rows_of(hs, start as int, k - start),
            cards@.len() == k - start,
            fit_count(hs, start as int, room) == (k - start) + fit_count(hs, k as int, room - rows_of(hs, start as int, k - start)),
            forall|q: int| 0 <= q < cards@.len() ==> card_ok(*app, #[trigger] cards@[q], focused_col, ix, hs, inner, tw as nat, start as int, q),
        ensures
            cards@.len() == fit_count(hs, start as int, room),
            forall|q: int| 0 <= q < cards@.len() ==> card_ok(*app, #[trigger] cards@[q], focused_col, ix, hs, inner, tw as nat, start as int, q),
        decreases total - k,
    {
        let ti = idx[k];
        let t = &app.tickets[ti];
        let lines = wrap_text(t.front_matter.title.as_str(), tw);
        let n = lines.len();
        let h: u16 = if n > 65533 { 65535 } else { 2 + n as u16 };
        proof {
            assert(h == hs[k as int]);
        }
        if y as u32 + h as u32 > max_y as u32 {
            proof {
                assert(fit_count(hs, k as int, room - rows_of(hs, start as int, k - start)) == 0);
            }
            break;
        }
        let area = Rect { x: inner.x, y, width: inner.width, height: h };
        let emoji = owned(card_emoji(t.front_matter.ticket_type));
        let id = t.front_matter.id.to_string();
        let tags = tag_labels(&t.front_matter.tags);
        let focused = focused_col && k == app.row;
        let ghost before = cards@;
        cards.push(CardPlan { area, ticket: ti, focused, emoji, id, tags, lines });
        proof {
            assert(rows_of(hs, start as int, k + 1 - start) == rows_of(hs, start as int, k - start) + hs[k as int]);
            assert forall|q: int| 0 <= q < cards@.len() implies card_ok(*app, #[trigger] cards@[q], focused_col, ix, hs, inner, tw as nat, start as int, q) by {
                if q < before.len() {
                    assert(cards@[q] == before[q]);
                }
            }
        }
        y = y + h;
        k = k + 1;
    }
    cards
}


/// Plans column `c` in `chunk` (see `column_ok`).
fn column_plan(app: &App, c: usize, chunk: Rect) -> (r: ColumnPlan)
    requires
        c < app.columns@.len(),
    ensures
        column_ok(*app, r, c as int, chunk),
{
    let idx = app.col_indices(c);
    let ghost ix = Seq::new(idx@.len(), |i: int| idx@[i] as int);
    proof {
        assert(ix =~= app.column_spec(c as int));
    }
    let y1: u16 = if chunk.y < 65535 { chunk.y + 1 } else { 65535 };
    let h1: u16 = if chunk.height >= 1 { chunk.height - 1 } else { 0 };
    let inner = Rect { x: chunk.x, y: y1, width: chunk.width, height: h1 };
    proof {
        assert(inner == cards_area_of(chunk));
    }
    let focused = c == app.col;
    let scroll = if focused { scroll_for_row(&idx, app, app.row, inner) } else { 0 };
    let cards = column_cards(app, &idx, inner, scroll, focused);
    let shown = cards.len();
    let total = idx.len();
    let above = scroll > 0;
    let below = scroll <= total && shown < total - scroll;
    let mut label = app.columns[c].to_string();
    if above && below {
        push_str(&mut label, " ↕");
    } else if above {
        push_str(&mut label, " ↑");
    } else if below {
        push_str(&mut label, " ↓");
    } else {
        proof {
            reveal_strlit("");
            assert(label@ =~= label@ + ""@);
        }
    }
    let label_area = Rect { x: chunk.x, y: chunk.y, width: chunk.width, height: 1 };
    ColumnPlan { label, label_area, focused, cards }
}

/// What the board draws on a terminal area `frame`: one column per
/// configured status, side by side above the footer row, and the footer
/// text (`flash_fresh` says whether the flash message is still recent).
/// Nothing is drawn without columns.
pub fn board_plan(app: &App, frame: Rect, flash_fresh: bool) -> (r: Option<BoardPlan>)
    requires
        app.columns@.len() <= u32::MAX,
    ensures
        app.columns@.len() == 0 ==> r is None,
        app.columns@.len() > 0 ==> (r matches Some(p) && ({
            let board = footer_split(frame).0;
            let chunks = column_split(board, app.columns@.len() as u32);
            &&& p.footer@ == footer_spec(*app, flash_fresh)
            &&& p.footer_area == footer_split(frame).1
            &&& p.columns@.len() == app.columns@.len()
            &&& forall|c: int| 0 <= c < p.columns@.len() ==> column_ok(*app, #[trigger] p.columns@[c], c, chunks[c])
        })),
{
    let n = app.columns.len();
    if n == 0 {
        return None;
    }
    let (board, footer_area) = split_footer(frame);
    let chunks = split_columns(board, n as u32);
    let mut columns: Vec<ColumnPlan> = Vec::new();
    let mut c: usize = 0;
    while c < n
        invariant
            n == app.columns@.len(),
            c <= n,
            chunks@.len() == n,
            columns@.len() == c,
            forall|q: int| 0 <= q < c ==> column_ok(*app, #[trigger] columns@[q], q, chunks@[q]),
        decreases n - c,
    {
        let col = column_plan(app, c, chunks[c]);
        columns.push(col);
        c = c + 1;
    }
    let footer = footer_text(app, flash_fresh);
    Some(BoardPlan { columns, footer, footer_area })
}


// ── detail ───────────────────────────────────────────────────────────────────

/// `s` without one trailing carriage return.
pub open spec fn strip_cr(s: Seq<char>) -> Seq<char> {
    if s.len() > 0 && s.last() == '\r' {
        s.drop_last()
    } else {
        s
    }
}

/// The finished lines of `s` and the line being read at its end, split at
/// `\n`, each finished line without a trailing `\r`.
pub open spec fn lines_fold(s: Seq<char>) -> (Seq<Seq<char>>, Seq<char>)
    decreases s.len(),
{
    if s.len() == 0 {
        (Seq::empty(), Seq::empty())
    } else {
        let (done, cur) = lines_fold(s.drop_last());
        if s.last() == '\n' {
            (done.push(strip_cr(cur)), Seq::empty())
        } else {
            (done, cur.push(s.last()))
        }
    }
}

/// The lines of `s` as `str::lines` gives them: split at `\n` (a `\r`
/// before it dropped), the last line kept only when it is not empty.
pub open spec fn text_lines(s: Seq<char>) -> Seq<Seq<char>> {
    let (done, cur) = lines_fold(s);
    if cur.len() > 0 {
        done.push(cur)
    } else {
        done
    }
}

/// The lines of `s` (see `text_lines`).
pub fn split_lines(s: &str) -> (r: Vec<String>)
    ensures
        r@.len() == text_lines(s@).len(),
        forall|i: int| 0 <= i < r@.len() ==> #[trigger] r@[i]@ == text_lines(s@)[i],
{
    let cs = crate::text::chars_of(s);
    let mut done: Vec<String> = Vec::new();
    let mut cur: Vec<char> = Vec::new();
    let mut i: usize = 0;
    while i < cs.len()
        invariant
            i <= cs@.len(),
            cs@ == s@,
            done@.len() == lines_fold(s@.take(i as int)).0.len(),
            forall|j: int| 0 <= j < done@.len() ==> #[trigger] done@[j]@ == lines_fold(s@.take(i as int)).0[j],
            cur@ == lines_fold(s@.take(i as int)).1,
        decreases cs@.len() - i,
    {
        let c = cs[i];
        proof {
            assert(s@.take(i + 1).drop_last() =~= s@.take(i as int));
            assert(s@.take(i + 1).last() == c);
        }
        if c == '\n' {
            let n = cur.len();
            if n > 0 && cur[n - 1] == '\r' {
                let ghost before = cur@;
                cur.pop();
                assert(cur@ =~= before.drop_last());
            }
            done.push(crate::text::string_from_chars(&cur));
            cur = Vec::new();
        } else {
            cur.push(c);
        }
        i = i + 1;
    }
    proof {
        assert(s@.take(i as int) =~= s@);
    }
    if cur.len() > 0 {
        done.push(crate::text::string_from_chars(&cur));
    }
    done
}

/// The detail box to draw: its area, its lines, and the dimmed marker line
/// that ends them when the body did not fit.
pub struct DetailPlan {
    pub area: Rect,
    pub lines: Vec<String>,
    pub marker: Option<String>,
}

/// The field lines at the top of the detail box, given the formatted
/// creation and update dates.
pub open spec fn detail_header(t: Ticket, created: Seq<char>, updated: Seq<char>) -> Seq<Seq<char>> {
    let fm = t.front_matter;
    seq!["ID:      "@ + fm.id@, "Title:   "@ + fm.title@, "Status:  "@ + fm.status.label(), "Type:    "@ + fm.ticket_type.label()]
        + (if fm.tags@.len() > 0 {
        seq!["Tags:    "@ + crate::text::comma_joined(crate::commands::tag_list_texts(fm.tags@))]
    } else {
        Seq::empty()
    }) + (match fm.parent {
        Some(p) => seq!["Parent:  "@ + p@],
        None => Seq::empty(),
    }) + (if fm.blocked_by@.len() > 0 {
        seq!["Blocked: "@ + crate::text::comma_joined(crate::commands::id_list_texts(fm.blocked_by@))]
    } else {
        Seq::empty()
    }) + seq!["Created: "@ + created, "Updated: "@ + updated]
}

/// The body lines of the detail box: none for an empty body, else an empty
/// line and then the body's lines.
pub open spec fn detail_body(t: Ticket) -> Seq<Seq<char>> {
    if t.body@.len() == 0 {
        Seq::empty()
    } else {
        seq![Seq::<char>::empty()] + text_lines(t.body@)
    }
}

/// `… <n> more line(s) — press e to open`.
pub open spec fn hidden_marker(n: nat) -> Seq<char> {
    "… "@ + crate::text::decimal(n) + " more line"@ + crate::commands::plural_s(n as int) + " — press e to open"@
}

/// What the detail box of the focused ticket shows in `area`: the header,
/// then the body; when they do not fit in the box (its height less the two
/// borders), as many body lines as leave one row for a marker naming how
/// many lines are hidden.
pub open spec fn detail_ok(t: Ticket, area: Rect, created: Seq<char>, updated: Seq<char>, p: DetailPlan) -> bool {
    let header = detail_header(t, created, updated);
    let body = detail_body(t);
    let inner = sat_sub(area.height as int, 2);
    &&& p.area == area
    &&& if header.len() + body.len() > inner {
        let avail = sat_sub(sat_sub(inner, header.len() as int), 1);
        let shown = if avail < body.len() { avail } else { body.len() as int };
        &&& crate::text::texts_of(p.lines@) == header + body.take(shown)
        &&& p.marker matches Some(m) && m@ == hidden_marker((body.len() - shown) as nat)
    } else {
        &&& crate::text::texts_of(p.lines@) == header + body
        &&& p.marker is None
    }
}

/// A line made of `head` and `tail`.
fn joined_line(head: &str, tail: &str) -> (r: String)
    ensures
        r@ == head@ + tail@,
{
    let mut r = owned(head);
    push_str(&mut r, tail);
    r
}

/// What the detail box shows for the focused ticket on a terminal area
/// `frame` (see `detail_ok`; the box is the middle 80% by 80%). `None` when
/// no ticket has the focus or chrono cannot place one of its dates.
pub fn detail_plan(app: &App, frame: Rect) -> (r: Option<DetailPlan>)
    ensures
        match app.focused_spec() {
            None => r is None,
            Some(i) => {
                let t = app.tickets@[i];
                match (
                    crate::commands::ymd_text(t.front_matter.created_at.secs, t.front_matter.created_at.nanos),
                    crate::commands::ymd_text(t.front_matter.updated_at.secs, t.front_matter.updated_at.nanos),
                ) {
                    (Some(c), Some(u)) => r matches Some(p) && detail_ok(t, centered_area(80, 80, frame), c, u, p),
                    _ => r is None,
                }
            },
        },
{
    let ti = match app.focused_ticket_index() {
        Some(i) => i,
        None => return None,
    };
    let t = &app.tickets[ti];
    let fm = &t.front_matter;
    let created = match crate::commands::date_text(fm.created_at) {
        Some(d) => d,
        None => return None,
    };
    let updated = match crate::commands::date_text(fm.updated_at) {
        Some(d) => d,
        None => return None,
    };
    let area = centered_rect(80, 80, frame);
    let mut lines: Vec<String> = Vec::new();
    lines.push(joined_line("ID:      ", fm.id.as_str()));
    lines.push(joined_line("Title:   ", fm.title.as_str()));
    lines.push(joined_line("Status:  ", fm.status.as_str()));
    lines.push(joined_line("Type:    ", fm.ticket_type.as_str()));
    let ghost h0 = crate::text::texts_of(lines@);
    if fm.tags.len() > 0 {
        let mut l = owned("Tags:    ");
        let ts = crate::commands::tag_strings(&fm.tags);
        crate::text::push_comma_joined(&mut l, &ts);
        lines.push(l);
    }
    let ghost h1 = crate::text::texts_of(lines@);
    match &fm.parent {
        Some(p) => lines.push(joined_line("Parent:  ", p.as_str())),
        None => {},
    }
    let ghost h2 = crate::text::texts_of(lines@);
    if fm.blocked_by.len() > 0 {
        let mut l = owned("Blocked: ");
        let bs = crate::commands::id_strings(&fm.blocked_by);
        crate::text::push_comma_joined(&mut l, &bs);
        lines.push(l);
    }
    let ghost h3 = crate::text::texts_of(lines@);
    lines.push(joined_line("Created: ", created.as_str()));
    lines.push(joined_line("Updated: ", updated.as_str()));
    let ghost header = detail_header(*t, created@, updated@);
    proof {
        let fm = t.front_matter;
        let tags_part: Seq<Seq<char>> = if fm.tags@.len() > 0 {
            seq!["Tags:    "@ + crate::text::comma_joined(crate::commands::tag_list_texts(fm.tags@))]
        } else {
            Seq::empty()
        };
        let parent_part: Seq<Seq<char>> = match fm.parent {
            Some(p) => seq!["Parent:  "@ + p@],
            None => Seq::empty(),
        };
        let blocked_part: Seq<Seq<char>> = if fm.blocked_by@.len() > 0 {
            seq!["Blocked: "@ + crate::text::comma_joined(crate::commands::id_list_texts(fm.blocked_by@))]
        } else {
            Seq::empty()
        };
        let head4 = seq!["ID:      "@ + fm.id@, "Title:   "@ + fm.title@, "Status:  "@ + fm.status.label(), "Type:    "@ + fm.ticket_type.label()];
        assert(h0 =~= head4);
        assert(h1 =~= head4 + tags_part);
        assert(h2 =~= head4 + tags_part + parent_part);
        assert(h3 =~= head4 + tags_part + parent_part + blocked_part);
        assert(crate::text::texts_of(lines@) =~= header);
    }
    let header_len = lines.len();
    let body_all = split_lines(t.body.as_str());
    let has_body = crate::text::chars_of(t.body.as_str()).len() > 0;
    let body_len: u128 = if has_body { body_all.len() as u128 + 1 } else { 0 };
    let ghost body = detail_body(*t);
    proof {
        assert(body.len() == body_len);
    }
    let inner: usize = if area.height >= 2 { (area.height - 2) as usize } else { 0 };
    if (header_len as u128) + body_len <= inner as u128 {
        push_body_lines(&mut lines, &body_all, has_body, body_len, Ghost(header), Ghost(t.body@));
        proof {
            assert(body.take(body_len as int) =~= body);
        }
        return Some(DetailPlan { area, lines, marker: None });
    }
    let avail: usize = if inner >= header_len + 1 { inner - header_len - 1 } else { 0 };
    let shown: u128 = if (avail as u128) < body_len { avail as u128 } else { body_len };
    push_body_lines(&mut lines, &body_all, has_body, shown, Ghost(header), Ghost(t.body@));
    let hidden = body_len - shown;
    let mut m = owned("… ");
    crate::text::push_decimal(&mut m, hidden);
    push_str(&mut m, " more line");
    if hidden != 1 {
        push_str(&mut m, "s");
    } else {
        proof {
            reveal_strlit("");
            assert(m@ =~= m@ + ""@);
        }
    }
    push_str(&mut m, " — press e to open");
    Some(DetailPlan { area, lines, marker: Some(m) })
}

/// Appends the first `n` lines of the detail body (an empty line, then the
/// body's lines) to the header lines.
fn push_body_lines(
    lines: &mut Vec<String>,
    body_all: &Vec<String>,
    has_body: bool,
    n: u128,
    Ghost(header): Ghost<Seq<Seq<char>>>,
    Ghost(text): Ghost<Seq<char>>,
)
    requires
        crate::text::texts_of(old(lines)@) == header,
        body_all@.len() == text_lines(text).len(),
        forall|q: int| 0 <= q < body_all@.len() ==> #[trigger] body_all@[q]@ == text_lines(text)[q],
        has_body ==> n <= body_all@.len() + 1,
        !has_body ==> n == 0,
    ensures
        crate::text::texts_of(final(lines)@) == header + (if has_body {
            seq![Seq::<char>::empty()] + text_lines(text)
        } else {
            Seq::empty()
        }).take(n as int),
{
    let ghost body = if has_body {
        seq![Seq::<char>::empty()] + text_lines(text)
    } else {
        Seq::<Seq<char>>::empty()
    };
    if n == 0 {
        proof {
            assert(body.take(0) =~= Seq::<Seq<char>>::empty());
            assert(header + body.take(0) =~= header);
        }
        return;
    }
    lines.push(String::new());
    proof {
        assert(crate::text::texts_of(lines@) =~= header + body.take(1));
        assert(body_all@.len() == body_all.len());
    }
    let mut j: usize = 0;
    while (j as u128) + 1 < n
        invariant
            has_body,
            n <= body_all@.len() + 1,
            body_all@.len() <= usize::MAX,
            j + 1 <= n,
            body == seq![Seq::<char>::empty()] + text_lines(text),
            body_all@.len() == text_lines(text).len(),
            forall|q: int| 0 <= q < body_all@.len() ==> #[trigger] body_all@[q]@ == text_lines(text)[q],
            crate::text::texts_of(lines@) == header + body.take(j + 1),
        decreases n - j,
    {
        let ghost before = crate::text::texts_of(lines@);
        lines.push(body_all[j].clone());
        proof {
            assert(body[j + 1] == body_all@[j as int]@);
            assert(crate::text::texts_of(lines@) =~= before.push(body_all@[j as int]@));
            assert(body.take(j + 2) =~= body.take(j + 1).push(body[j + 1]));
        }
        j = j + 1;
    }
}


// ── help ─────────────────────────────────────────────────────────────────────

/// The key bindings listed in the help box, in order: (keys, what they do).
pub open spec fn help_table() -> Seq<(Seq<char>, Seq<char>)> {
    seq![
        ("h / ←"@, "move focus left"@),
        ("l / →"@, "move focus right"@),
        ("j / ↓"@, "move focus down"@),
        ("k / ↑"@, "move focus up"@),
        ("H"@, "move ticket left"@),
        ("L"@, "move ticket right"@),
        ("Enter/Spc"@, "open detail view"@),
        ("e"@, "open in editor"@),
        ("n"@, "new ticket"@),
        ("y"@, "copy ticket id"@),
        ("/"@, "filter by id/title"@),
        ("? / F1"@, "show this help"@),
        ("q"@, "quit"@),
    ]
}

/// `s` followed by spaces up to `n` characters (unchanged when longer).
pub open spec fn char_padded(s: Seq<char>, n: nat) -> Seq<char> {
    if s.len() < n {
        s + crate::commands::spaces((n - s.len()) as nat)
    } else {
        s
    }
}

/// The width of the keys column in the help box.
pub open spec fn key_col_width() -> nat {
    11
}

/// The help box in one column: a heading, a blank line, a line per binding
/// (keys padded to the key column), a blank line and how to dismiss it.
pub open spec fn help_single() -> Seq<Seq<char>> {
    seq!["  Keybindings"@, ""@] + Seq::new(
        help_table().len(),
        |i: int| "  "@ + char_padded(help_table()[i].0, key_col_width()) + help_table()[i].1,
    ) + seq![""@, "  [any key]  dismiss"@]
}

/// The widest description, in UTF-8 bytes.
pub open spec fn desc_width(t: Seq<(Seq<char>, Seq<char>)>) -> nat
    decreases t.len(),
{
    if t.len() == 0 {
        0
    } else {
        let w = desc_width(t.drop_last());
        if utf8_len(t.last().1) > w {
            utf8_len(t.last().1)
        } else {
            w
        }
    }
}

/// The help box in two columns, for short terminals: the first half of the
/// bindings on the left (descriptions padded to the widest), the rest on the
/// right.
pub open spec fn help_compact() -> Seq<Seq<char>> {
    let t = help_table();
    let split = 7int;
    let dw = desc_width(t);
    seq!["  Keybindings"@, ""@] + Seq::new(
        split as nat,
        |i: int| if i + split < t.len() {
            "  "@ + char_padded(t[i].0, key_col_width()) + char_padded(t[i].1, dw) + "  "@ + char_padded(
                t[i + split].0,
                key_col_width(),
            ) + t[i + split].1
        } else {
            "  "@ + char_padded(t[i].0, key_col_width()) + t[i].1
        },
    ) + seq![""@, "  [any key]  dismiss"@]
}

/// The key bindings (see `help_table`).
fn help_keybindings() -> (r: Vec<(&'static str, &'static str)>)
    ensures
        r@.len() == help_table().len(),
        forall|i: int| 0 <= i < r@.len() ==> (#[trigger] r@[i]).0@ == help_table()[i].0 && r@[i].1@ == help_table()[i].1,
{
    let r = vec![
        ("h / ←", "move focus left"),
        ("l / →", "move focus right"),
        ("j / ↓", "move focus down"),
        ("k / ↑", "move focus up"),
        ("H", "move ticket left"),
        ("L", "move ticket right"),
        ("Enter/Spc", "open detail view"),
        ("e", "open in editor"),
        ("n", "new ticket"),
        ("y", "copy ticket id"),
        ("/", "filter by id/title"),
        ("? / F1", "show this help"),
        ("q", "quit"),
    ];
    r
}

/// Appends `s` padded with spaces to `n` characters.
fn push_char_padded(out: &mut String, s: &str, n: usize)
    ensures
        final(out)@ == old(out)@ + char_padded(s@, n as nat),
{
    let len = crate::text::chars_of(s).len();
    push_str(out, s);
    if len < n {
        let mut i: usize = len;
        while i < n
            invariant
                len <= i <= n,
                len == s@.len(),
                out@ == old(out)@ + s@ + crate::commands::spaces((i - len) as nat),
            decreases n - i,
        {
            push_char(out, ' ');
            i = i + 1;
            assert(out@ =~= old(out)@ + s@ + crate::commands::spaces((i - len) as nat));
        }
    } else {
        assert(out@ =~= old(out)@ + char_padded(s@, n as nat));
    }
}

/// The help box's lines in one column (see `help_single`).
pub fn help_lines_single() -> (r: Vec<String>)
    ensures
        crate::text::texts_of(r@) == help_single(),
{
    let table = help_keybindings();
    let mut r: Vec<String> = Vec::new();
    r.push(owned("  Keybindings"));
    r.push(owned(""));
    let mut i: usize = 0;
    while i < table.len()
        invariant
            i <= table@.len(),
            table@.len() == help_table().len(),
            forall|q: int| 0 <= q < table@.len() ==> (#[trigger] table@[q]).0@ == help_table()[q].0 && table@[q].1@ == help_table()[q].1,
            r@.len() == i + 2,
            r@[0]@ == "  Keybindings"@,
            r@[1]@ == ""@,
            forall|q: int| 0 <= q < i ==> #[trigger] r@[q + 2]@ == "  "@ + char_padded(help_table()[q].0, key_col_width()) + help_table()[q].1,
        decreases table@.len() - i,
    {
        let (key, desc) = table[i];
        let mut line = owned("  ");
        push_char_padded(&mut line, key, 11);
        push_str(&mut line, desc);
        r.push(line);
        i = i + 1;
    }
    r.push(owned(""));
    r.push(owned("  [any key]  dismiss"));
    proof {
        let h = help_single();
        let tr = crate::text::texts_of(r@);
        assert(help_table().len() == 13);
        assert(h.len() == 17);
        assert(tr.len() == 17);
        assert forall|q: int| 0 <= q < 17 implies tr[q] == h[q] by {
            if 2 <= q < 15 {
                assert(r@[(q - 2) + 2]@ == "  "@ + char_padded(help_table()[q - 2].0, key_col_width()) + help_table()[q - 2].1);
            }
        }
        assert(tr =~= h);
    }
    r
}

/// The help box's lines in two columns (see `help_compact`).
pub fn help_lines_compact() -> (r: Vec<String>)
    ensures
        crate::text::texts_of(r@) == help_compact(),
{
    let table = help_keybindings();
    let ghost t = help_table();
    let mut dw: u128 = 0;
    let mut k: usize = 0;
    while k < table.len()
        invariant
            k <= table@.len(),
            table@.len() == t.len(),
            t == help_table(),
            forall|q: int| 0 <= q < table@.len() ==> (#[trigger] table@[q]).0@ == t[q].0 && table@[q].1@ == t[q].1,
            dw == desc_width(t.take(k as int)),
            dw <= 4 * 64,
        decreases table@.len() - k,
    {
        let d = crate::text::chars_of(table[k].1);
        let w = utf8_len_of(&d);
        proof {
            assert(t.take(k + 1).drop_last() =~= t.take(k as int));
            reveal_strlit("move focus left");
            reveal_strlit("move focus right");
            reveal_strlit("move focus down");
            reveal_strlit("move focus up");
            reveal_strlit("move ticket left");
            reveal_strlit("move ticket right");
            reveal_strlit("open detail view");
            reveal_strlit("open in editor");
            reveal_strlit("new ticket");
            reveal_strlit("copy ticket id");
            reveal_strlit("filter by id/title");
            reveal_strlit("show this help");
            reveal_strlit("quit");
            crate::text::lemma_utf8_len_bound(d@);
        }
        if w > dw {
            dw = w;
        }
        k = k + 1;
    }
    proof {
        assert(t.take(k as int) =~= t);
    }
    let dwu = dw as usize;
    let mut r: Vec<String> = Vec::new();
    r.push(owned("  Keybindings"));
    r.push(owned(""));
    let mut i: usize = 0;
    while i < 7
        invariant
            i <= 7,
            table@.len() == t.len(),
            t == help_table(),
            t.len() == 13,
            forall|q: int| 0 <= q < table@.len() ==> (#[trigger] table@[q]).0@ == t[q].0 && table@[q].1@ == t[q].1,
            dwu == desc_width(t),
            r@.len() == i + 2,
            r@[0]@ == "  Keybindings"@,
            r@[1]@ == ""@,
            forall|q: int| 0 <= q < i ==> #[trigger] r@[q + 2]@ == (if q + 7 < t.len() {
                "  "@ + char_padded(t[q].0, key_col_width()) + char_padded(t[q].1, desc_width(t)) + "  "@ + char_padded(
                    t[q + 7].0,
                    key_col_width(),
                ) + t[q + 7].1
            } else {
                "  "@ + char_padded(t[q].0, key_col_width()) + t[q].1
            }),
        decreases 7 - i,
    {
        let (lk, ld) = table[i];
        let mut line = owned("  ");
        push_char_padded(&mut line, lk, 11);
        if i + 7 < table.len() {
            let (rk, rd) = table[i + 7];
            push_char_padded(&mut line, ld, dwu);
            push_str(&mut line, "  ");
            push_char_padded(&mut line, rk, 11);
            push_str(&mut line, rd);
        } else {
            push_str(&mut line, ld);
        }
        r.push(line);
        i = i + 1;
    }
    r.push(owned(""));
    r.push(owned("  [any key]  dismiss"));
    proof {
        let h = help_compact();
        let tr = crate::text::texts_of(r@);
        assert(h.len() == 11);
        assert(tr.len() == 11);
        assert forall|q: int| 0 <= q < 11 implies tr[q] == h[q] by {
            if 2 <= q < 9 {
                let j = q - 2;
                assert(tr[j + 2] == r@[j + 2]@);
            }
        }
        assert(tr =~= h);
    }
    r
}

/// The help box to draw: its lines and its area.
pub struct HelpPlan {
    pub lines: Vec<String>,
    pub area: Rect,
}

/// The widest display width among the texts (each cut to `u16` as ratatui
/// measures a line).
pub open spec fn widest_line(ls: Seq<Seq<char>>) -> nat
    decreases ls.len(),
{
    if ls.len() == 0 {
        0
    } else {
        let w = widest_line(ls.drop_last());
        let d = (crate::text::display_width_spec(ls.last()) % 65536) as nat;
        if d > w {
            d
        } else {
            w
        }
    }
}

/// The help box on a terminal area `frame`: the one-column layout when it
/// fits with its borders, else the two-column one; the box sized to its
/// lines plus borders and a column of padding each side, centred and kept
/// within the frame.
pub fn help_plan(frame: Rect) -> (r: HelpPlan)
    requires
        frame.x + frame.width <= u16::MAX,
        frame.y + frame.height <= u16::MAX,
    ensures
        ({
            let ls = if help_single().len() + 2 <= frame.height { help_single() } else { help_compact() };
            let w = widest_line(ls) + 4;
            &&& crate::text::texts_of(r.lines@) == ls
            &&& r.area == centered_fixed_spec(
                (if w > 65535 { 65535 } else { w }) as u16,
                (ls.len() + 2) as u16,
                frame,
            )
        }),
{
    let single = help_lines_single();
    proof {
        assert(help_single().len() == 17);
        assert(help_compact().len() == 11);
        assert(single@.len() == crate::text::texts_of(single@).len());
    }
    let lines = if (single.len() as u64) + 2 <= frame.height as u64 { single } else { help_lines_compact() };
    proof {
        assert(lines@.len() == crate::text::texts_of(lines@).len());
        assert(lines@.len() <= 17);
    }
    let height: u16 = (lines.len() + 2) as u16;
    let mut content: u16 = 0;
    let mut i: usize = 0;
    while i < lines.len()
        invariant
            i <= lines@.len(),
            content == widest_line(crate::text::texts_of(lines@).take(i as int)),
            content <= 65535,
        decreases lines@.len() - i,
    {
        let d = crate::text::display_width(lines[i].as_str());
        #[verifier::truncate]
        let dc = d as u16;
        proof {
            let tl = crate::text::texts_of(lines@);
            assert(tl.take(i + 1).drop_last() =~= tl.take(i as int));
            assert(tl.take(i + 1).last() == lines@[i as int]@);
            assert(dc == (d % 65536) as u16) by (bit_vector)
                requires
                    dc == d as u16,
            ;
        }
        if dc > content {
            content = dc;
        }
        i = i + 1;
    }
    proof {
        assert(crate::text::texts_of(lines@).take(i as int) =~= crate::text::texts_of(lines@));
    }
    let width: u16 = if content > 65531 { 65535 } else { content + 4 };
    let area = centered_rect_fixed(width, height, frame);
    HelpPlan { lines, area }
}

} // verus!
