//! The ticket domain: types, statuses, ids, titles, tags, timestamps and the
//! front matter every ticket file carries.
use vstd::prelude::*;

use crate::text::{
    debug_quoted, debug_text, is_ws, trim_end_ws, trim_start_ws,
    char_is_alphanumeric, chars_eq, chars_of, is_alnum, owned, push_char, push_chars, push_decimal,
    push_str, str_eq, string_from_chars, to_lower, lowercase, decimal, trim_chars, trim_ws,
    ascii_alnum, ascii_lower, ascii_ws, is_ascii_char, all_ascii,
};

verus! {

// ── TicketType ───────────────────────────────────────────────────────────────

/// The kind of work a ticket describes.
#[derive(Clone, Copy, Debug, PartialEq, Eq, Structural)]
pub enum TicketType {
    Epic,
    Story,
    Task,
    Bug,
}

impl TicketType {
    /// The kebab-case name used on the command line and in front matter.
    pub open spec fn label(self) -> Seq<char> {
        match self {
            TicketType::Epic => "epic"@,
            TicketType::Story => "story"@,
            TicketType::Task => "task"@,
            TicketType::Bug => "bug"@,
        }
    }

    /// The kebab-case name of this type.
    pub fn as_str(&self) -> (r: &'static str)
        ensures
            r@ == self.label(),
    {
        match self {
            TicketType::Epic => "epic",
            TicketType::Story => "story",
            TicketType::Task => "task",
            TicketType::Bug => "bug",
        }
    }

    /// The name of this type as an owned string.
    pub fn to_string(&self) -> (r: String)
        ensures
            r@ == self.label(),
    {
        owned(self.as_str())
    }

    /// The emoji shown beside the type in `list`.
    pub open spec fn emoji_spec(self) -> Seq<char> {
        match self {
            TicketType::Epic => "🎯"@,
            TicketType::Story => "📖"@,
            TicketType::Task => "🔧"@,
            TicketType::Bug => "🐛"@,
        }
    }

    /// The emoji shown beside the type in `list`.
    pub fn emoji(&self) -> (r: &'static str)
        ensures
            r@ == self.emoji_spec(),
    {
        match self {
            TicketType::Epic => "🎯",
            TicketType::Story => "📖",
            TicketType::Task => "🔧",
            TicketType::Bug => "🐛",
        }
    }

    /// The type whose name is exactly `s`, if any.
    pub fn from_label(s: &str) -> (r: Option<TicketType>)
        ensures
            match r {
                Some(t) => s@ == t.label(),
                None => forall|t: TicketType| s@ != t.label(),
            },
    {
        if str_eq(s, "epic") {
            Some(TicketType::Epic)
        } else if str_eq(s, "story") {
            Some(TicketType::Story)
        } else if str_eq(s, "task") {
            Some(TicketType::Task)
        } else if str_eq(s, "bug") {
            Some(TicketType::Bug)
        } else {
            proof {
                assert forall|t: TicketType| s@ != t.label() by {
                    match t {
                        TicketType::Epic => {},
                        TicketType::Story => {},
                        TicketType::Task => {},
                        TicketType::Bug => {},
                    }
                }
            }
            None
        }
    }
}

impl Default for TicketType {
    fn default() -> (r: TicketType)
        ensures
            r == TicketType::Task,
    {
        TicketType::Task
    }
}

// ── TicketStatus ─────────────────────────────────────────────────────────────

/// Where a ticket stands in its lifecycle.
#[derive(Clone, Copy, Debug, PartialEq, Eq, Structural)]
pub enum TicketStatus {
    Draft,
    Todo,
    InProgress,
    Done,
    Rejected,
}

impl TicketStatus {
    /// The kebab-case name used on the command line and in front matter.
    pub open spec fn label(self) -> Seq<char> {
        match self {
            TicketStatus::Draft => "draft"@,
            TicketStatus::Todo => "todo"@,
            TicketStatus::InProgress => "in-progress"@,
            TicketStatus::Done => "done"@,
            TicketStatus::Rejected => "rejected"@,
        }
    }

    /// The kebab-case name of this status.
    pub fn as_str(&self) -> (r: &'static str)
        ensures
            r@ == self.label(),
    {
        match self {
            TicketStatus::Draft => "draft",
            TicketStatus::Todo => "todo",
            TicketStatus::InProgress => "in-progress",
            TicketStatus::Done => "done",
            TicketStatus::Rejected => "rejected",
        }
    }

    /// The name of this status as an owned string.
    pub fn to_string(&self) -> (r: String)
        ensures
            r@ == self.label(),
    {
        owned(self.as_str())
    }

    /// The status whose name is exactly `s`, if any.
    pub fn from_label(s: &str) -> (r: Option<TicketStatus>)
        ensures
            match r {
                Some(t) => s@ == t.label(),
                None => forall|t: TicketStatus| s@ != t.label(),
            },
    {
        if str_eq(s, "draft") {
            Some(TicketStatus::Draft)
        } else if str_eq(s, "todo") {
            Some(TicketStatus::Todo)
        } else if str_eq(s, "in-progress") {
            Some(TicketStatus::InProgress)
        } else if str_eq(s, "done") {
            Some(TicketStatus::Done)
        } else if str_eq(s, "rejected") {
            Some(TicketStatus::Rejected)
        } else {
            proof {
                assert forall|t: TicketStatus| s@ != t.label() by {
                    match t {
                        TicketStatus::Draft => {},
                        TicketStatus::Todo => {},
                        TicketStatus::InProgress => {},
                        TicketStatus::Done => {},
                        TicketStatus::Rejected => {},
                    }
                }
            }
            None
        }
    }
}

impl Default for TicketStatus {
    fn default() -> (r: TicketStatus)
        ensures
            r == TicketStatus::Draft,
    {
        TicketStatus::Draft
    }
}

/// Distinct types have distinct names, so a name determines its type.
pub proof fn lemma_type_labels_distinct(a: TicketType, b: TicketType)
    requires
        a.label() == b.label(),
    ensures
        a == b,
{
    reveal_strlit("epic");
    reveal_strlit("story");
    reveal_strlit("task");
    reveal_strlit("bug");
    assert(TicketType::Epic.label().len() == 4 && TicketType::Epic.label()[0] == 'e');
    assert(TicketType::Story.label().len() == 5);
    assert(TicketType::Task.label().len() == 4 && TicketType::Task.label()[0] == 't');
    assert(TicketType::Bug.label().len() == 3);
}

/// Distinct statuses have distinct names, so a name determines its status.
pub proof fn lemma_status_labels_distinct(a: TicketStatus, b: TicketStatus)
    requires
        a.label() == b.label(),
    ensures
        a == b,
{
    reveal_strlit("draft");
    reveal_strlit("todo");
    reveal_strlit("in-progress");
    reveal_strlit("done");
    reveal_strlit("rejected");
    assert(TicketStatus::Draft.label().len() == 5);
    assert(TicketStatus::Todo.label().len() == 4 && TicketStatus::Todo.label()[0] == 't');
    assert(TicketStatus::InProgress.label().len() == 11);
    assert(TicketStatus::Done.label().len() == 4 && TicketStatus::Done.label()[0] == 'd');
    assert(TicketStatus::Rejected.label().len() == 8);
}


// ── TicketId ─────────────────────────────────────────────────────────────────

/// A ticket's identifier. Any text is accepted as an id.
#[derive(Debug, PartialEq, Eq)]
pub struct TicketId(String);

impl View for TicketId {
    type V = Seq<char>;

    closed spec fn view(&self) -> Seq<char> {
        self.0@
    }
}

impl Clone for TicketId {
    fn clone(&self) -> (r: TicketId)
        ensures
            r@ == self@,
    {
        TicketId(self.0.clone())
    }
}

impl TicketId {
    /// The id holding exactly the text `s`.
    pub fn from_string(s: String) -> (r: TicketId)
        ensures
            r@ == s@,
    {
        TicketId(s)
    }

    /// The id holding exactly the text `s` (parsing an id never fails).
    pub fn parse(s: &str) -> (r: TicketId)
        ensures
            r@ == s@,
    {
        TicketId(owned(s))
    }

    /// The id's text.
    pub fn as_str(&self) -> (r: &str)
        ensures
            r@ == self@,
    {
        self.0.as_str()
    }

    /// The id's text as an owned string.
    pub fn to_string(&self) -> (r: String)
        ensures
            r@ == self@,
    {
        self.0.clone()
    }

    /// Whether two ids hold the same text.
    pub fn same(&self, other: &TicketId) -> (r: bool)
        ensures
            r == (self@ == other@),
    {
        self.0 == other.0
    }
}

impl From<String> for TicketId {
    fn from(s: String) -> TicketId {
        TicketId(s)
    }
}

impl vstd::std_specs::convert::FromSpecImpl<String> for TicketId {
    open spec fn obeys_from_spec() -> bool {
        true
    }

    closed spec fn from_spec(v: String) -> TicketId {
        TicketId(v)
    }
}

/// `TicketId::from` keeps the text it is given.
pub proof fn lemma_ticket_id_from(v: String)
    ensures
        <TicketId as vstd::std_specs::convert::FromSpec<String>>::from_spec(v)@ == v@,
{
}

impl core::str::FromStr for TicketId {
    type Err = core::convert::Infallible;

    fn from_str(s: &str) -> (r: Result<TicketId, core::convert::Infallible>)
        ensures
            r matches Ok(id) && id@ == s@,
    {
        Ok(TicketId::parse(s))
    }
}

// ── Title ────────────────────────────────────────────────────────────────────

/// Longest title accepted, in characters.
pub const TITLE_MAX_LEN: u128 = 120;

/// A character a title may contain: a letter, a number, a space, `_`, `-` or `.`.
pub open spec fn title_char(c: char) -> bool {
    is_alnum(c) || c == ' ' || c == '_' || c == '-' || c == '.'
}

/// Every character of `s` may appear in a title.
pub open spec fn all_title_chars(s: Seq<char>) -> bool {
    forall|i: int| 0 <= i < s.len() ==> title_char(#[trigger] s[i])
}

/// Why a text was refused as a title.
#[derive(Debug, PartialEq, Eq)]
pub enum TitleError {
    /// Nothing but whitespace.
    Empty,
    /// The trimmed text holds a character that no title may hold.
    InvalidChars(String),
    /// The trimmed text is longer than the limit; carries its length in
    /// characters.
    TooLong(u128),
}

/// A ticket title: once parsed, trimmed, non-empty, at most 120 characters, and
/// made only of letters, numbers, spaces, `_`, `-` and `.`.
#[derive(Debug, PartialEq, Eq)]
pub struct Title(String);

impl View for Title {
    type V = Seq<char>;

    closed spec fn view(&self) -> Seq<char> {
        self.0@
    }
}

impl Clone for Title {
    fn clone(&self) -> (r: Title)
        ensures
            r@ == self@,
    {
        Title(self.0.clone())
    }
}

/// The trimmed text is a valid title.
pub open spec fn valid_title(t: Seq<char>) -> bool {
    t.len() > 0 && all_title_chars(t) && t.len() <= TITLE_MAX_LEN
}

impl Title {
    /// Parses a title: trims surrounding whitespace, then refuses an empty
    /// text, a text with a character outside the allowed set, or a text over
    /// 120 characters, checked in that order.
    pub fn parse(s: &str) -> (r: Result<Title, TitleError>)
        ensures
            ({
                let t = trim_ws(s@);
                match r {
                    Ok(title) => valid_title(t) && title@ == t,
                    Err(TitleError::Empty) => t.len() == 0,
                    Err(TitleError::InvalidChars(shown)) => t.len() > 0 && !all_title_chars(t)
                        && shown@ == t,
                    Err(TitleError::TooLong(n)) => t.len() > 0 && all_title_chars(t) && n
                        == t.len() && n > TITLE_MAX_LEN,
                }
            }),
    {
        let v = chars_of(s);
        let t = trim_chars(&v);
        if t.len() == 0 {
            return Err(TitleError::Empty);
        }
        let mut i: usize = 0;
        while i < t.len()
            invariant
                i <= t.len(),
                t.len() > 0,
                t@ == trim_ws(s@),
                forall|j: int| 0 <= j < i ==> title_char(#[trigger] t@[j]),
            decreases t.len() - i,
        {
            let c = t[i];
            if !(char_is_alphanumeric(c) || c == ' ' || c == '_' || c == '-' || c == '.') {
                assert(!title_char(t@[i as int]));
                return Err(TitleError::InvalidChars(string_from_chars(&t)));
            }
            i = i + 1;
        }
        let n = t.len() as u128;
        if n > TITLE_MAX_LEN {
            return Err(TitleError::TooLong(n));
        }
        Ok(Title(string_from_chars(&t)))
    }

    /// Slug used in file names: the lower-cased title cut at every
    /// non-alphanumeric character, empty pieces dropped, joined by `-`.
    pub fn slugify(&self) -> (r: String)
        ensures
            r@ == slug(self@),
    {
        let low = to_lower(self.0.as_str());
        let v = chars_of(low.as_str());
        let mut out = String::new();
        let mut cur: Vec<char> = Vec::new();
        let mut have = false;
        let mut i: usize = 0;
        proof {
            assert(v@.take(0) =~= Seq::<char>::empty());
            assert(out@ =~= Seq::<char>::empty());
            assert(cur@ =~= Seq::<char>::empty());
            assert(alnum_pieces(v@.take(0)).drop_last() =~= Seq::<Seq<char>>::empty());
        }
        while i < v.len()
            invariant
                i <= v.len(),
                v@ == lowercase(self@),
                alnum_pieces(v@.take(i as int)).len() >= 1,
                cur@ == alnum_pieces(v@.take(i as int)).last(),
                out@ == join_dash(non_empty(alnum_pieces(v@.take(i as int)).drop_last())),
                have == (non_empty(alnum_pieces(v@.take(i as int)).drop_last()).len() > 0),
            decreases v.len() - i,
        {
            let c = v[i];
            let ghost p = alnum_pieces(v@.take(i as int));
            assert(v@.take(i + 1).drop_last() =~= v@.take(i as int));
            if char_is_alphanumeric(c) {
                cur.push(c);
                proof {
                    let q = alnum_pieces(v@.take(i + 1));
                    assert(q == p.update(p.len() - 1, p.last().push(c)));
                    assert(q.drop_last() =~= p.drop_last());
                }
            } else {
                proof {
                    let q = alnum_pieces(v@.take(i + 1));
                    assert(q == p.push(Seq::<char>::empty()));
                    assert(q.drop_last() =~= p);
                    assert(p.drop_last().push(p.last()) =~= p);
                    let d = non_empty(p.drop_last());
                    if cur@.len() > 0 {
                        assert(non_empty(p) == d.push(cur@));
                        assert(d.push(cur@).drop_last() =~= d);
                    } else {
                        assert(non_empty(p) == d);
                    }
                }
                if cur.len() > 0 {
                    if have {
                        push_char(&mut out, '-');
                    }
                    push_chars(&mut out, &cur);
                    have = true;
                }
                cur = Vec::new();
                proof {
                    let q = alnum_pieces(v@.take(i + 1));
                    assert(cur@ =~= q.last());
                }
            }
            i = i + 1;
        }
        proof {
            assert(v@.take(v.len() as int) =~= v@);
            let p = alnum_pieces(v@);
            assert(p.drop_last().push(p.last()) =~= p);
            let d = non_empty(p.drop_last());
            if cur@.len() > 0 {
                assert(non_empty(p) == d.push(cur@));
                assert(d.push(cur@).drop_last() =~= d);
            }
        }
        if cur.len() > 0 {
            if have {
                push_char(&mut out, '-');
            }
            push_chars(&mut out, &cur);
        }
        out
    }

    /// Whether `filename` is exactly `<id>_<slug>.md` for this title.
    pub fn slug_matches_filename(&self, id: &TicketId, filename: &str) -> (r: bool)
        ensures
            r == (filename@ == ticket_file_name(id@, slug(self@))),
    {
        let expected = file_name_for(id, self);
        str_eq(expected.as_str(), filename)
    }

    /// A title holding `s` as it is, with no checks: for titles read back
    /// from a ticket file.
    pub fn from_raw(s: String) -> (r: Title)
        ensures
            r@ == s@,
    {
        Title(s)
    }

    /// The title's text.
    pub fn as_str(&self) -> (r: &str)
        ensures
            r@ == self@,
    {
        self.0.as_str()
    }

    /// The title's text as an owned string.
    pub fn to_string(&self) -> (r: String)
        ensures
            r@ == self@,
    {
        self.0.clone()
    }
}


impl TitleError {
    /// The message shown to the user.
    pub open spec fn message_spec(self) -> Seq<char> {
        match self {
            TitleError::Empty => "title must not be empty"@,
            TitleError::InvalidChars(t) => "invalid title "@ + debug_text(t@)
                + ": only letters, numbers, spaces, _, - and . are allowed"@,
            TitleError::TooLong(n) => "title must be 120 characters or fewer (got "@ + decimal(
                n as nat,
            ) + ")"@,
        }
    }

    /// The message shown to the user.
    pub fn message(&self) -> (r: String)
        ensures
            r@ == self.message_spec(),
    {
        match self {
            TitleError::Empty => owned("title must not be empty"),
            TitleError::InvalidChars(t) => {
                let mut m = owned("invalid title ");
                let q = debug_quoted(t.as_str());
                push_str(&mut m, q.as_str());
                push_str(&mut m, ": only letters, numbers, spaces, _, - and . are allowed");
                m
            },
            TitleError::TooLong(n) => {
                let mut m = owned("title must be 120 characters or fewer (got ");
                push_decimal(&mut m, *n);
                push_str(&mut m, ")");
                m
            },
        }
    }
}

/// The message a text that is no title is refused with, judged on its
/// trimmed form `t`: empty, then a character outside the allowed set, then
/// the length.
pub open spec fn title_refusal(t: Seq<char>) -> Seq<char> {
    if t.len() == 0 {
        TitleError::Empty.message_spec()
    } else if !all_title_chars(t) {
        "invalid title "@ + debug_text(t) + ": only letters, numbers, spaces, _, - and . are allowed"@
    } else {
        TitleError::TooLong(t.len() as u128).message_spec()
    }
}

impl core::str::FromStr for Title {
    type Err = String;

    fn from_str(s: &str) -> (r: Result<Title, String>)
        ensures
            match r {
                Ok(title) => valid_title(trim_ws(s@)) && title@ == trim_ws(s@),
                Err(m) => !valid_title(trim_ws(s@)) && m@ == title_refusal(trim_ws(s@)),
            },
    {
        match Title::parse(s) {
            Ok(t) => Ok(t),
            Err(e) => Err(e.message()),
        }
    }
}

/// Parsing a text that parsed as a title gives back the same title: the
/// trimmed text is already trimmed.
pub proof fn lemma_title_parse_idempotent(s: Seq<char>)
    requires
        valid_title(trim_ws(s)),
    ensures
        trim_ws(trim_ws(s)) == trim_ws(s),
        valid_title(trim_ws(trim_ws(s))),
{
    lemma_trim_ws_idempotent(s);
}

/// Trimming twice is trimming once.
pub proof fn lemma_trim_ws_idempotent(s: Seq<char>)
    ensures
        trim_ws(trim_ws(s)) == trim_ws(s),
{
    lemma_trim_start_result(s);
    lemma_trim_end_result(trim_start_ws(s));
    let t = trim_ws(s);
    lemma_trim_end_keeps_start(trim_start_ws(s));
    assert(trim_start_ws(t) == t);
    assert(trim_end_ws(t) == t);
}

proof fn lemma_trim_start_result(s: Seq<char>)
    ensures
        trim_start_ws(s).len() == 0 || !is_ws(trim_start_ws(s)[0]),
    decreases s.len(),
{
    if s.len() > 0 && is_ws(s[0]) {
        lemma_trim_start_result(s.drop_first());
    }
}

proof fn lemma_trim_end_result(s: Seq<char>)
    ensures
        trim_end_ws(s).len() == 0 || !is_ws(trim_end_ws(s).last()),
        trim_end_ws(s).len() <= s.len(),
        trim_end_ws(s) == s.take(trim_end_ws(s).len() as int),
    decreases s.len(),
{
    if s.len() > 0 && is_ws(s.last()) {
        lemma_trim_end_result(s.drop_last());
        let t = trim_end_ws(s.drop_last());
        assert(s.drop_last().take(t.len() as int) =~= s.take(t.len() as int));
    } else {
        assert(s.take(s.len() as int) =~= s);
    }
}

proof fn lemma_trim_end_keeps_start(s: Seq<char>)
    requires
        s.len() == 0 || !is_ws(s[0]),
    ensures
        trim_end_ws(s).len() == 0 || !is_ws(trim_end_ws(s)[0]),
        trim_start_ws(trim_end_ws(s)) == trim_end_ws(s),
        trim_end_ws(trim_end_ws(s)) == trim_end_ws(s),
    decreases s.len(),
{
    lemma_trim_end_result(s);
    if s.len() > 0 && is_ws(s.last()) {
        if s.len() > 1 {
            lemma_trim_end_keeps_start(s.drop_last());
        }
    }
}

// ── slugs ────────────────────────────────────────────────────────────────────

/// The pieces of `s` lying between its non-alphanumeric characters, in order
/// (empty pieces included, so there is always at least one).
pub open spec fn alnum_pieces(s: Seq<char>) -> Seq<Seq<char>>
    decreases s.len(),
{
    if s.len() == 0 {
        seq![Seq::<char>::empty()]
    } else {
        let p = alnum_pieces(s.drop_last());
        if is_alnum(s.last()) {
            p.update(p.len() - 1, p.last().push(s.last()))
        } else {
            p.push(Seq::<char>::empty())
        }
    }
}

/// The non-empty elements of `list`, in order.
pub open spec fn non_empty(list: Seq<Seq<char>>) -> Seq<Seq<char>>
    decreases list.len(),
{
    if list.len() == 0 {
        Seq::empty()
    } else {
        let r = non_empty(list.drop_last());
        if list.last().len() > 0 {
            r.push(list.last())
        } else {
            r
        }
    }
}

/// The elements of `list` joined by `-`.
pub open spec fn join_dash(list: Seq<Seq<char>>) -> Seq<char>
    decreases list.len(),
{
    if list.len() == 0 {
        Seq::empty()
    } else if list.len() == 1 {
        list[0]
    } else {
        join_dash(list.drop_last()).push('-') + list.last()
    }
}

/// The slug of a title: its lower-cased alphanumeric runs joined by `-`.
pub open spec fn slug(title: Seq<char>) -> Seq<char> {
    join_dash(non_empty(alnum_pieces(lowercase(title))))
}

/// The file name of the ticket with this id and slug: `<id>_<slug>.md`.
pub open spec fn ticket_file_name(id: Seq<char>, slug: Seq<char>) -> Seq<char> {
    id + "_"@ + slug + ".md"@
}

/// The file name `<id>_<slug>.md` of a ticket with this id and title.
pub fn file_name_for(id: &TicketId, title: &Title) -> (r: String)
    ensures
        r@ == ticket_file_name(id@, slug(title@)),
{
    let mut r = id.to_string();
    push_str(&mut r, "_");
    let s = title.slugify();
    push_str(&mut r, s.as_str());
    push_str(&mut r, ".md");
    r
}

proof fn lemma_alnum_pieces_nonempty(s: Seq<char>)
    ensures
        alnum_pieces(s).len() >= 1,
    decreases s.len(),
{
    if s.len() > 0 {
        lemma_alnum_pieces_nonempty(s.drop_last());
    }
}


// ── laws of slugs ────────────────────────────────────────────────────────────

/// Every character of `p` is an ASCII letter or digit that lower-casing
/// leaves as it is.
pub open spec fn slug_chars(p: Seq<char>) -> bool {
    forall|j: int| 0 <= j < p.len() ==> is_ascii_char(#[trigger] p[j]) && ascii_alnum(p[j])
        && ascii_lower(p[j]) == p[j]
}

proof fn lemma_ascii_lower_char(c: char)
    requires
        is_ascii_char(c),
    ensures
        is_ascii_char(ascii_lower(c)),
        ascii_lower(ascii_lower(c)) == ascii_lower(c),
        ascii_alnum(ascii_lower(c)) == ascii_alnum(c),
        !ascii_alnum(c) ==> ascii_lower(c) == c,
{
}

proof fn lemma_non_empty_concat(a: Seq<Seq<char>>, b: Seq<Seq<char>>)
    ensures
        non_empty(a + b) == non_empty(a) + non_empty(b),
    decreases b.len(),
{
    if b.len() == 0 {
        assert(a + b =~= a);
        assert(non_empty(a) + non_empty(b) =~= non_empty(a));
    } else {
        assert((a + b).drop_last() =~= a + b.drop_last());
        lemma_non_empty_concat(a, b.drop_last());
        assert((a + b).last() == b.last());
        if b.last().len() > 0 {
            assert(non_empty(a) + non_empty(b) =~= (non_empty(a) + non_empty(b.drop_last())).push(b.last()));
        }
    }
}

proof fn lemma_non_empty_keeps(list: Seq<Seq<char>>)
    requires
        forall|k: int| 0 <= k < list.len() ==> (#[trigger] list[k]).len() > 0,
    ensures
        non_empty(list) == list,
    decreases list.len(),
{
    if list.len() > 0 {
        lemma_non_empty_keeps(list.drop_last());
        assert(list.drop_last().push(list.last()) =~= list);
    }
}

proof fn lemma_non_empty_slug_chars(list: Seq<Seq<char>>)
    requires
        forall|k: int| 0 <= k < list.len() ==> slug_chars(#[trigger] list[k]),
    ensures
        forall|k: int| 0 <= k < non_empty(list).len() ==> (#[trigger] non_empty(list)[k]).len() > 0
            && slug_chars(non_empty(list)[k]),
    decreases list.len(),
{
    if list.len() > 0 {
        let t = list.drop_last();
        assert forall|k: int| 0 <= k < t.len() implies slug_chars(#[trigger] t[k]) by {
            assert(t[k] == list[k]);
        }
        lemma_non_empty_slug_chars(t);
        assert(slug_chars(list[list.len() - 1]));
        let r = non_empty(t);
        assert forall|k: int| 0 <= k < non_empty(list).len() implies (#[trigger] non_empty(list)[k]).len() > 0
            && slug_chars(non_empty(list)[k]) by {
            if k < r.len() {
                assert(non_empty(list)[k] == r[k]);
            }
        }
    }
}

proof fn lemma_pieces_slug_chars(s: Seq<char>)
    requires
        forall|i: int| 0 <= i < s.len() ==> is_ascii_char(#[trigger] s[i]) && ascii_lower(s[i]) == s[i],
    ensures
        forall|k: int| 0 <= k < alnum_pieces(s).len() ==> slug_chars(#[trigger] alnum_pieces(s)[k]),
    decreases s.len(),
{
    lemma_alnum_pieces_nonempty(s);
    if s.len() > 0 {
        let t = s.drop_last();
        assert forall|i: int| 0 <= i < t.len() implies is_ascii_char(#[trigger] t[i]) && ascii_lower(t[i]) == t[i] by {
            assert(t[i] == s[i]);
        }
        lemma_pieces_slug_chars(t);
        lemma_alnum_pieces_nonempty(t);
        let p = alnum_pieces(t);
        let c = s.last();
        assert(s[s.len() - 1] == c);
        if is_alnum(c) {
            let q = p.last().push(c);
            assert(slug_chars(p[p.len() - 1]));
            assert forall|j: int| 0 <= j < q.len() implies is_ascii_char(#[trigger] q[j]) && ascii_alnum(q[j])
                && ascii_lower(q[j]) == q[j] by {
                if j < q.len() - 1 {
                    assert(q[j] == p.last()[j]);
                }
            }
            assert forall|k: int| 0 <= k < alnum_pieces(s).len() implies slug_chars(#[trigger] alnum_pieces(s)[k]) by {
                if k < p.len() - 1 {
                    assert(alnum_pieces(s)[k] == p[k]);
                }
            }
        } else {
            assert forall|k: int| 0 <= k < alnum_pieces(s).len() implies slug_chars(#[trigger] alnum_pieces(s)[k]) by {
                if k < p.len() {
                    assert(alnum_pieces(s)[k] == p[k]);
                }
            }
        }
    }
}

proof fn lemma_pieces_of_alnum(p: Seq<char>)
    requires
        forall|j: int| 0 <= j < p.len() ==> is_alnum(#[trigger] p[j]),
    ensures
        alnum_pieces(p) == seq![p],
    decreases p.len(),
{
    if p.len() > 0 {
        let t = p.drop_last();
        assert forall|j: int| 0 <= j < t.len() implies is_alnum(#[trigger] t[j]) by {
            assert(t[j] == p[j]);
        }
        lemma_pieces_of_alnum(t);
        assert(is_alnum(p[p.len() - 1]));
        assert(t.push(p.last()) =~= p);
        assert(alnum_pieces(p) =~= seq![p]);
    } else {
        assert(p =~= Seq::<char>::empty());
    }
}

proof fn lemma_pieces_concat(x: Seq<char>, y: Seq<char>)
    ensures
        alnum_pieces(x + y) == alnum_pieces(x).drop_last() + seq![alnum_pieces(x).last() + alnum_pieces(y)[0]]
            + alnum_pieces(y).drop_first(),
    decreases y.len(),
{
    lemma_alnum_pieces_nonempty(x);
    lemma_alnum_pieces_nonempty(y);
    let px = alnum_pieces(x);
    if y.len() == 0 {
        assert(x + y =~= x);
        assert(alnum_pieces(y) =~= seq![Seq::<char>::empty()]);
        assert(px.last() + Seq::<char>::empty() =~= px.last());
        assert(px.drop_last() + seq![px.last()] + alnum_pieces(y).drop_first() =~= px);
    } else {
        let y1 = y.drop_last();
        let c = y.last();
        assert((x + y).drop_last() =~= x + y1);
        assert((x + y).last() == c);
        lemma_pieces_concat(x, y1);
        lemma_alnum_pieces_nonempty(y1);
        let q = alnum_pieces(x + y1);
        let r1 = alnum_pieces(y1);
        let r = alnum_pieces(y);
        if is_alnum(c) {
            assert(r == r1.update(r1.len() - 1, r1.last().push(c)));
            if r1.len() == 1 {
                assert(px.last() + r[0] =~= (px.last() + r1[0]).push(c));
                assert(alnum_pieces(x + y) =~= px.drop_last() + seq![px.last() + r[0]] + r.drop_first());
            } else {
                assert(r.drop_first() =~= r1.drop_first().update(r1.len() - 2, r1.last().push(c)));
                assert(alnum_pieces(x + y) =~= px.drop_last() + seq![px.last() + r[0]] + r.drop_first());
            }
        } else {
            assert(r == r1.push(Seq::<char>::empty()));
            assert(r.drop_first() =~= r1.drop_first().push(Seq::<char>::empty()));
            assert(alnum_pieces(x + y) =~= px.drop_last() + seq![px.last() + r[0]] + r.drop_first());
        }
    }
}

proof fn lemma_pieces_of_join(list: Seq<Seq<char>>)
    requires
        list.len() > 0,
        forall|k: int| 0 <= k < list.len() ==> (#[trigger] list[k]).len() > 0 && slug_chars(list[k]),
    ensures
        alnum_pieces(join_dash(list)) == list,
    decreases list.len(),
{
    if list.len() == 1 {
        assert(slug_chars(list[0]));
        lemma_pieces_of_alnum(list[0]);
        assert(seq![list[0]] =~= list);
    } else {
        let l1 = list.drop_last();
        assert forall|k: int| 0 <= k < l1.len() implies (#[trigger] l1[k]).len() > 0 && slug_chars(l1[k]) by {
            assert(l1[k] == list[k]);
        }
        lemma_pieces_of_join(l1);
        let x = join_dash(l1).push('-');
        let y = list.last();
        assert(slug_chars(list[list.len() - 1]));
        lemma_pieces_of_alnum(y);
        assert(x.drop_last() =~= join_dash(l1));
        assert(!is_alnum(x.last()));
        assert(alnum_pieces(x) == l1.push(Seq::<char>::empty()));
        lemma_pieces_concat(x, y);
        assert(Seq::<char>::empty() + y =~= y);
        assert(alnum_pieces(x + y) =~= l1.push(y));
        assert(l1.push(y) =~= list);
    }
}

proof fn lemma_join_chars(list: Seq<Seq<char>>)
    requires
        forall|k: int| 0 <= k < list.len() ==> slug_chars(#[trigger] list[k]),
    ensures
        forall|i: int| 0 <= i < join_dash(list).len() ==> is_ascii_char(#[trigger] join_dash(list)[i])
            && ascii_lower(join_dash(list)[i]) == join_dash(list)[i] && !ascii_ws(join_dash(list)[i]),
    decreases list.len(),
{
    if list.len() == 1 {
        assert(slug_chars(list[0]));
    } else if list.len() > 1 {
        let l1 = list.drop_last();
        assert forall|k: int| 0 <= k < l1.len() implies slug_chars(#[trigger] l1[k]) by {
            assert(l1[k] == list[k]);
        }
        lemma_join_chars(l1);
        let a = join_dash(l1).push('-');
        let y = list.last();
        assert(slug_chars(list[list.len() - 1]));
        let j = join_dash(list);
        assert(j == a + y);
        assert forall|i: int| 0 <= i < j.len() implies is_ascii_char(#[trigger] j[i]) && ascii_lower(j[i]) == j[i]
            && !ascii_ws(j[i]) by {
            if i < join_dash(l1).len() {
                assert(j[i] == join_dash(l1)[i]);
            } else if i == join_dash(l1).len() {
                assert(j[i] == '-');
            } else {
                assert(j[i] == y[i - a.len()]);
            }
        }
    }
}

proof fn lemma_pieces_start_separator(s: Seq<char>)
    requires
        s.len() > 0,
        !is_alnum(s[0]),
    ensures
        alnum_pieces(s).len() >= 2,
        alnum_pieces(s)[0] == Seq::<char>::empty(),
    decreases s.len(),
{
    if s.len() == 1 {
        assert(s.drop_last() =~= Seq::<char>::empty());
        assert(!is_alnum(s.last()));
    } else {
        let t = s.drop_last();
        assert(t[0] == s[0]);
        lemma_pieces_start_separator(t);
    }
}

proof fn lemma_pieces_same_shape(s1: Seq<char>, s2: Seq<char>)
    requires
        s1.len() == s2.len(),
        forall|i: int| 0 <= i < s1.len() ==> is_alnum(#[trigger] s1[i]) == is_alnum(s2[i]) && (is_alnum(s1[i])
            ==> s1[i] == s2[i]),
    ensures
        alnum_pieces(s1) == alnum_pieces(s2),
    decreases s1.len(),
{
    if s1.len() > 0 {
        let t1 = s1.drop_last();
        let t2 = s2.drop_last();
        assert forall|i: int| 0 <= i < t1.len() implies is_alnum(#[trigger] t1[i]) == is_alnum(t2[i]) && (is_alnum(t1[i])
            ==> t1[i] == t2[i]) by {
            assert(t1[i] == s1[i]);
            assert(t2[i] == s2[i]);
        }
        lemma_pieces_same_shape(t1, t2);
        assert(is_alnum(s1[s1.len() - 1]) == is_alnum(s2[s2.len() - 1]));
    }
}

proof fn lemma_lowercase_ascii(t: Seq<char>)
    requires
        all_ascii(t),
    ensures
        lowercase(t) == t.map_values(|c: char| ascii_lower(c)),
        forall|i: int| 0 <= i < t.len() ==> is_ascii_char(#[trigger] lowercase(t)[i]) && ascii_lower(
            lowercase(t)[i],
        ) == lowercase(t)[i] && ascii_alnum(lowercase(t)[i]) == ascii_alnum(t[i]) && (!ascii_alnum(t[i])
            ==> lowercase(t)[i] == t[i]),
{
    assert forall|i: int| 0 <= i < t.len() implies is_ascii_char(#[trigger] lowercase(t)[i]) && ascii_lower(
        lowercase(t)[i],
    ) == lowercase(t)[i] && ascii_alnum(lowercase(t)[i]) == ascii_alnum(t[i]) && (!ascii_alnum(t[i])
        ==> lowercase(t)[i] == t[i]) by {
        assert(is_ascii_char(t[i]));
        lemma_ascii_lower_char(t[i]);
    }
}

/// Slugifying a slug gives it back, for a title written in ASCII: a slug
/// has no surrounding whitespace, so parsing it as a title keeps it as it
/// is, and the slug of that title is the slug itself.
pub proof fn lemma_slug_of_slug(t: Seq<char>)
    requires
        all_ascii(t),
    ensures
        trim_ws(slug(t)) == slug(t),
        slug(slug(t)) == slug(t),
{
    lemma_lowercase_ascii(t);
    let low = lowercase(t);
    lemma_pieces_slug_chars(low);
    let list = non_empty(alnum_pieces(low));
    lemma_non_empty_slug_chars(alnum_pieces(low));
    let sl = join_dash(list);
    assert(sl == slug(t));
    assert forall|k: int| 0 <= k < list.len() implies slug_chars(#[trigger] list[k]) by {}
    lemma_join_chars(list);
    if sl.len() > 0 {
        assert(is_ascii_char(sl[0]) && !ascii_ws(sl[0]));
        assert(trim_start_ws(sl) == sl);
        assert(is_ascii_char(sl[sl.len() - 1]) && !ascii_ws(sl[sl.len() - 1]));
        assert(trim_end_ws(sl) == sl);
    }
    assert(all_ascii(sl)) by {
        assert forall|i: int| 0 <= i < sl.len() implies is_ascii_char(#[trigger] sl[i]) by {}
    }
    assert(sl.map_values(|c: char| ascii_lower(c)) =~= sl);
    assert(lowercase(sl) == sl);
    if list.len() > 0 {
        lemma_pieces_of_join(list);
        lemma_non_empty_keeps(list);
    } else {
        assert(sl =~= Seq::<char>::empty());
        assert(alnum_pieces(sl) =~= seq![Seq::<char>::empty()]);
        assert(non_empty(seq![Seq::<char>::empty()]).len() == 0) by {
            assert(seq![Seq::<char>::empty()].drop_last() =~= Seq::<Seq<char>>::empty());
            assert(non_empty(Seq::<Seq<char>>::empty()) =~= Seq::<Seq<char>>::empty());
        }
    }
}

/// Changing the case of a title's letters leaves its slug as it was, for
/// titles written in ASCII.
pub proof fn lemma_slug_ignores_case(t1: Seq<char>, t2: Seq<char>)
    requires
        all_ascii(t1),
        all_ascii(t2),
        t1.map_values(|c: char| ascii_lower(c)) == t2.map_values(|c: char| ascii_lower(c)),
    ensures
        slug(t1) == slug(t2),
{
    lemma_lowercase_ascii(t1);
    lemma_lowercase_ascii(t2);
}

/// Replacing a separator of an ASCII title (a character other than a letter
/// or digit) by another leaves its slug as it was.
pub proof fn lemma_slug_swap_separator(t: Seq<char>, i: int, c: char)
    requires
        all_ascii(t),
        0 <= i < t.len(),
        !ascii_alnum(t[i]),
        is_ascii_char(c),
        !ascii_alnum(c),
    ensures
        slug(t.update(i, c)) == slug(t),
{
    let t2 = t.update(i, c);
    assert(all_ascii(t2)) by {
        assert forall|k: int| 0 <= k < t2.len() implies is_ascii_char(#[trigger] t2[k]) by {
            assert(k != i ==> t2[k] == t[k]);
        }
    }
    lemma_lowercase_ascii(t);
    lemma_lowercase_ascii(t2);
    let l1 = lowercase(t);
    let l2 = lowercase(t2);
    assert forall|k: int| 0 <= k < l2.len() implies is_alnum(#[trigger] l2[k]) == is_alnum(l1[k]) && (is_alnum(l2[k])
        ==> l2[k] == l1[k]) by {
        assert(is_ascii_char(t[k]) && is_ascii_char(t2[k]));
        if k != i {
            assert(t2[k] == t[k]);
        }
    }
    lemma_pieces_same_shape(l2, l1);
}

/// A separator (an ASCII character other than a letter or digit) added at
/// either end of an ASCII title, or next to one of its separators, leaves
/// its slug as it was.
pub proof fn lemma_slug_extra_separator(t: Seq<char>, i: int, c: char)
    requires
        all_ascii(t),
        is_ascii_char(c),
        !ascii_alnum(c),
        0 <= i <= t.len(),
        i == 0 || i == t.len() || !ascii_alnum(t[i - 1]) || !ascii_alnum(t[i]),
    ensures
        slug(t.insert(i, c)) == slug(t),
{
    let t2 = t.insert(i, c);
    assert(all_ascii(t2)) by {
        assert forall|k: int| 0 <= k < t2.len() implies is_ascii_char(#[trigger] t2[k]) by {
            if k < i {
                assert(t2[k] == t[k]);
            } else if k > i {
                assert(t2[k] == t[k - 1]);
            }
        }
    }
    lemma_lowercase_ascii(t);
    lemma_lowercase_ascii(t2);
    let low = lowercase(t);
    let low2 = lowercase(t2);
    let x = low.take(i);
    let y = low.skip(i);
    assert(low =~= x + y);
    assert(low2 =~= x.push(c) + y) by {
        assert forall|k: int| 0 <= k < low2.len() implies #[trigger] low2[k] == (x.push(c) + y)[k] by {
            if k < i {
                assert(t2[k] == t[k]);
            } else if k > i {
                assert(t2[k] == t[k - 1]);
            } else {
                assert(t2[k] == c);
                lemma_ascii_lower_char(c);
            }
        }
    }
    lemma_alnum_pieces_nonempty(x);
    lemma_alnum_pieces_nonempty(y);
    let px = alnum_pieces(x);
    let py = alnum_pieces(y);
    assert(x.push(c).drop_last() =~= x);
    lemma_ascii_lower_char(c);
    assert(!is_alnum(x.push(c).last()));
    assert(alnum_pieces(x.push(c)) == px.push(Seq::<char>::empty()));
    lemma_pieces_concat(x.push(c), y);
    lemma_pieces_concat(x, y);
    let e = Seq::<char>::empty();
    assert(e + py[0] =~= py[0]);
    assert(alnum_pieces(low2) =~= px + py);
    if i == 0 || (i > 0 && !ascii_alnum(t[i - 1])) {
        if i == 0 {
            assert(x =~= Seq::<char>::empty());
            assert(px =~= seq![e]);
        } else {
            assert(x.drop_last() =~= low.take(i - 1));
            assert(x.last() == low[i - 1]);
            assert(is_ascii_char(t[i - 1]));
            assert(!is_alnum(x.last()));
        }
        assert(px.last() == e);
        assert(alnum_pieces(low) =~= px.drop_last() + py);
        assert(px =~= px.drop_last() + seq![e]);
        lemma_non_empty_concat(px.drop_last(), py);
        lemma_non_empty_concat(px.drop_last(), seq![e]);
        lemma_non_empty_concat(px.drop_last() + seq![e], py);
        assert(non_empty(seq![e]) =~= Seq::<Seq<char>>::empty()) by {
            assert(seq![e].drop_last() =~= Seq::<Seq<char>>::empty());
            assert(non_empty(Seq::<Seq<char>>::empty()) =~= Seq::<Seq<char>>::empty());
        }
        assert(non_empty(px.drop_last()) + non_empty(seq![e]) =~= non_empty(px.drop_last()));
    } else {
        if i == t.len() {
            assert(y =~= Seq::<char>::empty());
            assert(py =~= seq![e]);
        } else {
            assert(y[0] == low[i]);
            assert(is_ascii_char(t[i]));
            assert(!is_alnum(y[0]));
            lemma_pieces_start_separator(y);
        }
        assert(py[0] == e);
        assert(px.last() + e =~= px.last());
        assert(alnum_pieces(low) =~= px + py.drop_first());
        assert(py =~= seq![e] + py.drop_first());
        lemma_non_empty_concat(px, py.drop_first());
        lemma_non_empty_concat(seq![e], py.drop_first());
        lemma_non_empty_concat(px, py);
        assert(non_empty(seq![e]) =~= Seq::<Seq<char>>::empty()) by {
            assert(seq![e].drop_last() =~= Seq::<Seq<char>>::empty());
            assert(non_empty(Seq::<Seq<char>>::empty()) =~= Seq::<Seq<char>>::empty());
        }
        assert(non_empty(seq![e]) + non_empty(py.drop_first()) =~= non_empty(py.drop_first()));
    }
}

// ── Tag ──────────────────────────────────────────────────────────────────────

/// A character a tag may contain: a letter, a number, `_` or `-`.
pub open spec fn tag_char(c: char) -> bool {
    is_alnum(c) || c == '_' || c == '-'
}

/// Why a text was refused as a tag.
#[derive(Debug, PartialEq, Eq)]
pub enum TagError {
    /// The text is empty.
    Empty,
    /// The text holds a character that no tag may hold; carries the text.
    Invalid(String),
}

/// A ticket tag: once parsed, non-empty and made only of letters, numbers,
/// `_` and `-`.
#[derive(Debug, PartialEq, Eq)]
pub struct Tag(String);

impl View for Tag {
    type V = Seq<char>;

    closed spec fn view(&self) -> Seq<char> {
        self.0@
    }
}

impl Clone for Tag {
    fn clone(&self) -> (r: Tag)
        ensures
            r@ == self@,
    {
        Tag(self.0.clone())
    }
}

impl Tag {
    /// Parses a tag: refuses the empty text and any text holding a character
    /// other than letters, numbers, `_` and `-`. Nothing is trimmed.
    pub fn parse(s: &str) -> (r: Result<Tag, TagError>)
        ensures
            match r {
                Ok(tag) => s@.len() > 0 && (forall|i: int| 0 <= i < s@.len() ==> tag_char(
                    #[trigger] s@[i],
                )) && tag@ == s@,
                Err(TagError::Empty) => s@.len() == 0,
                Err(TagError::Invalid(shown)) => s@.len() > 0 && (exists|i: int|
                    0 <= i < s@.len() && !tag_char(#[trigger] s@[i])) && shown@ == s@,
            },
    {
        let v = chars_of(s);
        if v.len() == 0 {
            return Err(TagError::Empty);
        }
        let mut i: usize = 0;
        while i < v.len()
            invariant
                i <= v.len(),
                v@ == s@,
                v.len() > 0,
                forall|j: int| 0 <= j < i ==> tag_char(#[trigger] v@[j]),
            decreases v.len() - i,
        {
            let c = v[i];
            if !(char_is_alphanumeric(c) || c == '_' || c == '-') {
                assert(!tag_char(s@[i as int]));
                return Err(TagError::Invalid(owned(s)));
            }
            i = i + 1;
        }
        Ok(Tag(owned(s)))
    }

    /// A tag holding `s` as it is, with no checks: for tags read back from a
    /// ticket file.
    pub fn from_raw(s: String) -> (r: Tag)
        ensures
            r@ == s@,
    {
        Tag(s)
    }

    /// The tag's text.
    pub fn as_str(&self) -> (r: &str)
        ensures
            r@ == self@,
    {
        self.0.as_str()
    }

    /// The tag's text as an owned string.
    pub fn to_string(&self) -> (r: String)
        ensures
            r@ == self@,
    {
        self.0.clone()
    }

    /// Whether two tags hold the same text.
    pub fn same(&self, other: &Tag) -> (r: bool)
        ensures
            r == (self@ == other@),
    {
        self.0 == other.0
    }
}

impl TagError {
    /// The message shown to the user.
    pub open spec fn message_spec(self) -> Seq<char> {
        match self {
            TagError::Empty => "tag must not be empty"@,
            TagError::Invalid(t) => "invalid tag "@ + debug_text(t@)
                + ": only letters, numbers, _ and - are allowed"@,
        }
    }

    /// The message shown to the user.
    pub fn message(&self) -> (r: String)
        ensures
            r@ == self.message_spec(),
    {
        match self {
            TagError::Empty => owned("tag must not be empty"),
            TagError::Invalid(t) => {
                let mut m = owned("invalid tag ");
                let q = debug_quoted(t.as_str());
                push_str(&mut m, q.as_str());
                push_str(&mut m, ": only letters, numbers, _ and - are allowed");
                m
            },
        }
    }
}

/// The message a text that is no tag is refused with.
pub open spec fn tag_refusal(s: Seq<char>) -> Seq<char> {
    if s.len() == 0 {
        TagError::Empty.message_spec()
    } else {
        "invalid tag "@ + debug_text(s) + ": only letters, numbers, _ and - are allowed"@
    }
}

/// `s` is a valid tag: non-empty, and made of letters, numbers, `_` and `-`.
pub open spec fn valid_tag(s: Seq<char>) -> bool {
    s.len() > 0 && forall|i: int| 0 <= i < s.len() ==> tag_char(#[trigger] s[i])
}

impl core::str::FromStr for Tag {
    type Err = String;

    fn from_str(s: &str) -> (r: Result<Tag, String>)
        ensures
            match r {
                Ok(tag) => valid_tag(s@) && tag@ == s@,
                Err(m) => !valid_tag(s@) && m@ == tag_refusal(s@),
            },
    {
        match Tag::parse(s) {
            Ok(t) => Ok(t),
            Err(e) => Err(e.message()),
        }
    }
}

// ── Timestamp ────────────────────────────────────────────────────────────────

/// A UTC instant: whole seconds since the Unix epoch and the nanoseconds
/// past them (`nanos` below one billion).
#[derive(Clone, Copy, Debug, PartialEq, Eq, Structural)]
pub struct Timestamp {
    pub secs: i64,
    pub nanos: u32,
}

/// `a` is no later than `b`.
pub open spec fn ts_le(a: Timestamp, b: Timestamp) -> bool {
    a.secs < b.secs || (a.secs == b.secs && a.nanos <= b.nanos)
}

impl Timestamp {
    /// The instant `secs` seconds and `nanos` nanoseconds after the epoch.
    pub fn new(secs: i64, nanos: u32) -> (r: Timestamp)
        ensures
            r.secs == secs,
            r.nanos == nanos,
    {
        Timestamp { secs, nanos }
    }

    /// Whether this instant is no later than `other`.
    pub fn le(&self, other: &Timestamp) -> (r: bool)
        ensures
            r == ts_le(*self, *other),
    {
        self.secs < other.secs || (self.secs == other.secs && self.nanos <= other.nanos)
    }
}

/// Calls chrono's `Utc::now` and keeps its seconds and sub-second
/// nanoseconds. The clock may return any instant.
#[verifier::external_body]
pub(crate) fn clock_now() -> (r: Timestamp) {
    let t = chrono::Utc::now();
    Timestamp { secs: t.timestamp(), nanos: t.timestamp_subsec_nanos() }
}

// ── FrontMatter and Ticket ───────────────────────────────────────────────────

/// The metadata at the top of every ticket file.
pub struct FrontMatter {
    pub id: TicketId,
    pub title: Title,
    pub ticket_type: TicketType,
    pub status: TicketStatus,
    pub tags: Vec<Tag>,
    pub parent: Option<TicketId>,
    pub blocked_by: Vec<TicketId>,
    pub created_at: Timestamp,
    pub updated_at: Timestamp,
}

/// A ticket: its front matter and its markdown body.
pub struct Ticket {
    pub front_matter: FrontMatter,
    pub body: String,
}

} // verus!
