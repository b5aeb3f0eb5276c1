//! The decisions behind the command-line commands: which directory to use,
//! which tickets `list` shows and in what order, how `new` and `edit` build
//! a ticket, and the text that `list` and `show` print.
use vstd::prelude::*;

use crate::blockers::is_unblocked;
use crate::blockers::blocker_done;
use crate::config::Config;
use crate::domain::{
    file_name_for, slug, ticket_file_name, ts_le, FrontMatter, Tag, Ticket, TicketId, TicketStatus,
    TicketType, Title,
};
use crate::id_map::IdMap;
use crate::text::{comma_joined, decimal, display_width, display_width_spec, owned, push_comma_joined, push_decimal, push_str, texts_of};
use crate::domain::Timestamp;
use crate::loading::{format_load_failures, failure_summary, LoadFailure};
use crate::workdir::{join, join_path, EditArgs, ListArgs, NewArgs};
use crate::loading::{file_name_of, path_file_name};

verus! {

/// The tickets directory: the `--dir` flag, else the `TICKETS_DIR`
/// variable, else `tickets`.
pub fn resolve_dir(flag: Option<String>, env: Option<String>) -> (r: String)
    ensures
        r@ == match flag {
            Some(f) => f@,
            None => match env {
                Some(e) => e@,
                None => "tickets"@,
            },
        },
{
    match flag {
        Some(f) => f,
        None => match env {
            Some(e) => e,
            None => owned("tickets"),
        },
    }
}

/// Whether `tags` holds a tag with the text `t`.
pub open spec fn has_tag(tags: Seq<Tag>, t: Seq<char>) -> bool {
    exists|i: int| 0 <= i < tags.len() && tags[i]@ == t
}

/// Whether the ticket passes the `list` filters: any of the statuses (all
/// when none is given), any of the types (likewise), and every one of the
/// tags.
pub open spec fn passes_filters(
    t: Ticket,
    statuses: Seq<TicketStatus>,
    types: Seq<TicketType>,
    tags: Seq<Tag>,
) -> bool {
    &&& (statuses.len() == 0 || statuses.contains(t.front_matter.status))
    &&& (types.len() == 0 || types.contains(t.front_matter.ticket_type))
    &&& forall|i: int| 0 <= i < tags.len() ==> has_tag(t.front_matter.tags@, #[trigger] tags[i]@)
}

/// The `list` filters: `--status` and `--type` each accept a ticket when
/// none is given or when its own value is among those given (any one of
/// them will do, so giving more values never drops a ticket), and refuse it
/// when values are given and its own is not among them; `--tag` asks for
/// every tag given, so giving more tags never adds a ticket.
pub proof fn lemma_list_filters(
    t: Ticket,
    statuses: Seq<TicketStatus>,
    types: Seq<TicketType>,
    tags: Seq<Tag>,
    more_status: TicketStatus,
    more_type: TicketType,
    more_tag: Tag,
)
    ensures
        types.contains(t.front_matter.ticket_type) ==> passes_filters(t, statuses, types, tags)
            == passes_filters(t, statuses, Seq::empty(), tags),
        types.len() > 0 && !types.contains(t.front_matter.ticket_type) ==> !passes_filters(t, statuses, types, tags),
        passes_filters(t, statuses, types, tags) && types.len() > 0 ==> passes_filters(t, statuses, types.push(more_type), tags),
        statuses.contains(t.front_matter.status) ==> passes_filters(t, statuses, types, tags)
            == passes_filters(t, Seq::empty(), types, tags),
        statuses.len() > 0 && !statuses.contains(t.front_matter.status) ==> !passes_filters(t, statuses, types, tags),
        passes_filters(t, statuses, types, tags) && statuses.len() > 0 ==> passes_filters(t, statuses.push(more_status), types, tags),
        passes_filters(t, statuses, types, tags.push(more_tag)) ==> passes_filters(t, statuses, types, tags),
        passes_filters(t, statuses, types, tags) ==> forall|i: int| 0 <= i < tags.len() ==> has_tag(t.front_matter.tags@, #[trigger] tags[i]@),
        (forall|i: int| 0 <= i < tags.len() ==> has_tag(t.front_matter.tags@, #[trigger] tags[i]@)) ==> passes_filters(t, statuses, types, tags)
            == passes_filters(t, statuses, types, Seq::empty()),
{
    if passes_filters(t, statuses, types, tags) && types.len() > 0 {
        let k = choose|k: int| 0 <= k < types.len() && types[k] == t.front_matter.ticket_type;
        assert(types.push(more_type)[k] == t.front_matter.ticket_type);
    }
    if passes_filters(t, statuses, types, tags) && statuses.len() > 0 {
        let k = choose|k: int| 0 <= k < statuses.len() && statuses[k] == t.front_matter.status;
        assert(statuses.push(more_status)[k] == t.front_matter.status);
    }
    if passes_filters(t, statuses, types, tags.push(more_tag)) {
        assert forall|i: int| 0 <= i < tags.len() implies has_tag(t.front_matter.tags@, #[trigger] tags[i]@) by {
            assert(tags.push(more_tag)[i] == tags[i]);
        }
    }
}

/// Whether `tags` holds a tag with the text of `t`.
fn tags_contain(tags: &Vec<Tag>, t: &Tag) -> (r: bool)
    ensures
        r == has_tag(tags@, t@),
{
    let mut i: usize = 0;
    while i < tags.len()
        invariant
            i <= tags@.len(),
            forall|j: int| 0 <= j < i ==> tags@[j]@ != t@,
        decreases tags@.len() - i,
    {
        if tags[i].same(t) {
            return true;
        }
        i = i + 1;
    }
    false
}

/// Whether the ticket passes the `list` filters (see `passes_filters`).
pub fn matches_filters(
    ticket: &Ticket,
    statuses: &Vec<TicketStatus>,
    types: &Vec<TicketType>,
    tags: &Vec<Tag>,
) -> (r: bool)
    ensures
        r == passes_filters(*ticket, statuses@, types@, tags@),
{
    if statuses.len() > 0 {
        let mut found = false;
        let mut i: usize = 0;
        while i < statuses.len()
            invariant
                i <= statuses@.len(),
                found == exists|j: int| 0 <= j < i && statuses@[j] == ticket.front_matter.status,
            decreases statuses@.len() - i,
        {
            if statuses[i] == ticket.front_matter.status {
                found = true;
            }
            i = i + 1;
        }
        if !found {
            return false;
        }
    }
    if types.len() > 0 {
        let mut found = false;
        let mut i: usize = 0;
        while i < types.len()
            invariant
                i <= types@.len(),
                found == exists|j: int| 0 <= j < i && types@[j] == ticket.front_matter.ticket_type,
            decreases types@.len() - i,
        {
            if types[i] == ticket.front_matter.ticket_type {
                found = true;
            }
            i = i + 1;
        }
        if !found {
            return false;
        }
    }
    let mut k: usize = 0;
    while k < tags.len()
        invariant
            k <= tags@.len(),
            forall|j: int| 0 <= j < k ==> has_tag(ticket.front_matter.tags@, #[trigger] tags@[j]@),
        decreases tags@.len() - k,
    {
        if !tags_contain(&ticket.front_matter.tags, &tags[k]) {
            return false;
        }
        k = k + 1;
    }
    true
}

/// Where a status sorts in `list`: in progress first, then to do, draft,
/// done and rejected.
pub open spec fn status_rank_spec(s: TicketStatus) -> nat {
    match s {
        TicketStatus::InProgress => 0,
        TicketStatus::Todo => 2,
        TicketStatus::Draft => 3,
        TicketStatus::Done => 4,
        TicketStatus::Rejected => 5,
    }
}

/// Where a status sorts in `list` (see `status_rank_spec`).
pub fn status_rank(s: TicketStatus) -> (r: u8)
    ensures
        r == status_rank_spec(s),
{
    match s {
        TicketStatus::InProgress => 0,
        TicketStatus::Todo => 2,
        TicketStatus::Draft => 3,
        TicketStatus::Done => 4,
        TicketStatus::Rejected => 5,
    }
}

/// `a` may be listed before `b`: a lower status rank, or the same rank and
/// an earlier or equal creation time.
pub open spec fn listed_before(a: Ticket, b: Ticket) -> bool {
    status_rank_spec(a.front_matter.status) < status_rank_spec(b.front_matter.status) || (
    status_rank_spec(a.front_matter.status) == status_rank_spec(b.front_matter.status) && ts_le(
        a.front_matter.created_at,
        b.front_matter.created_at,
    ))
}

/// What `list --unblocked` checks the blockers against.
pub struct UnblockedContext {
    pub active: IdMap<Ticket>,
    pub archived: IdMap<Ticket>,
    pub archived_failures: IdMap<String>,
}

/// Whether every blocker of `t` is satisfied, in the given ticket sets.
pub open spec fn all_blockers_done(
    t: Ticket,
    active: Map<Seq<char>, Ticket>,
    archived: Map<Seq<char>, Ticket>,
) -> bool {
    forall|i: int|
        0 <= i < t.front_matter.blocked_by@.len() ==> blocker_done(
            active,
            archived,
            #[trigger] t.front_matter.blocked_by@[i]@,
        )
}

/// Whether `list` shows the ticket.
pub open spec fn list_keeps(t: Ticket, args: ListArgs, ctx: Option<UnblockedContext>) -> bool {
    &&& passes_filters(t, args.status@, args.ticket_type@, args.tag@)
    &&& match ctx {
        Some(c) => all_blockers_done(t, c.active.map(), c.archived.map()),
        None => true,
    }
}

/// The context behind the reference, if any.
pub open spec fn ctx_value(ctx: Option<&UnblockedContext>) -> Option<UnblockedContext> {
    match ctx {
        Some(c) => Some(*c),
        None => None,
    }
}

/// The tickets of `s` that `list` shows, in their order.
pub open spec fn list_selection(s: Seq<Ticket>, args: ListArgs, ctx: Option<UnblockedContext>) -> Seq<
    Ticket,
>
    decreases s.len(),
{
    if s.len() == 0 {
        Seq::empty()
    } else {
        let r = list_selection(s.drop_last(), args, ctx);
        if list_keeps(s.last(), args, ctx) {
            r.push(s.last())
        } else {
            r
        }
    }
}

/// Whether `list` shows the ticket (see `list_keeps`).
fn keeps(t: &Ticket, args: &ListArgs, ctx: Option<&UnblockedContext>) -> (r: bool)
    requires
        ctx matches Some(c) ==> c.active.wf() && c.archived.wf() && c.archived_failures.wf(),
    ensures
        r == list_keeps(*t, *args, ctx_value(ctx)),
{
    if !matches_filters(t, &args.status, &args.ticket_type, &args.tag) {
        return false;
    }
    match ctx {
        Some(c) => is_unblocked(&c.active, &c.archived, &c.archived_failures, t),
        None => true,
    }
}

/// The tickets that `list` shows, in its order: those that pass the
/// filters (and, with a context, whose blockers are all satisfied), sorted
/// by status rank and then by creation time, ties keeping their order.
pub fn select_for_list(
    tickets: Vec<Ticket>,
    args: &ListArgs,
    ctx: Option<&UnblockedContext>,
) -> (r: Vec<Ticket>)
    requires
        ctx matches Some(c) ==> c.active.wf() && c.archived.wf() && c.archived_failures.wf(),
    ensures
        r@ == list_order(list_selection(tickets@, *args, ctx_value(ctx))),
{
    let ghost c = ctx_value(ctx);
    let ghost input = tickets@;
    let mut kept: Vec<Ticket> = Vec::new();
    let mut rest = tickets;
    let ghost mut k: int = 0;
    while rest.len() > 0
        invariant
            ctx matches Some(c) ==> c.active.wf() && c.archived.wf() && c.archived_failures.wf(),
            c == ctx_value(ctx),
            0 <= k <= input.len(),
            rest@ == input.skip(k),
            kept@ == list_selection(input.take(k), *args, c),
        decreases rest@.len(),
    {
        let t = rest.remove(0);
        proof {
            assert(t == input[k]);
            assert(input.take(k + 1).drop_last() =~= input.take(k));
            assert(input.take(k + 1).last() == input[k]);
        }
        if keeps(&t, args, ctx) {
            kept.push(t);
        }
        proof {
            assert(rest@ =~= input.skip(k + 1));
            k = k + 1;
        }
    }
    proof {
        assert(input.take(k) =~= input);
    }
    sort_for_list(kept)
}

/// `a` goes strictly before `b` in `list`: a lower status rank, or the same
/// rank and an earlier creation time.
pub open spec fn goes_before(a: Ticket, b: Ticket) -> bool {
    status_rank_spec(a.front_matter.status) < status_rank_spec(b.front_matter.status) || (
    status_rank_spec(a.front_matter.status) == status_rank_spec(b.front_matter.status) && !ts_le(
        b.front_matter.created_at,
        a.front_matter.created_at,
    ))
}

/// `t` put into `s` after every ticket that does not go strictly after it.
pub open spec fn insert_in_order(s: Seq<Ticket>, t: Ticket) -> Seq<Ticket>
    decreases s.len(),
{
    if s.len() == 0 {
        seq![t]
    } else if goes_before(t, s.last()) {
        insert_in_order(s.drop_last(), t).push(s.last())
    } else {
        s.push(t)
    }
}

/// The tickets in `list` order: by status rank, then by creation time,
/// tickets that tie keeping the order they came in (a stable sort).
pub open spec fn list_order(s: Seq<Ticket>) -> Seq<Ticket>
    decreases s.len(),
{
    if s.len() == 0 {
        Seq::empty()
    } else {
        insert_in_order(list_order(s.drop_last()), s.last())
    }
}

/// Whether `a` goes strictly before `b` (see `goes_before`).
fn goes_before_exec(a: &Ticket, b: &Ticket) -> (r: bool)
    ensures
        r == goes_before(*a, *b),
{
    let ra = status_rank(a.front_matter.status);
    let rb = status_rank(b.front_matter.status);
    ra < rb || (ra == rb && !b.front_matter.created_at.le(&a.front_matter.created_at))
}

/// Inserting in order puts the ticket at the first of the trailing
/// positions that all go strictly after it.
proof fn lemma_insert_at(s: Seq<Ticket>, t: Ticket, j: int)
    requires
        0 <= j <= s.len(),
        forall|m: int| j <= m < s.len() ==> goes_before(t, #[trigger] s[m]),
        j == 0 || !goes_before(t, s[j - 1]),
    ensures
        insert_in_order(s, t) == s.insert(j, t),
    decreases s.len(),
{
    if s.len() == 0 {
        assert(s.insert(j, t) =~= seq![t]);
    } else if j == s.len() {
        assert(s.insert(j, t) =~= s.push(t));
    } else {
        let init = s.drop_last();
        assert(goes_before(t, s[s.len() - 1]));
        assert forall|m: int| j <= m < init.len() implies goes_before(t, #[trigger] init[m]) by {
            assert(init[m] == s[m]);
        }
        if j > 0 {
            assert(init[j - 1] == s[j - 1]);
        }
        lemma_insert_at(init, t, j);
        assert(init.insert(j, t).push(s.last()) =~= s.insert(j, t));
    }
}

/// Inserting in order into a sorted list keeps it sorted and adds exactly
/// that ticket.
proof fn lemma_insert_in_order(s: Seq<Ticket>, t: Ticket)
    requires
        forall|i: int, j: int| 0 <= i < j < s.len() ==> listed_before(#[trigger] s[i], #[trigger] s[j]),
    ensures
        insert_in_order(s, t).to_multiset() == s.to_multiset().insert(t),
        forall|i: int, j: int|
            0 <= i < j < insert_in_order(s, t).len() ==> listed_before(
                #[trigger] insert_in_order(s, t)[i],
                #[trigger] insert_in_order(s, t)[j],
            ),
    decreases s.len(),
{
    let r = insert_in_order(s, t);
    if s.len() == 0 {
        vstd::seq_lib::to_multiset_build(s, t);
        assert(s.push(t) =~= seq![t]);
    } else if goes_before(t, s.last()) {
        let init = s.drop_last();
        let last = s.last();
        lemma_insert_in_order(init, t);
        let q = insert_in_order(init, t);
        vstd::seq_lib::to_multiset_build(q, last);
        vstd::seq_lib::to_multiset_build(init, last);
        assert(init.push(last) =~= s);
        assert(q.to_multiset().insert(last) =~= init.to_multiset().insert(last).insert(t));
        assert forall|i: int, j: int| 0 <= i < j < r.len() implies listed_before(#[trigger] r[i], #[trigger] r[j]) by {
            if j == r.len() - 1 {
                assert(r[j] == last);
                assert(r[i] == q[i]);
                assert(q.contains(q[i]));
                vstd::seq_lib::to_multiset_contains(q, q[i]);
                if q[i] != t {
                    assert(init.to_multiset().count(q[i]) > 0);
                    vstd::seq_lib::to_multiset_contains(init, q[i]);
                    let w = choose|w: int| 0 <= w < init.len() && init[w] == q[i];
                    assert(s[w] == init[w]);
                    assert(listed_before(s[w], s[s.len() - 1]));
                }
            } else {
                assert(r[i] == q[i] && r[j] == q[j]);
            }
        }
    } else {
        vstd::seq_lib::to_multiset_build(s, t);
        assert forall|i: int, j: int| 0 <= i < j < r.len() implies listed_before(#[trigger] r[i], #[trigger] r[j]) by {
            if j == s.len() {
                assert(r[j] == t);
                assert(r[i] == s[i]);
                if i < s.len() - 1 {
                    assert(listed_before(s[i], s[s.len() - 1]));
                }
            } else {
                assert(r[i] == s[i] && r[j] == s[j]);
            }
        }
    }
}

/// `list` order is a sort: it holds the same tickets, each listed no later
/// than the ones after it (by status rank, then creation time).
pub proof fn lemma_list_order_sorted(s: Seq<Ticket>)
    ensures
        list_order(s).to_multiset() == s.to_multiset(),
        forall|i: int, j: int|
            0 <= i < j < list_order(s).len() ==> listed_before(#[trigger] list_order(s)[i], #[trigger] list_order(s)[j]),
    decreases s.len(),
{
    if s.len() == 0 {
        vstd::seq_lib::to_multiset_len(s);
        vstd::seq_lib::to_multiset_len(list_order(s));
        assert(list_order(s).to_multiset() =~= s.to_multiset());
    } else {
        let init = s.drop_last();
        lemma_list_order_sorted(init);
        lemma_insert_in_order(list_order(init), s.last());
        vstd::seq_lib::to_multiset_build(init, s.last());
        assert(init.push(s.last()) =~= s);
    }
}

/// The tickets in `list` order (see `list_order`), by insertion.
pub fn sort_for_list(v: Vec<Ticket>) -> (r: Vec<Ticket>)
    ensures
        r@ == list_order(v@),
{
    let ghost input = v@;
    let mut rest = v;
    let mut out: Vec<Ticket> = Vec::new();
    let ghost mut k: int = 0;
    assert(input.take(0) =~= Seq::<Ticket>::empty());
    while rest.len() > 0
        invariant
            0 <= k <= input.len(),
            rest@ == input.skip(k),
            out@ == list_order(input.take(k)),
        decreases rest@.len(),
    {
        let t = rest.remove(0);
        let mut j = out.len();
        while j > 0 && goes_before_exec(&t, &out[j - 1])
            invariant
                j <= out@.len(),
                forall|m: int| j <= m < out@.len() ==> goes_before(t, #[trigger] out@[m]),
            decreases j,
        {
            j = j - 1;
        }
        proof {
            lemma_insert_at(out@, t, j as int);
            assert(t == input[k]);
            assert(input.take(k + 1).drop_last() =~= input.take(k));
            assert(input.take(k + 1).last() == input[k]);
        }
        out.insert(j, t);
        proof {
            assert(rest@ =~= input.skip(k + 1));
            k = k + 1;
        }
    }
    proof {
        assert(input.take(k) =~= input);
    }
    out
}

/// `n` spaces.
pub open spec fn spaces(n: nat) -> Seq<char> {
    Seq::new(n, |i: int| ' ')
}

/// `s` followed by enough spaces to take `width` columns (unchanged when it
/// already takes that many or more).
pub open spec fn padded(s: Seq<char>, width: nat) -> Seq<char> {
    if display_width_spec(s) < width {
        s + spaces((width - display_width_spec(s)) as nat)
    } else {
        s
    }
}

/// Right-pads `s` with spaces to `width` terminal columns.
pub fn pad_to_display_width(s: &str, width: usize) -> (r: String)
    ensures
        r@ == padded(s@, width as nat),
{
    let w = display_width(s);
    let mut r = owned(s);
    if w < width {
        let n = width - w;
        let mut i: usize = 0;
        while i < n
            invariant
                i <= n,
                r@ == s@ + spaces(i as nat),
            decreases n - i,
        {
            crate::text::push_char(&mut r, ' ');
            i = i + 1;
            assert(r@ =~= s@ + spaces(i as nat));
        }
    } else {
        assert(r@ =~= s@);
    }
    r
}

/// The type column of a `list` line: the emoji, a space, the type.
pub open spec fn type_column(t: Ticket) -> Seq<char> {
    t.front_matter.ticket_type.emoji_spec() + " "@ + t.front_matter.ticket_type.label()
}

/// The widest of `floor` and the display widths of the texts.
pub open spec fn column_width(cols: Seq<Seq<char>>, floor: nat) -> nat
    decreases cols.len(),
{
    if cols.len() == 0 {
        floor
    } else {
        let w = column_width(cols.drop_last(), floor);
        if display_width_spec(cols.last()) > w {
            display_width_spec(cols.last())
        } else {
            w
        }
    }
}

/// The id texts of the tickets.
pub open spec fn id_texts(ts: Seq<Ticket>) -> Seq<Seq<char>> {
    Seq::new(ts.len(), |i: int| ts[i].front_matter.id@)
}

/// The status texts of the tickets.
pub open spec fn status_texts(ts: Seq<Ticket>) -> Seq<Seq<char>> {
    Seq::new(ts.len(), |i: int| ts[i].front_matter.status.label())
}

/// The type columns of the tickets.
pub open spec fn type_texts(ts: Seq<Ticket>) -> Seq<Seq<char>> {
    Seq::new(ts.len(), |i: int| type_column(ts[i]))
}

/// The `list` line of `t`, with the given column widths: id, status and type
/// padded to their columns, then the title, two spaces apart.
pub open spec fn list_line(t: Ticket, id_w: nat, status_w: nat, type_w: nat) -> Seq<char> {
    padded(t.front_matter.id@, id_w) + "  "@ + padded(t.front_matter.status.label(), status_w) + "  "@
        + padded(type_column(t), type_w) + "  "@ + t.front_matter.title@
}

/// The widest display width among `cols` and `floor`.
fn widest(cols: &Vec<String>, floor: usize) -> (r: usize)
    ensures
        r == column_width(Seq::new(cols@.len(), |i: int| cols@[i]@), floor as nat),
{
    let ghost texts = Seq::new(cols@.len(), |i: int| cols@[i]@);
    let mut w = floor;
    let mut i: usize = 0;
    while i < cols.len()
        invariant
            i <= cols@.len(),
            texts == Seq::new(cols@.len(), |i: int| cols@[i]@),
            w == column_width(texts.take(i as int), floor as nat),
        decreases cols@.len() - i,
    {
        let d = display_width(cols[i].as_str());
        proof {
            assert(texts.take(i + 1).drop_last() =~= texts.take(i as int));
            assert(texts.take(i + 1).last() == cols@[i as int]@);
        }
        if d > w {
            w = d;
        }
        i = i + 1;
    }
    proof {
        assert(texts.take(i as int) =~= texts);
    }
    w
}

/// The lines `list` prints for the tickets, in order: the id, status and
/// type columns are as wide as their widest entry (at least 6, 6 and 4
/// columns, measured in terminal columns), followed by the title.
pub fn list_lines(tickets: &Vec<Ticket>) -> (r: Vec<String>)
    ensures
        r@.len() == tickets@.len(),
        forall|i: int| 0 <= i < r@.len() ==> #[trigger] r@[i]@ == list_line(
            tickets@[i],
            column_width(id_texts(tickets@), 6),
            column_width(status_texts(tickets@), 6),
            column_width(type_texts(tickets@), 4),
        ),
{
    let mut ids: Vec<String> = Vec::new();
    let mut statuses: Vec<String> = Vec::new();
    let mut types: Vec<String> = Vec::new();
    let mut i: usize = 0;
    while i < tickets.len()
        invariant
            i <= tickets@.len(),
            ids@.len() == i && statuses@.len() == i && types@.len() == i,
            forall|j: int| 0 <= j < i ==> #[trigger] ids@[j]@ == tickets@[j].front_matter.id@,
            forall|j: int| 0 <= j < i ==> #[trigger] statuses@[j]@ == tickets@[j].front_matter.status.label(),
            forall|j: int| 0 <= j < i ==> #[trigger] types@[j]@ == type_column(tickets@[j]),
        decreases tickets@.len() - i,
    {
        let fm = &tickets[i].front_matter;
        ids.push(fm.id.to_string());
        statuses.push(fm.status.to_string());
        let mut tc = owned(fm.ticket_type.emoji());
        push_str(&mut tc, " ");
        push_str(&mut tc, fm.ticket_type.as_str());
        types.push(tc);
        i = i + 1;
    }
    proof {
        assert(Seq::new(ids@.len(), |i: int| ids@[i]@) =~= id_texts(tickets@));
        assert(Seq::new(statuses@.len(), |i: int| statuses@[i]@) =~= status_texts(tickets@));
        assert(Seq::new(types@.len(), |i: int| types@[i]@) =~= type_texts(tickets@));
    }
    let id_w = widest(&ids, 6);
    let status_w = widest(&statuses, 6);
    let type_w = widest(&types, 4);
    let mut r: Vec<String> = Vec::new();
    let mut k: usize = 0;
    while k < tickets.len()
        invariant
            k <= tickets@.len(),
            ids@.len() == tickets@.len() && statuses@.len() == tickets@.len() && types@.len() == tickets@.len(),
            forall|j: int| 0 <= j < tickets@.len() ==> #[trigger] ids@[j]@ == tickets@[j].front_matter.id@,
            forall|j: int| 0 <= j < tickets@.len() ==> #[trigger] statuses@[j]@ == tickets@[j].front_matter.status.label(),
            forall|j: int| 0 <= j < tickets@.len() ==> #[trigger] types@[j]@ == type_column(tickets@[j]),
            r@.len() == k,
            forall|j: int| 0 <= j < k ==> #[trigger] r@[j]@ == list_line(tickets@[j], id_w as nat, status_w as nat, type_w as nat),
        decreases tickets@.len() - k,
    {
        let mut line = pad_to_display_width(ids[k].as_str(), id_w);
        push_str(&mut line, "  ");
        let st = pad_to_display_width(statuses[k].as_str(), status_w);
        push_str(&mut line, st.as_str());
        push_str(&mut line, "  ");
        let ty = pad_to_display_width(types[k].as_str(), type_w);
        push_str(&mut line, ty.as_str());
        push_str(&mut line, "  ");
        push_str(&mut line, tickets[k].front_matter.title.as_str());
        r.push(line);
        proof {
            assert(r@[k as int]@ =~= list_line(tickets@[k as int], id_w as nat, status_w as nat, type_w as nat));
        }
        k = k + 1;
    }
    r
}

/// What `list` prints: the warning about tickets that could not be loaded
/// (on standard error) and the lines of the tickets it shows.
pub struct ListOutput {
    pub warning: Option<String>,
    pub lines: Vec<String>,
}

/// The output of `tickets list` for the tickets that loaded and the files
/// that did not: the load warning, then a line for each ticket that passes
/// the filters (and, with a context, is unblocked), in `list` order.
pub fn cmd_list(
    tickets: Vec<Ticket>,
    failures: &Vec<LoadFailure>,
    args: &ListArgs,
    ctx: Option<&UnblockedContext>,
) -> (r: ListOutput)
    requires
        ctx matches Some(c) ==> c.active.wf() && c.archived.wf() && c.archived_failures.wf(),
    ensures
        r.warning is None <==> failures@.len() == 0,
        r.warning matches Some(w) ==> w@ == "warning: "@ + failure_summary(failures@),
        ({
            let shown = list_order(list_selection(tickets@, *args, ctx_value(ctx)));
            &&& r.lines@.len() == shown.len()
            &&& forall|i: int| 0 <= i < shown.len() ==> #[trigger] r.lines@[i]@ == list_line(
                shown[i],
                column_width(id_texts(shown), 6),
                column_width(status_texts(shown), 6),
                column_width(type_texts(shown), 4),
            )
        }),
{
    let warning = format_load_failures(failures);
    let shown = select_for_list(tickets, args, ctx);
    let lines = list_lines(&shown);
    ListOutput { warning, lines }
}


// ── show ─────────────────────────────────────────────────────────────────────

/// The whole seconds from the instant `(es, en)` to the instant `(ls, ln)`,
/// as chrono counts them (`TimeDelta::num_seconds`, rounded toward zero),
/// or `None` when either instant is outside chrono's range.
pub uninterp spec fn seconds_between_spec(ls: i64, ln: u32, es: i64, en: u32) -> Option<i64>;

/// The date of the instant `(secs, nanos)` as chrono formats it with
/// `%Y-%m-%d`, or `None` when the instant is outside chrono's range.
pub uninterp spec fn ymd_text(secs: i64, nanos: u32) -> Option<Seq<char>>;

/// The whole seconds from `earlier` to `later`, rounded toward zero, for
/// instants whose nanoseconds are below one billion.
pub open spec fn whole_seconds(later: Timestamp, earlier: Timestamp) -> int {
    let d: int = (later.secs - earlier.secs) * 1_000_000_000 + (later.nanos - earlier.nanos);
    if d >= 0 {
        d / 1_000_000_000
    } else {
        -((-d) / 1_000_000_000)
    }
}

/// The seconds from `earlier` to `later`: chrono's `DateTime::from_timestamp`
/// for both, their difference and `TimeDelta::num_seconds`. The result is
/// named by `seconds_between_spec`; when both instants are placed and carry
/// no leap second (nanoseconds below one billion), it is the difference in
/// whole seconds rounded toward zero. Which instants chrono's calendar can
/// place is not restated.
#[verifier::external_body]
fn seconds_between(later: Timestamp, earlier: Timestamp) -> (r: Option<i64>)
    ensures
        r == seconds_between_spec(later.secs, later.nanos, earlier.secs, earlier.nanos),
        r matches Some(s) ==> (later.nanos < 1_000_000_000 && earlier.nanos < 1_000_000_000
            ==> s == whole_seconds(later, earlier)),
{
    let l = chrono::DateTime::from_timestamp(later.secs, later.nanos)?;
    let e = chrono::DateTime::from_timestamp(earlier.secs, earlier.nanos)?;
    Some((l - e).num_seconds())
}

/// The date of `t` formatted by chrono with `%Y-%m-%d`; chrono's calendar
/// is not restated, the result is named by `ymd_text`.
#[verifier::external_body]
pub(crate) fn date_text(t: Timestamp) -> (r: Option<String>)
    ensures
        match r {
            Some(s) => ymd_text(t.secs, t.nanos) == Some(s@),
            None => ymd_text(t.secs, t.nanos) is None,
        },
{
    match chrono::DateTime::from_timestamp(t.secs, t.nanos) {
        Some(d) => Some(d.format("%Y-%m-%d").to_string()),
        None => None,
    }
}

/// `s` unless the count is one.
pub open spec fn plural_s(n: int) -> Seq<char> {
    if n == 1 {
        ""@
    } else {
        "s"@
    }
}

/// `<n> <unit>(s) ago`.
pub open spec fn ago(n: int, unit: Seq<char>) -> Seq<char> {
    decimal(n as nat) + " "@ + unit + plural_s(n) + " ago"@
}

/// How long ago, in words, an instant `secs` seconds back was: `just now`
/// under a minute, then whole minutes, hours, days, months of 30 days and
/// years of 12 months. A negative count reads as `just now`.
pub open spec fn relative_text(secs: int) -> Seq<char> {
    let s = if secs < 0 { 0 } else { secs };
    let mins = s / 60;
    let hours = mins / 60;
    let days = hours / 24;
    let months = days / 30;
    let years = months / 12;
    if s < 60 {
        "just now"@
    } else if mins < 60 {
        ago(mins, "minute"@)
    } else if hours < 24 {
        ago(hours, "hour"@)
    } else if days < 30 {
        ago(days, "day"@)
    } else if months < 12 {
        ago(months, "month"@)
    } else {
        ago(years, "year"@)
    }
}

/// Appends `<n> <unit>(s) ago`.
fn push_ago(r: &mut String, n: i64, unit: &str)
    requires
        n >= 0,
    ensures
        final(r)@ == old(r)@ + ago(n as int, unit@),
{
    push_decimal(r, n as u128);
    push_str(r, " ");
    push_str(r, unit);
    if n != 1 {
        push_str(r, "s");
    } else {
        proof {
            reveal_strlit("");
        }
    }
    push_str(r, " ago");
    proof {
        assert(final(r)@ =~= old(r)@ + ago(n as int, unit@)) by {
            if n == 1 {
                assert(plural_s(n as int) =~= Seq::<char>::empty());
            }
        }
    }
}

/// How long ago an instant `secs` seconds back was, in words (see
/// `relative_text`).
pub fn relative_from_seconds(secs: i64) -> (r: String)
    ensures
        r@ == relative_text(secs as int),
{
    let s: i64 = if secs < 0 { 0 } else { secs };
    let mins = s / 60;
    let hours = mins / 60;
    let days = hours / 24;
    let months = days / 30;
    let years = months / 12;
    let mut r = String::new();
    if s < 60 {
        r = owned("just now");
    } else if mins < 60 {
        push_ago(&mut r, mins, "minute");
    } else if hours < 24 {
        push_ago(&mut r, hours, "hour");
    } else if days < 30 {
        push_ago(&mut r, days, "day");
    } else if months < 12 {
        push_ago(&mut r, months, "month");
    } else {
        push_ago(&mut r, years, "year");
    }
    r
}

/// How long before `now` the instant `then` was, in words; `None` when
/// chrono cannot place either instant.
pub fn relative_time(now: Timestamp, then: Timestamp) -> (r: Option<String>)
    ensures
        match seconds_between_spec(now.secs, now.nanos, then.secs, then.nanos) {
            Some(secs) => r matches Some(t) && t@ == relative_text(secs as int),
            None => r is None,
        },
        r matches Some(t) ==> (now.nanos < 1_000_000_000 && then.nanos < 1_000_000_000 ==> t@
            == relative_text(whole_seconds(now, then))),
{
    match seconds_between(now, then) {
        Some(secs) => Some(relative_from_seconds(secs)),
        None => None,
    }
}


/// `<date> · <how long ago>` for the instant `t`, seen from `now`.
pub open spec fn stamp_text(t: Timestamp, now: Timestamp) -> Option<Seq<char>> {
    match (ymd_text(t.secs, t.nanos), seconds_between_spec(now.secs, now.nanos, t.secs, t.nanos)) {
        (Some(d), Some(secs)) => Some(d + " · "@ + relative_text(secs as int)),
        _ => None,
    }
}

/// The ids' texts.
pub open spec fn id_list_texts(v: Seq<TicketId>) -> Seq<Seq<char>> {
    Seq::new(v.len(), |i: int| v[i]@)
}

/// The tags' texts.
pub open spec fn tag_list_texts(v: Seq<Tag>) -> Seq<Seq<char>> {
    Seq::new(v.len(), |i: int| v[i]@)
}

/// The lines `show` prints for a ticket above its body: title, status and
/// type; the tags, the parent and the blockers when there are any; then the
/// creation and update dates with how long ago they were. `None` when chrono
/// cannot place one of the instants.
pub open spec fn show_text(t: Ticket, now: Timestamp) -> Option<Seq<Seq<char>>> {
    let fm = t.front_matter;
    match (stamp_text(fm.created_at, now), stamp_text(fm.updated_at, now)) {
        (Some(c), Some(u)) => Some(
            seq!["🎫  "@ + fm.title@, "📌  "@ + fm.status.label(), "🏷   "@ + fm.ticket_type.label()]
                + (if fm.tags@.len() > 0 {
                seq!["🔖  "@ + comma_joined(tag_list_texts(fm.tags@))]
            } else {
                Seq::empty()
            }) + (match fm.parent {
                Some(p) => seq!["⬆️   "@ + p@],
                None => Seq::empty(),
            }) + (if fm.blocked_by@.len() > 0 {
                seq!["🚫  "@ + comma_joined(id_list_texts(fm.blocked_by@))]
            } else {
                Seq::empty()
            }) + seq!["📅  created   "@ + c, "✏️   updated   "@ + u],
        ),
        _ => None,
    }
}

/// The date of an instant and how long before `now` it was, when chrono
/// places both: `<YYYY-MM-DD> · <how long ago>`.
pub open spec fn dated(t: Timestamp, now: Timestamp) -> Option<Seq<char>> {
    match ymd_text(t.secs, t.nanos) {
        Some(d) => match seconds_between_spec(now.secs, now.nanos, t.secs, t.nanos) {
            Some(secs) => Some(d + " · "@ + relative_text(secs as int)),
            None => None,
        },
        None => None,
    }
}

/// `show` ends with two dated lines: the creation line, from `created_at`
/// alone, then the update line, from `updated_at` alone, each giving the
/// date of that instant and how long before `now` it was. `show` has a
/// result exactly when chrono places both instants. Two tickets that
/// differ only in when they were last updated show the same lines but the
/// last.
pub proof fn lemma_show_stamps(t: Ticket, now: Timestamp, t2: Ticket)
    ensures
        show_text(t, now) is Some <==> (dated(t.front_matter.created_at, now) is Some && dated(
            t.front_matter.updated_at,
            now,
        ) is Some),
        show_text(t, now) matches Some(ls) ==> ls.len() >= 5 && ls.last() == "✏️   updated   "@ + dated(
            t.front_matter.updated_at,
            now,
        )->Some_0 && ls[ls.len() - 2] == "📅  created   "@ + dated(t.front_matter.created_at, now)->Some_0,
        t2 == (Ticket { front_matter: FrontMatter { updated_at: t2.front_matter.updated_at, ..t.front_matter }, ..t })
            && show_text(t, now) is Some && show_text(t2, now) is Some ==> show_text(t, now)->Some_0.drop_last()
            == show_text(t2, now)->Some_0.drop_last(),
{
    if show_text(t, now) is Some {
        let ls = show_text(t, now)->Some_0;
        assert(ls.len() >= 5);
        assert(ls.last() == "✏️   updated   "@ + dated(t.front_matter.updated_at, now)->Some_0);
    }
    if t2 == (Ticket { front_matter: FrontMatter { updated_at: t2.front_matter.updated_at, ..t.front_matter }, ..t })
        && show_text(t, now) is Some && show_text(t2, now) is Some {
        assert(show_text(t, now)->Some_0.drop_last() =~= show_text(t2, now)->Some_0.drop_last());
    }
}

/// `<date> · <how long ago>` for `t` seen from `now` (see `stamp_text`).
fn stamp(t: Timestamp, now: Timestamp) -> (r: Option<String>)
    ensures
        match stamp_text(t, now) {
            Some(x) => r matches Some(v) && v@ == x,
            None => r is None,
        },
{
    let d = match date_text(t) {
        Some(d) => d,
        None => return None,
    };
    let rel = match relative_time(now, t) {
        Some(x) => x,
        None => return None,
    };
    let mut r = d;
    push_str(&mut r, " · ");
    push_str(&mut r, rel.as_str());
    Some(r)
}

/// The strings of the tags.
pub(crate) fn tag_strings(v: &Vec<Tag>) -> (r: Vec<String>)
    ensures
        texts_of(r@) == tag_list_texts(v@),
{
    let mut r: Vec<String> = Vec::new();
    let mut i: usize = 0;
    while i < v.len()
        invariant
            i <= v@.len(),
            r@.len() == i,
            forall|j: int| 0 <= j < i ==> #[trigger] r@[j]@ == v@[j]@,
        decreases v@.len() - i,
    {
        r.push(v[i].to_string());
        i = i + 1;
    }
    assert(texts_of(r@) =~= tag_list_texts(v@));
    r
}

/// The strings of the ids.
pub(crate) fn id_strings(v: &Vec<TicketId>) -> (r: Vec<String>)
    ensures
        texts_of(r@) == id_list_texts(v@),
{
    let mut r: Vec<String> = Vec::new();
    let mut i: usize = 0;
    while i < v.len()
        invariant
            i <= v@.len(),
            r@.len() == i,
            forall|j: int| 0 <= j < i ==> #[trigger] r@[j]@ == v@[j]@,
        decreases v@.len() - i,
    {
        r.push(v[i].to_string());
        i = i + 1;
    }
    assert(texts_of(r@) =~= id_list_texts(v@));
    r
}

/// A line made of `head` and `tail`.
fn line_of(head: &str, tail: &str) -> (r: String)
    ensures
        r@ == head@ + tail@,
{
    let mut r = owned(head);
    push_str(&mut r, tail);
    r
}

/// Whether a git repository is found at or above a directory, given for
/// the directory and each of its ancestors in turn whether it holds `.git`:
/// true as soon as one does.
pub fn git_detect(holds_git: &Vec<bool>) -> (r: bool)
    ensures
        r == exists|i: int| 0 <= i < holds_git@.len() && holds_git@[i],
{
    let mut i: usize = 0;
    while i < holds_git.len()
        invariant
            i <= holds_git@.len(),
            forall|j: int| 0 <= j < i ==> !holds_git@[j],
        decreases holds_git@.len() - i,
    {
        if holds_git[i] {
            return true;
        }
        i = i + 1;
    }
    false
}

/// The body `show` prints after a blank line below the fields: the
/// ticket's body, or nothing when it is empty.
pub fn show_body(t: &Ticket) -> (r: Option<String>)
    ensures
        r is Some <==> t.body@.len() > 0,
        r matches Some(b) ==> b@ == t.body@,
{
    if crate::text::chars_of(t.body.as_str()).len() > 0 {
        Some(t.body.clone())
    } else {
        None
    }
}

/// The lines `show` prints above a ticket's body (see `show_text`).
pub fn show_lines(t: &Ticket, now: Timestamp) -> (r: Option<Vec<String>>)
    ensures
        match show_text(*t, now) {
            Some(ls) => r matches Some(v) && texts_of(v@) == ls,
            None => r is None,
        },
{
    let fm = &t.front_matter;
    let c = match stamp(fm.created_at, now) {
        Some(c) => c,
        None => return None,
    };
    let u = match stamp(fm.updated_at, now) {
        Some(u) => u,
        None => return None,
    };
    let mut v: Vec<String> = Vec::new();
    v.push(line_of("🎫  ", fm.title.as_str()));
    v.push(line_of("📌  ", fm.status.as_str()));
    v.push(line_of("🏷   ", fm.ticket_type.as_str()));
    let ghost head = texts_of(v@);
    if fm.tags.len() > 0 {
        let mut l = owned("🔖  ");
        let ts = tag_strings(&fm.tags);
        push_comma_joined(&mut l, &ts);
        v.push(l);
    }
    let ghost with_tags = texts_of(v@);
    match &fm.parent {
        Some(p) => v.push(line_of("⬆️   ", p.as_str())),
        None => {},
    }
    let ghost with_parent = texts_of(v@);
    if fm.blocked_by.len() > 0 {
        let mut l = owned("🚫  ");
        let bs = id_strings(&fm.blocked_by);
        push_comma_joined(&mut l, &bs);
        v.push(l);
    }
    let ghost with_blocked = texts_of(v@);
    v.push(line_of("📅  created   ", c.as_str()));
    v.push(line_of("✏️   updated   ", u.as_str()));
    proof {
        let fm = t.front_matter;
        let cs = stamp_text(fm.created_at, now)->Some_0;
        let us = stamp_text(fm.updated_at, now)->Some_0;
        assert(head =~= seq!["🎫  "@ + fm.title@, "📌  "@ + fm.status.label(), "🏷   "@ + fm.ticket_type.label()]);
        let tags_part: Seq<Seq<char>> = if fm.tags@.len() > 0 {
            seq!["🔖  "@ + comma_joined(tag_list_texts(fm.tags@))]
        } else {
            Seq::empty()
        };
        let parent_part: Seq<Seq<char>> = match fm.parent {
            Some(p) => seq!["⬆️   "@ + p@],
            None => Seq::empty(),
        };
        let blocked_part: Seq<Seq<char>> = if fm.blocked_by@.len() > 0 {
            seq!["🚫  "@ + comma_joined(id_list_texts(fm.blocked_by@))]
        } else {
            Seq::empty()
        };
        assert(with_tags =~= head + tags_part);
        assert(with_parent =~= head + tags_part + parent_part);
        assert(with_blocked =~= head + tags_part + parent_part + blocked_part);
        assert(texts_of(v@) =~= head + tags_part + parent_part + blocked_part + seq!["📅  created   "@ + cs, "✏️   updated   "@ + us]);
    }
    Some(v)
}


// ── edit ─────────────────────────────────────────────────────────────────────

/// Whether a `--body` value asks for the body to be read from standard
/// input (it is exactly `-`).
pub fn reads_stdin(body: &Option<String>) -> (r: bool)
    ensures
        r == (body matches Some(b) && b@ == "-"@),
{
    match body {
        Some(b) => crate::text::str_eq(b.as_str(), "-"),
        None => false,
    }
}

/// The body a `--body` value gives: the text itself, or `stdin_text` when
/// the value is `-`.
pub open spec fn given_body(b: Seq<char>, stdin_text: Seq<char>) -> Seq<char> {
    if b == "-"@ {
        stdin_text
    } else {
        b
    }
}

/// What a `--body` value does to the ticket's body, for `new` and `edit`:
/// any value other than `-` is kept word for word, whatever standard input
/// holds; `-` takes standard input instead. So the body given is empty
/// only when the value is empty, or is `-` with nothing on standard input.
pub proof fn lemma_given_body(b: Seq<char>, stdin_text: Seq<char>, other_stdin: Seq<char>)
    ensures
        b != "-"@ ==> given_body(b, stdin_text) == b,
        b != "-"@ ==> given_body(b, stdin_text) == given_body(b, other_stdin),
        given_body("-"@, stdin_text) == stdin_text,
        given_body(b, stdin_text).len() == 0 <==> (b.len() == 0 || (b == "-"@ && stdin_text.len() == 0)),
{
    if b.len() == 0 {
        reveal_strlit("-");
        assert(b != "-"@);
    }
}

/// Applies the edits in `args` to the ticket: each field given replaces the
/// old one (tags and blockers only when the list is not empty; the clear
/// flags win over a new parent or new blockers), `updated_at` becomes `now`,
/// and a `--body` of `-` takes `stdin_text`. Returns whether the title
/// changed (a title was given and differs from the old one).
pub fn apply_edits(ticket: &mut Ticket, args: EditArgs, now: Timestamp, stdin_text: String) -> (r: bool)
    ensures
        r == (args.title matches Some(t) && t@ != old(ticket).front_matter.title@),
        final(ticket).front_matter.id == old(ticket).front_matter.id,
        final(ticket).front_matter.title == match args.title {
            Some(x) => x,
            None => old(ticket).front_matter.title,
        },
        final(ticket).front_matter.ticket_type == match args.ticket_type {
            Some(x) => x,
            None => old(ticket).front_matter.ticket_type,
        },
        final(ticket).front_matter.status == match args.status {
            Some(x) => x,
            None => old(ticket).front_matter.status,
        },
        final(ticket).front_matter.tags@ == if args.tag@.len() > 0 {
            args.tag@
        } else {
            old(ticket).front_matter.tags@
        },
        final(ticket).front_matter.parent == if args.clear_parent {
            None
        } else if args.parent is Some {
            args.parent
        } else {
            old(ticket).front_matter.parent
        },
        final(ticket).front_matter.blocked_by@ == if args.clear_blocked_by {
            Seq::empty()
        } else if args.blocked_by@.len() > 0 {
            args.blocked_by@
        } else {
            old(ticket).front_matter.blocked_by@
        },
        final(ticket).front_matter.created_at == old(ticket).front_matter.created_at,
        final(ticket).front_matter.updated_at == now,
        final(ticket).body@ == match args.body {
            Some(b) => given_body(b@, stdin_text@),
            None => old(ticket).body@,
        },
{
    let title_changed = match &args.title {
        Some(t) => !crate::text::str_eq(t.as_str(), ticket.front_matter.title.as_str()),
        None => false,
    };
    let EditArgs { id: _, title, ticket_type, status, tag, parent, clear_parent, blocked_by, clear_blocked_by, body } = args;
    match title {
        Some(t) => ticket.front_matter.title = t,
        None => {},
    }
    match ticket_type {
        Some(t) => ticket.front_matter.ticket_type = t,
        None => {},
    }
    match status {
        Some(s) => ticket.front_matter.status = s,
        None => {},
    }
    if tag.len() > 0 {
        ticket.front_matter.tags = tag;
    }
    if clear_parent {
        ticket.front_matter.parent = None;
    } else if parent.is_some() {
        ticket.front_matter.parent = parent;
    }
    if clear_blocked_by {
        ticket.front_matter.blocked_by = Vec::new();
    } else if blocked_by.len() > 0 {
        ticket.front_matter.blocked_by = blocked_by;
    }
    ticket.front_matter.updated_at = now;
    match body {
        Some(b) => {
            if crate::text::str_eq(b.as_str(), "-") {
                ticket.body = stdin_text;
            } else {
                ticket.body = b;
            }
        },
        None => {},
    }
    title_changed
}

/// The path a ticket's file moves to after an edit: `None` when the path
/// has no file name or its name is already `<id>_<slug>.md` for the title,
/// else `<all_dir>/<id>_<slug>.md`.
pub fn renamed_path(all_dir: &str, current_path: &str, id: &TicketId, title: &Title) -> (r: Option<String>)
    ensures
        match file_name_of(current_path@) {
            None => r is None,
            Some(n) => if n == ticket_file_name(id@, slug(title@)) {
                r is None
            } else {
                r matches Some(p) && p@ == join_path(all_dir@, ticket_file_name(id@, slug(title@)))
            },
        },
{
    let name = match path_file_name(current_path) {
        Some(n) => n,
        None => return None,
    };
    if title.slug_matches_filename(id, name.as_str()) {
        return None;
    }
    let f = file_name_for(id, title);
    Some(join(all_dir, f.as_str()))
}

/// `tickets: <verb> <id> "<title>"`, the commit message of a change.
pub open spec fn commit_text(verb: Seq<char>, id: Seq<char>, title: Seq<char>) -> Seq<char> {
    "tickets: "@ + verb + " "@ + id + " \""@ + title + "\""@
}

/// The commit message of an edit: `tickets: edit <id> "<title>"`.
pub fn edit_message(t: &Ticket) -> (r: String)
    ensures
        r@ == commit_text("edit"@, t.front_matter.id@, t.front_matter.title@),
{
    let mut r = owned("tickets: ");
    push_str(&mut r, "edit");
    push_str(&mut r, " ");
    push_str(&mut r, t.front_matter.id.as_str());
    push_str(&mut r, " \"");
    push_str(&mut r, t.front_matter.title.as_str());
    push_str(&mut r, "\"");
    r
}

// ── new ──────────────────────────────────────────────────────────────────────

/// A ticket id character: a digit or a lowercase ASCII letter.
pub open spec fn id_char(c: char) -> bool {
    ('0' <= c && c <= '9') || ('a' <= c && c <= 'z')
}

/// Calls `nanoid::format` with the operating system's random source: a
/// random string of `size` characters drawn from `alphabet`. nanoid loops
/// until it has `size` bytes, so the alphabet must be ASCII and `size`
/// positive, and it panics on an alphabet longer than 255. Which
/// characters come out is chance.
#[verifier::external_body]
fn nanoid_format(alphabet: &[char], size: usize) -> (r: String)
    requires
        0 < alphabet@.len() <= 255,
        forall|i: int| 0 <= i < alphabet@.len() ==> (alphabet@[i] as u32) < 128,
        0 < size <= 1024,
    ensures
        r@.len() == size,
        forall|i: int| 0 <= i < r@.len() ==> alphabet@.contains(#[trigger] r@[i]),
{
    nanoid::format(nanoid::rngs::default, alphabet, size)
}

/// A fresh random ticket id: six digits or lowercase letters.
pub fn new_ticket_id() -> (r: TicketId)
    ensures
        r@.len() == 6,
        forall|i: int| 0 <= i < 6 ==> id_char(#[trigger] r@[i]),
{
    let alphabet = crate::text::chars_of("0123456789abcdefghijklmnopqrstuvwxyz");
    proof {
        reveal_strlit("0123456789abcdefghijklmnopqrstuvwxyz");
        assert forall|i: int| 0 <= i < alphabet@.len() implies (alphabet@[i] as u32) < 128 && id_char(alphabet@[i]) by {
            assert(alphabet@ == "0123456789abcdefghijklmnopqrstuvwxyz"@);
        }
    }
    let s = nanoid_format(alphabet.as_slice(), 6);
    proof {
        assert forall|i: int| 0 <= i < 6 implies id_char(#[trigger] s@[i]) by {
            let j = choose|j: int| 0 <= j < alphabet@.len() && alphabet@[j] == s@[i];
        }
    }
    TicketId::from_string(s)
}

/// What `tickets new` writes and prints.
pub struct NewTicket {
    pub ticket: Ticket,
    /// `<id>_<slug>.md`
    pub file_name: String,
    /// `tickets: new <id> "<title>"`
    pub commit_message: String,
    /// `<id> <file name>`
    pub report: String,
}

/// The ticket `tickets new` creates with the id `id` at `now`: the type and
/// status given, else the configured defaults; tags, parent and blockers as
/// given; the body given (`-` takes `stdin_text`), else empty. With its file
/// name, commit message and the line printed.
pub fn new_ticket(id: TicketId, now: Timestamp, cfg: &Config, args: NewArgs, stdin_text: String) -> (r: NewTicket)
    ensures
        r.ticket.front_matter.id@ == id@,
        r.ticket.front_matter.title == args.title,
        r.ticket.front_matter.ticket_type == match args.ticket_type {
            Some(t) => t,
            None => cfg.new.default_type,
        },
        r.ticket.front_matter.status == match args.status {
            Some(s) => s,
            None => cfg.new.default_status,
        },
        r.ticket.front_matter.tags@ == args.tag@,
        r.ticket.front_matter.parent == args.parent,
        r.ticket.front_matter.blocked_by@ == args.blocked_by@,
        r.ticket.front_matter.created_at == now,
        r.ticket.front_matter.updated_at == now,
        r.ticket.body@ == match args.body {
            Some(b) => given_body(b@, stdin_text@),
            None => Seq::empty(),
        },
        r.file_name@ == ticket_file_name(id@, slug(args.title@)),
        r.commit_message@ == commit_text("new"@, id@, args.title@),
        r.report@ == id@ + " "@ + ticket_file_name(id@, slug(args.title@)),
{
    let ticket_type = match args.ticket_type {
        Some(t) => t,
        None => cfg.new.default_type,
    };
    let status = match args.status {
        Some(s) => s,
        None => cfg.new.default_status,
    };
    let body = match args.body {
        Some(b) => if crate::text::str_eq(b.as_str(), "-") {
            stdin_text
        } else {
            b
        },
        None => String::new(),
    };
    let file_name = file_name_for(&id, &args.title);
    let mut commit_message = owned("tickets: ");
    push_str(&mut commit_message, "new");
    push_str(&mut commit_message, " ");
    push_str(&mut commit_message, id.as_str());
    push_str(&mut commit_message, " \"");
    push_str(&mut commit_message, args.title.as_str());
    push_str(&mut commit_message, "\"");
    let mut report = id.to_string();
    push_str(&mut report, " ");
    push_str(&mut report, file_name.as_str());
    let front_matter = FrontMatter {
        id,
        title: args.title,
        ticket_type,
        status,
        tags: args.tag,
        parent: args.parent,
        blocked_by: args.blocked_by,
        created_at: now,
        updated_at: now,
    };
    NewTicket { ticket: Ticket { front_matter, body }, file_name, commit_message, report }
}

/// The draft the board's `n` key creates in a column: titled `new ticket`,
/// a task with the column's status and nothing else, created at `now`;
/// with its file name `<id>_new-ticket.md`.
pub fn draft_ticket(id: TicketId, now: Timestamp, status: TicketStatus) -> (r: (Ticket, String))
    ensures
        r.0.front_matter.id@ == id@,
        r.0.front_matter.title@ == "new ticket"@,
        r.0.front_matter.ticket_type == TicketType::Task,
        r.0.front_matter.status == status,
        r.0.front_matter.tags@.len() == 0,
        r.0.front_matter.parent is None,
        r.0.front_matter.blocked_by@.len() == 0,
        r.0.front_matter.created_at == now,
        r.0.front_matter.updated_at == now,
        r.0.body@.len() == 0,
        r.1@ == ticket_file_name(id@, slug("new ticket"@)),
{
    let title = Title::from_raw(owned("new ticket"));
    let file_name = file_name_for(&id, &title);
    let front_matter = FrontMatter {
        id,
        title,
        ticket_type: TicketType::Task,
        status,
        tags: Vec::new(),
        parent: None,
        blocked_by: Vec::new(),
        created_at: now,
        updated_at: now,
    };
    (Ticket { front_matter, body: String::new() }, file_name)
}

// ── init ─────────────────────────────────────────────────────────────────────

/// Why `tickets init` refuses.
#[derive(Clone, Copy, Debug, PartialEq, Eq, Structural)]
pub enum InitError {
    /// `.tickets.toml` already exists and `--force` was not given.
    AlreadyInitialised,
}

impl InitError {
    /// The message shown to the user.
    pub fn message(&self) -> (r: String)
        ensures
            r@ == "already initialised — .tickets.toml already exists"@,
    {
        owned("already initialised — .tickets.toml already exists")
    }
}

/// Whether `tickets init` goes ahead: it refuses when the configuration file
/// exists and `--force` was not given. On success, the line it prints for
/// the configuration file: `  rewrote <path>` when it existed, else
/// `  created <path>`.
pub fn cmd_init(config_path: &str, config_exists: bool, force: bool) -> (r: Result<String, InitError>)
    ensures
        r is Err <==> (config_exists && !force),
        r matches Ok(line) ==> line@ == (if config_exists { "  rewrote "@ } else { "  created "@ })
            + config_path@,
{
    if config_exists && !force {
        return Err(InitError::AlreadyInitialised);
    }
    let mut line = if config_exists { owned("  rewrote ") } else { owned("  created ") };
    push_str(&mut line, config_path);
    Ok(line)
}

/// The line `tickets init` prints for one of its directories:
/// `  exists  <path>` or `  created <path>`.
pub fn directory_report(path: &str, existed: bool) -> (r: String)
    ensures
        r@ == (if existed { "  exists  "@ } else { "  created "@ }) + path@,
{
    let mut line = if existed { owned("  exists  ") } else { owned("  created ") };
    push_str(&mut line, path);
    line
}

// ── deps-graph ───────────────────────────────────────────────────────────────

/// The warning about tickets in a dependency cycle, or `None` when there are
/// none: `warning: dependency cycle detected among: <ids>`.
pub fn cycle_warning(ids: &Vec<TicketId>) -> (r: Option<String>)
    ensures
        r is None <==> ids@.len() == 0,
        r matches Some(w) ==> w@ == "warning: dependency cycle detected among: "@ + comma_joined(
            id_list_texts(ids@),
        ),
{
    if ids.len() == 0 {
        return None;
    }
    let mut w = owned("warning: dependency cycle detected among: ");
    let ss = id_strings(ids);
    push_comma_joined(&mut w, &ss);
    Some(w)
}

/// What `tickets deps-graph` prints: the rendered forest, and on standard
/// error the warning naming the tickets in cycles (sorted), if any.
pub fn cmd_deps_graph(graph: &crate::deps::DepsGraph) -> (r: (String, Option<String>))
    ensures
        r.0@ == graph.text_of_lines(graph.forest_lines()),
        exists|lines: Seq<crate::deps::ForestLine>| graph.forest_shape(lines) && r.0@ == graph.forest_text(lines),
        r.1 matches Some(w) ==> exists|ids: Seq<TicketId>|
            #![trigger id_list_texts(ids)]
            (forall|x: Seq<char>| #[trigger] id_list_texts(ids).contains(x) <==> exists|k: int|
                0 <= k < graph.names().len() && #[trigger] graph.names()[k] == x && crate::digraph::reaches(graph.edges(), k as nat, k as nat))
            && id_list_texts(ids).no_duplicates()
            && (forall|i: int, j: int| 0 <= i < j < ids.len() ==> !crate::text::text_lt(#[trigger] ids[j]@, #[trigger] ids[i]@))
            && w@ == "warning: dependency cycle detected among: "@ + comma_joined(id_list_texts(ids)),
        r.1 is None ==> forall|k: int| 0 <= k < graph.names().len() ==> !#[trigger] crate::digraph::reaches(graph.edges(), k as nat, k as nat),
{
    let out = crate::deps::render_forest(graph);
    let cyc = graph.cyclic_ids();
    let warning = cycle_warning(&cyc);
    proof {
        assert(id_list_texts(cyc@) =~= crate::graph::ids_of(cyc@));
        if warning is None {
            assert forall|k: int| 0 <= k < graph.names().len() implies !#[trigger] crate::digraph::reaches(graph.edges(), k as nat, k as nat) by {
                if crate::digraph::reaches(graph.edges(), k as nat, k as nat) {
                    assert(crate::graph::ids_of(cyc@).contains(graph.names()[k]));
                }
            }
        } else {
            let w = cyc@;
            assert(id_list_texts(w) == crate::graph::ids_of(cyc@));
        }
    }
    (out, warning)
}

} // verus!
