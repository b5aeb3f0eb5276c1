//! `tickets archive`: which files move from `all/` to `archived/`, or why
//! nothing moves.
use vstd::prelude::*;

use crate::domain::{TicketId, TicketStatus};
use crate::text::{chars_of, has_prefix, owned, push_char, push_str, starts_with_chars};
use crate::workdir::{join, join_path, ArchiveArgs, WorkingDir};

verus! {

/// The position of the first name in `names`, from position `from` on, that
/// starts with `prefix`.
pub open spec fn first_with_prefix_from(names: Seq<Seq<char>>, prefix: Seq<char>, from: int) -> Option<
    int,
>
    decreases names.len() - from,
{
    if from < 0 || from >= names.len() {
        None
    } else if has_prefix(names[from], prefix) {
        Some(from)
    } else {
        first_with_prefix_from(names, prefix, from + 1)
    }
}

/// The texts of a list of strings.
pub open spec fn texts(v: Seq<String>) -> Seq<Seq<char>> {
    Seq::new(v.len(), |i: int| v[i]@)
}

/// The position of the first name in `names` that starts with `prefix`.
pub fn find_by_prefix(names: &Vec<String>, prefix: &str) -> (r: Option<usize>)
    ensures
        match r {
            Some(i) => i < names@.len() && first_with_prefix_from(texts(names@), prefix@, 0) == Some(
                i as int,
            ),
            None => first_with_prefix_from(texts(names@), prefix@, 0) is None,
        },
{
    let p = chars_of(prefix);
    let mut i: usize = 0;
    while i < names.len()
        invariant
            i <= names.len(),
            p@ == prefix@,
            first_with_prefix_from(texts(names@), prefix@, 0) == first_with_prefix_from(
                texts(names@),
                prefix@,
                i as int,
            ),
        decreases names.len() - i,
    {
        let n = chars_of(names[i].as_str());
        if starts_with_chars(&n, &p) {
            return Some(i);
        }
        i = i + 1;
    }
    None
}

/// What std's `Path::file_stem` gives for a path with this text: its file
/// name without the last extension, if it has a file name.
pub uninterp spec fn file_stem_of(path: Seq<char>) -> Option<Seq<char>>;

/// Calls `Path::file_stem`; the result is named `file_stem_of(path@)`.
#[verifier::external_body]
pub(crate) fn path_file_stem(path: &str) -> (r: Option<String>)
    ensures
        match r {
            Some(s) => file_stem_of(path@) == Some(s@),
            None => file_stem_of(path@) is None,
        },
{
    std::path::Path::new(path).file_stem().map(|s| s.to_string_lossy().into_owned())
}

/// `s` up to its first `_` (all of `s` when it has none).
pub open spec fn before_underscore(s: Seq<char>) -> Seq<char> {
    if s.contains('_') {
        s.take(s.index_of_first('_').unwrap())
    } else {
        s
    }
}

/// The id an archived file is reported under: its stem up to the first `_`,
/// or `?` when it has no stem.
pub open spec fn shown_id(path: Seq<char>) -> Seq<char> {
    match file_stem_of(path) {
        Some(stem) => before_underscore(stem),
        None => "?"@,
    }
}

fn text_before_underscore(s: &str) -> (r: String)
    ensures
        r@ == before_underscore(s@),
{
    let v = chars_of(s);
    let mut r = String::new();
    let mut i: usize = 0;
    while i < v.len() && v[i] != '_'
        invariant
            i <= v.len(),
            v@ == s@,
            r@ == v@.take(i as int),
            forall|j: int| 0 <= j < i ==> v@[j] != '_',
        decreases v.len() - i,
    {
        push_char(&mut r, v[i]);
        i = i + 1;
        assert(r@ =~= v@.take(i as int));
    }
    proof {
        if i < v.len() {
            v@.index_of_first_ensures('_');
            assert(v@.contains('_'));
            let f = v@.index_of_first('_').unwrap();
            if f < i {
                assert(v@[f] != '_');
            } else if f > i {
                assert(v@[i as int] == '_');
            }
        } else {
            assert(v@.take(i as int) =~= v@);
            if v@.contains('_') {
                let k = choose|k: int| 0 <= k < v@.len() && v@[k] == '_';
                assert(v@[k] != '_');
            }
        }
    }
    r
}

/// The id an archived file at `path` is reported under (see `shown_id`).
pub fn archived_id(path: &str) -> (r: String)
    ensures
        r@ == shown_id(path@),
{
    match path_file_stem(path) {
        Some(stem) => text_before_underscore(stem.as_str()),
        None => owned("?"),
    }
}

/// One file to move: from `src` in `all/` to `dst` in `archived/`, reported
/// under `id`, with the commit message used when changes are committed and
/// the line printed once the file has moved.
pub struct ArchiveMove {
    pub src: String,
    pub dst: String,
    pub id: String,
    pub message: String,
    pub report: String,
}

/// The move of the file named `name` out of the tickets directory `base`.
pub open spec fn move_of(m: ArchiveMove, base: Seq<char>, name: Seq<char>) -> bool {
    &&& m.src@ == join_path(join_path(base, "all"@), name)
    &&& m.dst@ == join_path(join_path(base, "archived"@), name)
    &&& m.id@ == shown_id(m.dst@)
    &&& m.message@ == "tickets: archive "@ + m.id@
    &&& m.report@ == m.id@ + "  archived \u{2192} "@ + m.dst@
}

/// The files in each directory, in listing order, as `tickets archive`
/// sees them.
pub struct ArchiveListing {
    /// Every file name in `all/`.
    pub all_names: Vec<String>,
    /// Every file name in `archived/`.
    pub archived_names: Vec<String>,
    /// The `.md` files in `all/` that loaded as tickets, in listing order:
    /// each file's name with its ticket's status.
    pub loaded: Vec<(String, TicketStatus)>,
}

/// The names of the loaded files whose ticket is rejected, in order.
pub open spec fn rejected_files(loaded: Seq<(String, TicketStatus)>) -> Seq<Seq<char>>
    decreases loaded.len(),
{
    if loaded.len() == 0 {
        Seq::empty()
    } else {
        let r = rejected_files(loaded.drop_last());
        if loaded.last().1 == TicketStatus::Rejected {
            r.push(loaded.last().0@)
        } else {
            r
        }
    }
}

/// Why `tickets archive` moved nothing.
#[derive(Debug, PartialEq, Eq)]
pub enum ArchiveError {
    /// Both `--all-rejected` and explicit ids were given.
    ConflictingArguments,
    /// Some ids could not be archived; one message per id, in order.
    Problems(Vec<String>),
}

/// What `tickets archive` does.
pub enum ArchivePlan {
    /// Move these files, in order.
    Moves(Vec<ArchiveMove>),
    /// `--all-rejected` found no rejected ticket.
    NothingToArchive,
}

/// `n` is the name of a loaded entry whose ticket is rejected.
pub open spec fn names_rejected_entry(loaded: Seq<(String, TicketStatus)>, n: Seq<char>) -> bool {
    exists|j: int| 0 <= j < loaded.len() && loaded[j].1 == TicketStatus::Rejected && loaded[j].0@ == n
}

/// `--all-rejected` picks exactly the rejected tickets: the names it moves
/// are those of the loaded entries whose status is `rejected`, in their
/// listing order, and no other; each named file holds a rejected ticket,
/// and there are as many as there are rejected entries.
pub proof fn lemma_rejected_files_are_the_rejected(loaded: Seq<(String, TicketStatus)>)
    ensures
        rejected_files(loaded) == loaded.filter(|e: (String, TicketStatus)| e.1 == TicketStatus::Rejected).map_values(
            |e: (String, TicketStatus)| e.0@,
        ),
        forall|k: int| 0 <= k < rejected_files(loaded).len() ==> names_rejected_entry(loaded, #[trigger] rejected_files(loaded)[k]),
        forall|j: int| 0 <= j < loaded.len() && loaded[j].1 == TicketStatus::Rejected ==> rejected_files(
            loaded,
        ).contains(#[trigger] loaded[j].0@),
{
    lemma_rejected_files_filter(loaded, |e: (String, TicketStatus)| e.1 == TicketStatus::Rejected, |e: (String, TicketStatus)| e.0@);
    lemma_rejected_files_members(loaded);
}

proof fn lemma_rejected_files_filter(
    loaded: Seq<(String, TicketStatus)>,
    pred: spec_fn((String, TicketStatus)) -> bool,
    name: spec_fn((String, TicketStatus)) -> Seq<char>,
)
    requires
        forall|e: (String, TicketStatus)| #[trigger] pred(e) == (e.1 == TicketStatus::Rejected),
        forall|e: (String, TicketStatus)| #[trigger] name(e) == e.0@,
    ensures
        rejected_files(loaded) == loaded.filter(pred).map_values(name),
    decreases loaded.len(),
{
    reveal(Seq::filter);
    if loaded.len() > 0 {
        let rest = loaded.drop_last();
        lemma_rejected_files_filter(rest, pred, name);
        if pred(loaded.last()) {
            assert(loaded.filter(pred) == rest.filter(pred).push(loaded.last()));
            assert(rest.filter(pred).push(loaded.last()).map_values(name) =~= rest.filter(pred).map_values(name).push(
                name(loaded.last()),
            ));
        } else {
            assert(loaded.filter(pred) == rest.filter(pred));
        }
    } else {
        assert(loaded.filter(pred).map_values(name) =~= Seq::<Seq<char>>::empty());
    }
}

proof fn lemma_rejected_files_members(loaded: Seq<(String, TicketStatus)>)
    ensures
        forall|k: int| 0 <= k < rejected_files(loaded).len() ==> names_rejected_entry(loaded, #[trigger] rejected_files(loaded)[k]),
        forall|j: int| 0 <= j < loaded.len() && loaded[j].1 == TicketStatus::Rejected ==> rejected_files(
            loaded,
        ).contains(#[trigger] loaded[j].0@),
    decreases loaded.len(),
{
    if loaded.len() > 0 {
        let rest = loaded.drop_last();
        lemma_rejected_files_members(rest);
        let r0 = rejected_files(rest);
        assert forall|k: int| 0 <= k < rejected_files(loaded).len() implies names_rejected_entry(loaded, #[trigger] rejected_files(loaded)[k]) by {
            if k < r0.len() {
                assert(rejected_files(loaded)[k] == r0[k]);
                assert(names_rejected_entry(rest, r0[k]));
                let j = choose|j: int| 0 <= j < rest.len() && rest[j].1 == TicketStatus::Rejected && r0[k] == rest[j].0@;
                assert(loaded[j] == rest[j]);
                assert(0 <= j < loaded.len() && loaded[j].1 == TicketStatus::Rejected && rejected_files(loaded)[k] == loaded[j].0@);
            } else {
                let j = loaded.len() - 1;
                assert(loaded[j] == loaded.last());
                assert(0 <= j < loaded.len() && loaded[j].1 == TicketStatus::Rejected && rejected_files(loaded)[k] == loaded[j].0@);
            }
        }
        assert forall|j: int| 0 <= j < loaded.len() && loaded[j].1 == TicketStatus::Rejected implies rejected_files(loaded).contains(
            #[trigger] loaded[j].0@,
        ) by {
            if j < rest.len() {
                assert(loaded[j] == rest[j]);
                assert(r0.contains(rest[j].0@));
                let k = choose|k: int| 0 <= k < r0.len() && r0[k] == rest[j].0@;
                assert(rejected_files(loaded)[k] == r0[k]);
            } else {
                assert(loaded[j] == loaded.last());
                assert(rejected_files(loaded)[rejected_files(loaded).len() - 1] == loaded.last().0@);
            }
        }
    }
}

/// The problem archiving id `id` runs into, if any: none when a file in
/// `all/` starts with `<id>_`; otherwise `<id>: already in archived/` when
/// such a file is in `archived/`, else `<id>: not found`.
pub open spec fn archive_problem(id: Seq<char>, all: Seq<Seq<char>>, archived: Seq<Seq<char>>) -> Option<
    Seq<char>,
> {
    let prefix = id + "_"@;
    if first_with_prefix_from(all, prefix, 0) is Some {
        None
    } else if first_with_prefix_from(archived, prefix, 0) is Some {
        Some(id + ": already in archived/"@)
    } else {
        Some(id + ": not found"@)
    }
}

/// The problems of all `ids`, in order.
pub open spec fn archive_problems(ids: Seq<Seq<char>>, all: Seq<Seq<char>>, archived: Seq<Seq<char>>) -> Seq<
    Seq<char>,
>
    decreases ids.len(),
{
    if ids.len() == 0 {
        Seq::empty()
    } else {
        let r = archive_problems(ids.drop_last(), all, archived);
        match archive_problem(ids.last(), all, archived) {
            Some(p) => r.push(p),
            None => r,
        }
    }
}

/// The texts of a list of ids.
pub open spec fn id_texts(v: Seq<TicketId>) -> Seq<Seq<char>> {
    Seq::new(v.len(), |i: int| v[i]@)
}

impl ArchiveError {
    /// The message shown to the user.
    pub fn message(&self) -> (r: String)
        ensures
            r@ == match self {
                ArchiveError::ConflictingArguments => "--all-rejected and explicit IDs are mutually exclusive"@,
                ArchiveError::Problems(_) => "no files moved"@,
            },
    {
        match self {
            ArchiveError::ConflictingArguments => owned(
                "--all-rejected and explicit IDs are mutually exclusive",
            ),
            ArchiveError::Problems(_) => owned("no files moved"),
        }
    }
}

fn make_move(dir: &WorkingDir, name: &str) -> (m: ArchiveMove)
    ensures
        move_of(m, dir.base_spec(), name@),
{
    let all = dir.all();
    let archived = dir.archived();
    let src = join(all.as_str(), name);
    let dst = join(archived.as_str(), name);
    let id = archived_id(dst.as_str());
    let mut message = owned("tickets: archive ");
    push_str(&mut message, id.as_str());
    let mut report = id.clone();
    push_str(&mut report, "  archived \u{2192} ");
    push_str(&mut report, dst.as_str());
    ArchiveMove { src, dst, id, message, report }
}

/// Plans `tickets archive`: with `--all-rejected`, every rejected ticket's
/// file (nothing to archive when there is none); otherwise, for each id in
/// turn, the first file in `all/` named `<id>_...`. Explicit ids together
/// with `--all-rejected` are refused, and so is the whole request when any
/// id has a problem (see `archive_problem`): then nothing moves.
pub fn cmd_archive(dir: &WorkingDir, args: &ArchiveArgs, listing: &ArchiveListing) -> (r: Result<
    ArchivePlan,
    ArchiveError,
>)
    ensures
        args.all_rejected && args.ids@.len() > 0 ==> r == Err::<ArchivePlan, ArchiveError>(
            ArchiveError::ConflictingArguments,
        ),
        args.all_rejected && args.ids@.len() == 0 ==> match r {
            Ok(ArchivePlan::NothingToArchive) => rejected_files(listing.loaded@).len() == 0,
            Ok(ArchivePlan::Moves(ms)) => rejected_files(listing.loaded@).len() > 0 && ms@.len()
                == rejected_files(listing.loaded@).len() && forall|i: int|
                0 <= i < ms@.len() ==> move_of(
                    #[trigger] ms@[i],
                    dir.base_spec(),
                    rejected_files(listing.loaded@)[i],
                ),
            Err(_) => false,
        },
        !args.all_rejected ==> ({
            let problems = archive_problems(
                id_texts(args.ids@),
                texts(listing.all_names@),
                texts(listing.archived_names@),
            );
            match r {
                Err(ArchiveError::Problems(ps)) => problems.len() > 0 && texts(ps@) == problems,
                Ok(ArchivePlan::Moves(ms)) => problems.len() == 0 && ms@.len() == args.ids@.len()
                    && forall|i: int|
                    0 <= i < ms@.len() ==> {
                        let k = first_with_prefix_from(
                            texts(listing.all_names@),
                            args.ids@[i]@ + "_"@,
                            0,
                        )->0;
                        move_of(
                            #[trigger] ms@[i],
                            dir.base_spec(),
                            listing.all_names@[k]@,
                        )
                    },
                _ => false,
            }
        }),
{
    if args.all_rejected && args.ids.len() > 0 {
        return Err(ArchiveError::ConflictingArguments);
    }
    if args.all_rejected {
        let loaded = &listing.loaded;
        let mut ms: Vec<ArchiveMove> = Vec::new();
        let mut i: usize = 0;
        while i < loaded.len()
            invariant
                i <= loaded.len(),
                ms@.len() == rejected_files(loaded@.take(i as int)).len(),
                forall|j: int|
                    0 <= j < ms@.len() ==> move_of(
                        #[trigger] ms@[j],
                        dir.base_spec(),
                        rejected_files(loaded@.take(i as int))[j],
                    ),
            decreases loaded.len() - i,
        {
            proof {
                assert(loaded@.take(i + 1).drop_last() =~= loaded@.take(i as int));
                assert(loaded@.take(i + 1).last() == loaded@[i as int]);
            }
            if loaded[i].1 == TicketStatus::Rejected {
                ms.push(make_move(dir, loaded[i].0.as_str()));
            }
            i = i + 1;
        }
        proof {
            assert(loaded@.take(loaded.len() as int) =~= loaded@);
        }
        if ms.len() == 0 {
            return Ok(ArchivePlan::NothingToArchive);
        }
        return Ok(ArchivePlan::Moves(ms));
    }
    let ids = &args.ids;
    let ghost all_t = texts(listing.all_names@);
    let ghost arch_t = texts(listing.archived_names@);
    let mut problems: Vec<String> = Vec::new();
    let mut ms: Vec<ArchiveMove> = Vec::new();
    let mut i: usize = 0;
    while i < ids.len()
        invariant
            i <= ids.len(),
            all_t == texts(listing.all_names@),
            arch_t == texts(listing.archived_names@),
            texts(problems@) == archive_problems(id_texts(ids@).take(i as int), all_t, arch_t),
            problems@.len() == 0 ==> ms@.len() == i && forall|j: int|
                0 <= j < i ==> {
                    let k = first_with_prefix_from(all_t, ids@[j]@ + "_"@, 0)->0;
                    move_of(#[trigger] ms@[j], dir.base_spec(), listing.all_names@[k]@)
                },
        decreases ids.len() - i,
    {
        let mut prefix = ids[i].to_string();
        push_str(&mut prefix, "_");
        proof {
            assert(id_texts(ids@).take(i + 1).drop_last() =~= id_texts(ids@).take(i as int));
            assert(id_texts(ids@).take(i + 1).last() == ids@[i as int]@);
        }
        match find_by_prefix(&listing.all_names, prefix.as_str()) {
            Some(k) => {
                if problems.len() == 0 {
                    ms.push(make_move(dir, listing.all_names[k].as_str()));
                }
            },
            None => {
                let mut msg = ids[i].to_string();
                match find_by_prefix(&listing.archived_names, prefix.as_str()) {
                    Some(_) => push_str(&mut msg, ": already in archived/"),
                    None => push_str(&mut msg, ": not found"),
                }
                let ghost before = problems@;
                problems.push(msg);
                proof {
                    assert(texts(problems@) =~= texts(before).push(problems@.last()@));
                }
            },
        }
        i = i + 1;
    }
    assert(id_texts(ids@).take(ids.len() as int) =~= id_texts(ids@));
    if problems.len() > 0 {
        return Err(ArchiveError::Problems(problems));
    }
    Ok(ArchivePlan::Moves(ms))
}

} // verus!
