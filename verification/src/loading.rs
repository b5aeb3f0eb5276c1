//! Ticket files that could not be read or parsed, and how they are reported.
use vstd::prelude::*;

use crate::domain::TicketId;
use crate::id_map::IdMap;
use crate::text::{chars_of, decimal, owned, push_chars, push_decimal, push_str};

verus! {

/// A ticket file that exists but could not be turned into a ticket: either it
/// could not be read, or its contents could not be parsed.
pub struct LoadFailure {
    pub path: String,
    pub reason: String,
}

/// What std's `Path::file_name` gives for a path with this text: its final
/// component, or nothing when the path ends in `..` or has no component.
pub uninterp spec fn std_file_name(path: Seq<char>) -> Option<Seq<char>>;

/// The text after the last `/` of `path` (all of it when it has none).
pub open spec fn after_last_slash(path: Seq<char>) -> Seq<char>
    decreases path.len(),
{
    if path.len() == 0 {
        path
    } else if path.last() == '/' {
        Seq::empty()
    } else {
        after_last_slash(path.drop_last()).push(path.last())
    }
}

/// A plain file name: not empty, not `.` or `..`, and free of the
/// characters any platform reads as a separator or prefix (`/`, `\`, `:`).
pub open spec fn bare_name(n: Seq<char>) -> bool {
    &&& n.len() > 0
    &&& n != "."@
    &&& n != ".."@
    &&& forall|i: int| 0 <= i < n.len() ==> #[trigger] n[i] != '/' && n[i] != '\\' && n[i] != ':'
}

/// `Path::file_name`: a path whose text after its last `/` is a plain name
/// has that name as its file name; other paths go by std (`std_file_name`).
pub open spec fn file_name_of(path: Seq<char>) -> Option<Seq<char>> {
    if bare_name(after_last_slash(path)) {
        Some(after_last_slash(path))
    } else {
        std_file_name(path)
    }
}

/// Calls `Path::file_name` on the path `path`; the result is named
/// `std_file_name(path@)`. When the text after the last `/` is a plain
/// name, that name is the path's last component and the file name.
#[verifier::external_body]
pub(crate) fn path_file_name(path: &str) -> (r: Option<String>)
    ensures
        match r {
            Some(n) => std_file_name(path@) == Some(n@),
            None => std_file_name(path@) is None,
        },
        bare_name(after_last_slash(path@)) ==> r is Some && r->Some_0@ == after_last_slash(path@),
{
    std::path::Path::new(path).file_name().map(|n| n.to_string_lossy().into_owned())
}

/// The name a failure is reported under: the file name, or the whole path
/// when it has none.
pub open spec fn shown_name(path: Seq<char>) -> Seq<char> {
    match file_name_of(path) {
        Some(n) => n,
        None => path,
    }
}

/// One failure as reported: `<name> (<reason>)`.
pub open spec fn failure_entry(f: LoadFailure) -> Seq<char> {
    shown_name(f.path@) + " ("@ + f.reason@ + ")"@
}

/// The entries of `fs` joined by `, `.
pub open spec fn joined_entries(fs: Seq<LoadFailure>) -> Seq<char>
    decreases fs.len(),
{
    if fs.len() == 0 {
        Seq::empty()
    } else if fs.len() == 1 {
        failure_entry(fs[0])
    } else {
        joined_entries(fs.drop_last()) + ", "@ + failure_entry(fs.last())
    }
}

/// `<n> ticket(s) could not be loaded: <entries>`, with `ticket` in the
/// singular exactly when there is one failure.
pub open spec fn failure_summary(fs: Seq<LoadFailure>) -> Seq<char> {
    decimal(fs.len()) + (if fs.len() == 1 { " ticket"@ } else { " tickets"@ })
        + " could not be loaded: "@ + joined_entries(fs)
}

/// The summary of `failures` (see `failure_summary`).
pub fn summarize_failures(failures: &Vec<LoadFailure>) -> (r: String)
    ensures
        r@ == failure_summary(failures@),
{
    let mut r = String::new();
    push_decimal(&mut r, failures.len() as u128);
    if failures.len() == 1 {
        push_str(&mut r, " ticket");
    } else {
        push_str(&mut r, " tickets");
    }
    push_str(&mut r, " could not be loaded: ");
    let ghost head = r@;
    let mut i: usize = 0;
    while i < failures.len()
        invariant
            i <= failures.len(),
            r@ == head + joined_entries(failures@.take(i as int)),
        decreases failures.len() - i,
    {
        let f = &failures[i];
        if i > 0 {
            push_str(&mut r, ", ");
        }
        match path_file_name(f.path.as_str()) {
            Some(n) => push_str(&mut r, n.as_str()),
            None => push_str(&mut r, f.path.as_str()),
        }
        push_str(&mut r, " (");
        push_str(&mut r, f.reason.as_str());
        push_str(&mut r, ")");
        proof {
            assert(failures@.take(i + 1).drop_last() =~= failures@.take(i as int));
            assert(failures@.take(i + 1).last() == failures@[i as int]);
            if i == 0 {
                assert(failures@.take(0) =~= Seq::<LoadFailure>::empty());
            }
        }
        i = i + 1;
        assert(r@ =~= head + joined_entries(failures@.take(i as int)));
    }
    assert(failures@.take(failures.len() as int) =~= failures@);
    r
}

/// The warning naming every file that could not be loaded (`warning: `
/// followed by the summary), or `None` when nothing failed.
pub fn format_load_failures(failures: &Vec<LoadFailure>) -> (r: Option<String>)
    ensures
        match r {
            Some(m) => failures@.len() > 0 && m@ == "warning: "@ + failure_summary(failures@),
            None => failures@.len() == 0,
        },
{
    if failures.len() == 0 {
        return None;
    }
    let mut m = owned("warning: ");
    let s = summarize_failures(failures);
    push_str(&mut m, s.as_str());
    Some(m)
}

/// The id a file's name encodes: what precedes the first `_` of its name.
pub open spec fn id_in_file_name(path: Seq<char>) -> Option<Seq<char>> {
    match file_name_of(path) {
        Some(n) => if n.contains('_') {
            Some(n.take(n.index_of_first('_').unwrap()))
        } else {
            None
        },
        None => None,
    }
}

/// The id a ticket file's name encodes (`<id>_<slug>.md`), read off the name
/// rather than the contents.
pub fn id_from_filename(path: &str) -> (r: Option<TicketId>)
    ensures
        match r {
            Some(id) => id_in_file_name(path@) == Some(id@),
            None => id_in_file_name(path@) is None,
        },
{
    let name = match path_file_name(path) {
        Some(n) => n,
        None => return None,
    };
    let v = chars_of(name.as_str());
    let mut i: usize = 0;
    while i < v.len()
        invariant
            i <= v.len(),
            v@ == name@,
            file_name_of(path@) == Some(name@),
            forall|j: int| 0 <= j < i ==> v@[j] != '_',
        decreases v.len() - i,
    {
        if v[i] == '_' {
            let mut prefix = String::new();
            let mut k: usize = 0;
            while k < i
                invariant
                    k <= i < v.len(),
                    prefix@ == v@.take(k as int),
                decreases i - k,
            {
                crate::text::push_char(&mut prefix, v[k]);
                k = k + 1;
                assert(prefix@ =~= v@.take(k as int));
            }
            proof {
                v@.index_of_first_ensures('_');
                assert(v@.contains('_'));
                let f = v@.index_of_first('_').unwrap();
                if f < i {
                    assert(v@[f] != '_');
                } else if f > i {
                    assert(v@[i as int] == '_');
                }
            }
            return Some(TicketId::from_string(prefix));
        }
        i = i + 1;
    }
    None
}

/// The reason recorded for each failure whose file name encodes an id, keyed
/// by that id; a later failure for the same id replaces an earlier one.
pub open spec fn reasons_by_id(fs: Seq<LoadFailure>) -> Map<Seq<char>, String>
    decreases fs.len(),
{
    if fs.len() == 0 {
        Map::empty()
    } else {
        let m = reasons_by_id(fs.drop_last());
        match id_in_file_name(fs.last().path@) {
            Some(id) => m.insert(id, fs.last().reason),
            None => m,
        }
    }
}

/// Builds an id-to-reason lookup for every failure whose file name encodes
/// an id, so a present-but-unreadable file can be told apart from one that is
/// missing.
pub fn failures_by_id(failures: &Vec<LoadFailure>) -> (r: IdMap<String>)
    ensures
        r.wf(),
        r.map() == reasons_by_id(failures@),
{
    let mut r: IdMap<String> = IdMap::new();
    let mut i: usize = 0;
    while i < failures.len()
        invariant
            i <= failures.len(),
            r.wf(),
            r.map() == reasons_by_id(failures@.take(i as int)),
        decreases failures.len() - i,
    {
        let f = &failures[i];
        proof {
            assert(failures@.take(i + 1).drop_last() =~= failures@.take(i as int));
            assert(failures@.take(i + 1).last() == failures@[i as int]);
        }
        match id_from_filename(f.path.as_str()) {
            Some(id) => {
                r.insert(id, f.reason.clone());
            },
            None => {},
        }
        i = i + 1;
    }
    assert(failures@.take(failures.len() as int) =~= failures@);
    r
}

} // verus!
