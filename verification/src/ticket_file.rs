//! The layout of a ticket file: a `---` line, the YAML front matter, a closing
//! `---` line, then (after one blank line) the markdown body.
use vstd::prelude::*;

use crate::text::{chars_of, contains_seq, find_seq, first_occurrence, has_prefix, occurs_at,
    owned, push_str, starts_with_chars, string_from_chars};

verus! {

/// The opening delimiter line.
pub open spec fn open_delim() -> Seq<char> {
    "---\n"@
}

/// The closing delimiter, found with the newline that ends the YAML.
pub open spec fn close_delim() -> Seq<char> {
    "\n---\n"@
}

/// The text after the opening delimiter, or the whole text when it has none.
pub open spec fn strip_open(s: Seq<char>) -> Seq<char> {
    if has_prefix(s, open_delim()) {
        s.skip(4)
    } else {
        s
    }
}

/// `s` without its leading newlines.
pub open spec fn trim_leading_newlines(s: Seq<char>) -> Seq<char>
    decreases s.len(),
{
    if s.len() > 0 && s[0] == '\n' {
        trim_leading_newlines(s.drop_first())
    } else {
        s
    }
}

/// How a ticket file splits into its YAML and its body: the YAML runs up to
/// the first closing delimiter, the body is what follows it, leading blank
/// lines dropped. `None` when there is no closing delimiter.
pub open spec fn split_spec(s: Seq<char>) -> Option<(Seq<char>, Seq<char>)> {
    let t = strip_open(s);
    if contains_seq(t, close_delim()) {
        let i = choose|i: int| first_occurrence(t, close_delim(), i);
        Some((t.take(i), trim_leading_newlines(t.skip(i + 5))))
    } else {
        None
    }
}

/// The text of a ticket file with this YAML (which ends in a newline) and body.
pub open spec fn compose_spec(yaml: Seq<char>, body: Seq<char>) -> Seq<char> {
    if body.len() == 0 {
        open_delim() + yaml + open_delim()
    } else {
        open_delim() + yaml + open_delim() + "\n"@ + body
    }
}

/// Why a ticket file could not be split.
#[derive(Debug, PartialEq, Eq)]
pub enum FrameError {
    /// No closing `---` line after the front matter.
    MissingClosingDelimiter,
}

impl FrameError {
    /// The message shown to the user.
    pub fn message(&self) -> (r: String)
        ensures
            r@ == "missing front matter closing delimiter"@,
    {
        owned("missing front matter closing delimiter")
    }
}

proof fn lemma_first_occurrence_unique(t: Seq<char>, d: Seq<char>, i: int, j: int)
    requires
        first_occurrence(t, d, i),
        first_occurrence(t, d, j),
    ensures
        i == j,
{
    if i < j {
        assert(!occurs_at(t, d, i));
    } else if j < i {
        assert(!occurs_at(t, d, j));
    }
}

/// Splits a ticket file into its YAML front matter and its body.
pub fn split_front_matter(s: &str) -> (r: Result<(String, String), FrameError>)
    ensures
        match r {
            Ok((yaml, body)) => split_spec(s@) == Some((yaml@, body@)),
            Err(_) => split_spec(s@) is None,
        },
{
    let all = chars_of(s);
    let open = chars_of("---\n");
    let mut t: Vec<char> = Vec::new();
    let start: usize = if starts_with_chars(&all, &open) { 4 } else { 0 };
    proof {
        reveal_strlit("---\n");
    }
    let mut k = start;
    while k < all.len()
        invariant
            start <= k <= all.len(),
            start == 0 || start == 4,
            start == 4 ==> all@.len() >= 4,
            t@ == all@.subrange(start as int, k as int),
        decreases all.len() - k,
    {
        t.push(all[k]);
        k = k + 1;
        assert(t@ =~= all@.subrange(start as int, k as int));
    }
    assert(t@ =~= strip_open(s@));
    let delim = chars_of("\n---\n");
    proof {
        reveal_strlit("\n---\n");
    }
    match find_seq(&t, &delim) {
        None => Err(FrameError::MissingClosingDelimiter),
        Some(i) => {
            proof {
                assert(first_occurrence(t@, close_delim(), i as int));
                let c = choose|c: int| first_occurrence(t@, close_delim(), c);
                lemma_first_occurrence_unique(t@, close_delim(), c, i as int);
            }
            let mut yaml: Vec<char> = Vec::new();
            let mut j: usize = 0;
            while j < i
                invariant
                    j <= i,
                    i + 5 <= t.len(),
                    yaml@ == t@.take(j as int),
                decreases i - j,
            {
                yaml.push(t[j]);
                j = j + 1;
                assert(yaml@ =~= t@.take(j as int));
            }
            let mut b = i + 5;
            assert(t@.skip(b as int) == t@.skip(i + 5));
            while b < t.len() && t[b] == '\n'
                invariant
                    i + 5 <= b <= t.len(),
                    trim_leading_newlines(t@.skip(i + 5)) == trim_leading_newlines(
                        t@.skip(b as int),
                    ),
                decreases t.len() - b,
            {
                assert(t@.skip(b as int).drop_first() =~= t@.skip(b + 1));
                b = b + 1;
            }
            let mut body: Vec<char> = Vec::new();
            let mut m = b;
            while m < t.len()
                invariant
                    b <= m <= t.len(),
                    body@ == t@.subrange(b as int, m as int),
                decreases t.len() - m,
            {
                body.push(t[m]);
                m = m + 1;
                assert(body@ =~= t@.subrange(b as int, m as int));
            }
            assert(body@ =~= t@.skip(b as int));
            Ok((string_from_chars(&yaml), string_from_chars(&body)))
        },
    }
}

/// The text of a ticket file: `---`, the YAML (ending in a newline), `---`,
/// then a blank line and the body when there is one.
pub fn compose_ticket(yaml: &str, body: &str) -> (r: String)
    ensures
        r@ == compose_spec(yaml@, body@),
{
    let mut r = owned("---\n");
    push_str(&mut r, yaml);
    push_str(&mut r, "---\n");
    let bv = chars_of(body);
    if bv.len() > 0 {
        push_str(&mut r, "\n");
        push_str(&mut r, body);
    }
    r
}

/// Splitting a composed ticket file gives back its YAML (without the final
/// newline) and its body, as long as the YAML holds no earlier closing
/// delimiter and the body does not begin with a blank line.
pub proof fn lemma_split_compose(yaml: Seq<char>, body: Seq<char>)
    requires
        yaml.len() >= 1,
        yaml.last() == '\n',
        forall|j: int| 0 <= j < yaml.len() - 1 ==> !occurs_at(yaml + open_delim(), close_delim(), j),
        body.len() == 0 || body[0] != '\n',
    ensures
        split_spec(compose_spec(yaml, body)) == Some((yaml.drop_last(), body)),
{
    reveal_strlit("---\n");
    reveal_strlit("\n---\n");
    reveal_strlit("\n");
    let s = compose_spec(yaml, body);
    let rest: Seq<char> = if body.len() == 0 { Seq::empty() } else { "\n"@ + body };
    assert(s =~= open_delim() + (yaml + open_delim() + rest));
    assert(s.take(4) =~= open_delim());
    let t = strip_open(s);
    assert(t =~= yaml + open_delim() + rest);
    let k = yaml.len() - 1;
    assert(t.subrange(k, k + 5) =~= close_delim());
    assert forall|j: int| 0 <= j < k implies !occurs_at(t, close_delim(), j) by {
        if occurs_at(t, close_delim(), j) {
            assert((yaml + open_delim()).subrange(j, j + 5) =~= t.subrange(j, j + 5));
            assert(occurs_at(yaml + open_delim(), close_delim(), j));
        }
    }
    assert(first_occurrence(t, close_delim(), k));
    let c = choose|c: int| first_occurrence(t, close_delim(), c);
    lemma_first_occurrence_unique(t, close_delim(), c, k);
    assert(t.take(k) =~= yaml.drop_last());
    assert(t.skip(k + 5) =~= rest);
    if body.len() > 0 {
        assert(rest.drop_first() =~= body);
        assert(trim_leading_newlines(rest) == trim_leading_newlines(body));
    }
    assert(trim_leading_newlines(rest) == body);
}

} // verus!
