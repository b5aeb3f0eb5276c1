//! The tickets directory and the arguments of each command.
use vstd::prelude::*;

use crate::domain::{Tag, TicketId, TicketStatus, TicketType, Title};
use crate::text::{chars_of, owned, push_str};

verus! {

/// What std's `Path::join` gives for a relative component: the component
/// appended after a `/`, unless the base is empty or already ends in `/`.
pub open spec fn join_path(base: Seq<char>, comp: Seq<char>) -> Seq<char> {
    if base.len() == 0 || base.last() == '/' {
        base + comp
    } else {
        base + "/"@ + comp
    }
}

/// `base` joined with the relative component `comp`.
pub fn join(base: &str, comp: &str) -> (r: String)
    ensures
        r@ == join_path(base@, comp@),
{
    let b = chars_of(base);
    let mut r = owned(base);
    if b.len() > 0 && b[b.len() - 1] != '/' {
        push_str(&mut r, "/");
    }
    push_str(&mut r, comp);
    r
}

/// The directory of active tickets under `base`.
pub fn all_path(base: &str) -> (r: String)
    ensures
        r@ == join_path(base@, "all"@),
{
    join(base, "all")
}

/// The directory of archived tickets under `base`.
pub fn archived_path(base: &str) -> (r: String)
    ensures
        r@ == join_path(base@, "archived"@),
{
    join(base, "archived")
}

/// Why a tickets directory cannot be used.
#[derive(Debug, PartialEq, Eq)]
pub enum WorkingDirError {
    /// `all/` or `archived/` is missing.
    NotInitialised,
}

impl WorkingDirError {
    /// The message shown to the user.
    pub fn message(&self) -> (r: String)
        ensures
            r@ == "tickets directory not initialised — run `tickets init` first"@,
    {
        owned("tickets directory not initialised — run `tickets init` first")
    }
}

/// An initialised tickets directory: one with both `all/` and `archived/`.
pub struct WorkingDir {
    base: String,
}

impl WorkingDir {
    /// The directory's own path.
    pub closed spec fn base_spec(&self) -> Seq<char> {
        self.base@
    }

    /// The tickets directory at `base`, given whether its `all/` and its
    /// `archived/` subdirectories exist: refused unless both do.
    pub fn new(base: String, all_exists: bool, archived_exists: bool) -> (r: Result<
        WorkingDir,
        WorkingDirError,
    >)
        ensures
            match r {
                Ok(wd) => all_exists && archived_exists && wd.base_spec() == base@,
                Err(_) => !(all_exists && archived_exists),
            },
    {
        if !all_exists || !archived_exists {
            return Err(WorkingDirError::NotInitialised);
        }
        Ok(WorkingDir { base })
    }

    /// The directory's own path.
    pub fn as_str(&self) -> (r: &str)
        ensures
            r@ == self.base_spec(),
    {
        self.base.as_str()
    }

    /// The directory of active tickets: `<base>/all`.
    pub fn all(&self) -> (r: String)
        ensures
            r@ == join_path(self.base_spec(), "all"@),
    {
        all_path(self.base.as_str())
    }

    /// The directory of archived tickets: `<base>/archived`.
    pub fn archived(&self) -> (r: String)
        ensures
            r@ == join_path(self.base_spec(), "archived"@),
    {
        archived_path(self.base.as_str())
    }
}

// ── command arguments ────────────────────────────────────────────────────────

/// Arguments of `tickets list`.
pub struct ListArgs {
    /// Keep tickets with any of these statuses (all when empty).
    pub status: Vec<TicketStatus>,
    /// Keep tickets of any of these types (all when empty).
    pub ticket_type: Vec<TicketType>,
    /// Keep tickets carrying every one of these tags.
    pub tag: Vec<Tag>,
    /// Keep only tickets whose blockers are all satisfied.
    pub unblocked: bool,
}

/// Arguments of `tickets archive`.
pub struct ArchiveArgs {
    /// Ticket ids to archive.
    pub ids: Vec<TicketId>,
    /// Archive every ticket with status `rejected`.
    pub all_rejected: bool,
}

/// Arguments of `tickets edit`.
pub struct EditArgs {
    pub id: TicketId,
    pub title: Option<Title>,
    pub ticket_type: Option<TicketType>,
    pub status: Option<TicketStatus>,
    /// Replace the tags (kept when empty).
    pub tag: Vec<Tag>,
    pub parent: Option<TicketId>,
    pub clear_parent: bool,
    /// Replace the blockers (kept when empty).
    pub blocked_by: Vec<TicketId>,
    pub clear_blocked_by: bool,
    /// New body; `-` means read it from standard input.
    pub body: Option<String>,
}

/// Arguments of `tickets new`.
pub struct NewArgs {
    pub title: Title,
    /// Type; the configured default when absent.
    pub ticket_type: Option<TicketType>,
    pub tag: Vec<Tag>,
    pub parent: Option<TicketId>,
    pub blocked_by: Vec<TicketId>,
    /// Status; the configured default when absent.
    pub status: Option<TicketStatus>,
    /// Body; `-` means read it from standard input.
    pub body: Option<String>,
}

} // verus!
