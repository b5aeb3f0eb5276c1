//! How a `blocked_by` id resolves against the active tickets, the archived
//! tickets and the archived files that could not be loaded, and whether it
//! still blocks.
use vstd::prelude::*;

use crate::domain::{Ticket, TicketId, TicketStatus};
use crate::id_map::IdMap;
use crate::text::{owned, push_str};

verus! {

/// How a single `blocked_by` id resolves: against the active tickets first,
/// then one lookup among the archived tickets, then among the archived files
/// that failed to load. Every id lands in exactly one variant.
#[derive(Debug, PartialEq, Eq)]
pub enum BlockerResolution {
    /// The blocker is an active ticket, whatever its status.
    Active(TicketId),
    /// Not active, archived with status `done`: satisfied.
    ArchivedDone(TicketId),
    /// Not active, archived with another status (carried): not satisfied.
    ArchivedStub(TicketId, TicketStatus),
    /// Not active and found nowhere: not satisfied.
    Missing(TicketId),
    /// Not active, its archived file exists but could not be loaded (the
    /// reason is carried): not satisfied.
    ArchivedUnreadable(TicketId, String),
}

/// Resolves one `blocked_by` id (see `BlockerResolution`).
pub fn resolve_blocker(
    active: &IdMap<Ticket>,
    archived: &IdMap<Ticket>,
    archived_failures: &IdMap<String>,
    id: &TicketId,
) -> (r: BlockerResolution)
    requires
        active.wf(),
        archived.wf(),
        archived_failures.wf(),
    ensures
        match r {
            BlockerResolution::Active(x) => x@ == id@ && active.map().dom().contains(id@),
            BlockerResolution::ArchivedDone(x) => x@ == id@ && !active.map().dom().contains(id@)
                && archived.map().dom().contains(id@)
                && archived.map()[id@].front_matter.status == TicketStatus::Done,
            BlockerResolution::ArchivedStub(x, st) => x@ == id@ && !active.map().dom().contains(
                id@,
            ) && archived.map().dom().contains(id@) && st == archived.map()[id@].front_matter.status
                && st != TicketStatus::Done,
            BlockerResolution::ArchivedUnreadable(x, reason) => x@ == id@
                && !active.map().dom().contains(id@) && !archived.map().dom().contains(id@)
                && archived_failures.map().dom().contains(id@) && reason
                == archived_failures.map()[id@],
            BlockerResolution::Missing(x) => x@ == id@ && !active.map().dom().contains(id@)
                && !archived.map().dom().contains(id@) && !archived_failures.map().dom().contains(
                id@,
            ),
        },
{
    if active.contains_key(id) {
        return BlockerResolution::Active(id.clone());
    }
    match archived.get(id) {
        Some(ticket) => {
            if ticket.front_matter.status == TicketStatus::Done {
                BlockerResolution::ArchivedDone(id.clone())
            } else {
                BlockerResolution::ArchivedStub(id.clone(), ticket.front_matter.status)
            }
        },
        None => match archived_failures.get(id) {
            Some(reason) => BlockerResolution::ArchivedUnreadable(id.clone(), reason.clone()),
            None => BlockerResolution::Missing(id.clone()),
        },
    }
}

/// Whether a resolved blocker no longer blocks: only a `done` ticket
/// (active or archived) satisfies a dependency.
pub fn blocker_satisfied(active: &IdMap<Ticket>, resolution: &BlockerResolution) -> (r: bool)
    requires
        active.wf(),
        resolution matches BlockerResolution::Active(id) ==> active.map().dom().contains(id@),
    ensures
        r == match resolution {
            BlockerResolution::Active(id) => active.map()[id@].front_matter.status
                == TicketStatus::Done,
            BlockerResolution::ArchivedDone(_) => true,
            _ => false,
        },
{
    match resolution {
        BlockerResolution::Active(id) => match active.get(id) {
            Some(t) => t.front_matter.status == TicketStatus::Done,
            None => false,
        },
        BlockerResolution::ArchivedDone(_) => true,
        BlockerResolution::ArchivedStub(_, _) => false,
        BlockerResolution::Missing(_) => false,
        BlockerResolution::ArchivedUnreadable(_, _) => false,
    }
}

/// Whether the blocker with this id is satisfied: it is the id of an active
/// ticket that is `done`, or, when no active ticket has it, of an archived
/// ticket that is `done`.
pub open spec fn blocker_done(
    active: Map<Seq<char>, Ticket>,
    archived: Map<Seq<char>, Ticket>,
    id: Seq<char>,
) -> bool {
    if active.dom().contains(id) {
        active[id].front_matter.status == TicketStatus::Done
    } else {
        archived.dom().contains(id) && archived[id].front_matter.status == TicketStatus::Done
    }
}

/// Whether every one of `ticket`'s blockers is satisfied (or it has none).
pub fn is_unblocked(
    active: &IdMap<Ticket>,
    archived: &IdMap<Ticket>,
    archived_failures: &IdMap<String>,
    ticket: &Ticket,
) -> (r: bool)
    requires
        active.wf(),
        archived.wf(),
        archived_failures.wf(),
    ensures
        r == forall|i: int|
            0 <= i < ticket.front_matter.blocked_by@.len() ==> blocker_done(
                active.map(),
                archived.map(),
                #[trigger] ticket.front_matter.blocked_by@[i]@,
            ),
{
    let blockers = &ticket.front_matter.blocked_by;
    let mut i: usize = 0;
    while i < blockers.len()
        invariant
            i <= blockers.len(),
            active.wf(),
            archived.wf(),
            archived_failures.wf(),
            blockers == &ticket.front_matter.blocked_by,
            forall|j: int|
                0 <= j < i ==> blocker_done(active.map(), archived.map(), #[trigger] blockers@[j]@),
        decreases blockers.len() - i,
    {
        let res = resolve_blocker(active, archived, archived_failures, &blockers[i]);
        if !blocker_satisfied(active, &res) {
            return false;
        }
        i = i + 1;
    }
    true
}

/// How an out-of-active-set blocker that does not satisfy its dependency is
/// shown in the dependency graph.
#[derive(Debug, PartialEq, Eq)]
pub enum StubKind {
    /// Archived, but not `done`; carries the status.
    Archived(TicketStatus),
    /// Found nowhere.
    Missing,
    /// Archived file present but unreadable; carries the reason.
    Unreadable(String),
}

impl StubKind {
    /// The root line shown for the stub with this id.
    pub open spec fn label_spec(self, id: Seq<char>) -> Seq<char> {
        match self {
            StubKind::Archived(status) => "[archived: "@ + id + " "@ + status.label() + "]"@,
            StubKind::Missing => "[missing: "@ + id + "]"@,
            StubKind::Unreadable(reason) => "[unreadable: "@ + id + " ("@ + reason@ + ")]"@,
        }
    }

    /// The root line shown for the stub with this id: `[archived: <id>
    /// <status>]`, `[missing: <id>]` or `[unreadable: <id> (<reason>)]`.
    pub fn label(&self, id: &TicketId) -> (r: String)
        ensures
            r@ == self.label_spec(id@),
    {
        match self {
            StubKind::Archived(status) => {
                let mut r = owned("[archived: ");
                push_str(&mut r, id.as_str());
                push_str(&mut r, " ");
                push_str(&mut r, status.as_str());
                push_str(&mut r, "]");
                r
            },
            StubKind::Missing => {
                let mut r = owned("[missing: ");
                push_str(&mut r, id.as_str());
                push_str(&mut r, "]");
                r
            },
            StubKind::Unreadable(reason) => {
                let mut r = owned("[unreadable: ");
                push_str(&mut r, id.as_str());
                push_str(&mut r, " (");
                push_str(&mut r, reason.as_str());
                push_str(&mut r, ")]");
                r
            },
        }
    }
}

/// The three stub forms read differently whatever the ids: a stub of one
/// kind never shows the same line as a stub of another kind.
pub proof fn lemma_stub_labels_distinct(a: StubKind, b: StubKind, x: Seq<char>, y: Seq<char>)
    requires
        !(a is Archived && b is Archived),
        !(a is Missing && b is Missing),
        !(a is Unreadable && b is Unreadable),
    ensures
        a.label_spec(x) != b.label_spec(y),
{
    reveal_strlit("[archived: ");
    reveal_strlit("[missing: ");
    reveal_strlit("[unreadable: ");
    assert(a.label_spec(x)[1] != b.label_spec(y)[1]);
}

} // verus!
