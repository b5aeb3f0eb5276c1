//! Per-directory configuration (`.tickets.toml`) and its defaults.
use vstd::prelude::*;

use crate::domain::{TicketStatus, TicketType};
use crate::text::owned;

verus! {

/// Whether changes are committed to git automatically.
pub struct GitConfig {
    pub auto_commit: bool,
}

/// The kanban board's columns, by status name.
pub struct TuiConfig {
    pub kanban_columns: Vec<String>,
}

/// Defaults for `tickets new`.
pub struct NewConfig {
    pub default_type: TicketType,
    pub default_status: TicketStatus,
}

/// The whole configuration.
pub struct Config {
    pub git: GitConfig,
    pub tui: TuiConfig,
    pub new: NewConfig,
}

/// The default board columns: `todo`, `in-progress`, `done`.
pub open spec fn default_columns_spec() -> Seq<Seq<char>> {
    seq!["todo"@, "in-progress"@, "done"@]
}

impl TuiConfig {
    /// The default board columns: `todo`, `in-progress`, `done`.
    pub fn default_kanban_columns() -> (r: Vec<String>)
        ensures
            r@.len() == 3,
            forall|i: int| 0 <= i < 3 ==> #[trigger] r@[i]@ == default_columns_spec()[i],
    {
        let mut r: Vec<String> = Vec::new();
        r.push(owned("todo"));
        r.push(owned("in-progress"));
        r.push(owned("done"));
        r
    }
}

impl Default for TuiConfig {
    fn default() -> (r: TuiConfig)
        ensures
            r.kanban_columns@.len() == 3,
            forall|i: int| 0 <= i < 3 ==> #[trigger] r.kanban_columns@[i]@ == default_columns_spec()[i],
    {
        TuiConfig { kanban_columns: TuiConfig::default_kanban_columns() }
    }
}

impl Default for GitConfig {
    fn default() -> (r: GitConfig)
        ensures
            !r.auto_commit,
    {
        GitConfig { auto_commit: false }
    }
}

impl Default for NewConfig {
    fn default() -> (r: NewConfig)
        ensures
            r.default_type == TicketType::Task,
            r.default_status == TicketStatus::Draft,
    {
        NewConfig { default_type: TicketType::Task, default_status: TicketStatus::Draft }
    }
}

impl Default for Config {
    fn default() -> (r: Config)
        ensures
            !r.git.auto_commit,
            r.tui.kanban_columns@.len() == 3,
            forall|i: int| 0 <= i < 3 ==> #[trigger] r.tui.kanban_columns@[i]@ == default_columns_spec()[i],
            r.new.default_type == TicketType::Task,
            r.new.default_status == TicketStatus::Draft,
    {
        Config { git: GitConfig::default(), tui: TuiConfig::default(), new: NewConfig::default() }
    }
}

/// Whether some status is written this way.
pub open spec fn is_status_label(name: Seq<char>) -> bool {
    exists|s: TicketStatus| #[trigger] s.label() == name
}

/// The statuses named by the configured board columns, or the first name
/// that is not a status.
pub fn columns_from_names(names: &Vec<String>) -> (r: Result<Vec<TicketStatus>, String>)
    ensures
        match r {
            Ok(cols) => cols@.len() == names@.len() && forall|i: int|
                0 <= i < names@.len() ==> #[trigger] cols@[i].label() == names@[i]@,
            Err(bad) => exists|i: int|
                0 <= i < names@.len() && names@[i]@ == bad@ && is_status_label(bad@) == false
                    && forall|j: int| 0 <= j < i ==> is_status_label(#[trigger] names@[j]@),
        },
{
    let mut cols: Vec<TicketStatus> = Vec::new();
    let mut i: usize = 0;
    while i < names.len()
        invariant
            i <= names.len(),
            cols@.len() == i,
            forall|j: int| 0 <= j < i ==> #[trigger] cols@[j].label() == names@[j]@,
        decreases names.len() - i,
    {
        match TicketStatus::from_label(names[i].as_str()) {
            Some(s) => cols.push(s),
            None => {
                let bad = names[i].clone();
                assert(names@[i as int]@ == bad@);
                assert forall|j: int| 0 <= j < i implies is_status_label(#[trigger] names@[j]@) by {
                    assert(cols@[j].label() == names@[j]@);
                }
                return Err(bad);
            },
        }
        i = i + 1;
    }
    Ok(cols)
}

} // verus!
