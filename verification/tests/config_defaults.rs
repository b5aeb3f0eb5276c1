use plain_tickets::config::{columns_from_names, Config, TuiConfig};
use plain_tickets::domain::{TicketStatus, TicketType};

#[test]
fn missing_file_returns_defaults() {
    // With no `.tickets.toml`, the defaults stand.
    let cfg = Config::default();
    assert!(!cfg.git.auto_commit);
}

#[test]
fn tui_kanban_columns_defaults() {
    let cfg = Config::default();
    assert_eq!(cfg.tui.kanban_columns, vec!["todo", "in-progress", "done"]);
}

#[test]
fn new_defaults_are_task_and_draft() {
    let cfg = Config::default();
    assert_eq!(cfg.new.default_type, TicketType::Task);
    assert_eq!(cfg.new.default_status, TicketStatus::Draft);
}

#[test]
fn default_kanban_columns_matches_default_config() {
    assert_eq!(TuiConfig::default_kanban_columns(), Config::default().tui.kanban_columns);
}

#[test]
fn columns_from_names_maps_each_name() {
    let names = vec!["backlog".to_string()];
    assert_eq!(columns_from_names(&names), Err("backlog".to_string()));
    let names = vec!["todo".to_string(), "in-progress".to_string(), "done".to_string()];
    assert_eq!(
        columns_from_names(&names),
        Ok(vec![TicketStatus::Todo, TicketStatus::InProgress, TicketStatus::Done])
    );
}

#[test]
fn columns_from_names_reports_first_unknown() {
    let names = vec!["todo".to_string(), "active".to_string(), "closed".to_string()];
    assert_eq!(columns_from_names(&names), Err("active".to_string()));
}

#[test]
fn columns_from_names_empty_is_empty() {
    assert_eq!(columns_from_names(&vec![]), Ok(vec![]));
}
