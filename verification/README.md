# plain_tickets

A plain-text, markdown-based ticket system: tickets are `.md` files with YAML
front matter, kept under `tickets/all/` and `tickets/archived/`, with a CLI for
scripting and a kanban board in the terminal.

## Layout

- `src/` is the library, verified with Verus: the ticket types and their
  validation, the ticket file frame, the `list`/`show`/`edit`/`new`/`archive`/
  `init` decisions, the blocker rules, both dependency graphs and the forest
  drawing, the kanban board's state machine and key map, and the plans of what
  the board, the detail view and the help overlay draw.
- `app/` is the `tickets` program around it: argument parsing (clap), reading
  and writing files, YAML and TOML (serde), git, the clipboard, the file
  watcher and the terminal loop (crossterm, ratatui).
- `tests/` exercises the library with concrete scenarios.

Calls into other crates that the library makes (petgraph for the dependency
graph, chrono for dates, nanoid for ids, ratatui for layout and text width,
and a few of std's Unicode functions) go through small wrappers whose
contracts state what the library relies on.
