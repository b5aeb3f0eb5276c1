//! Plain-text ticket tracking: the rules behind tickets, their front matter,
//! the kanban board model and the dependency graphs.
use vstd::prelude::*;

pub mod text;
pub mod domain;
pub mod ticket_file;
pub mod id_map;
pub mod loading;
pub mod blockers;
pub mod board;
pub mod keys;
pub mod workdir;
pub mod config;
pub mod archive;
pub mod graph;
pub mod digraph;
pub mod deps;
pub mod commands;
pub mod view;

verus! {
} // verus!
