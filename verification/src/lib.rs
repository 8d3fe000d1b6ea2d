//! Core of the ramo picker: a list of repositories, their working trees and the
//! agents in them, what git says about them, and the settings.

pub mod branch;
pub mod cache;
pub mod edit;
pub mod edit_laws;
pub mod git;
pub mod help;
pub mod help_laws;
pub mod model;
pub mod number;
pub mod path;
pub mod picker;
pub mod picker_help;
pub mod picker_laws;
pub mod picker_tree;
pub mod report;
pub mod search;
pub mod table;
pub mod text;
pub mod tick;
pub mod tree_laws;
pub mod worktree;
