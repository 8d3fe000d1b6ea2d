//! What the picker shows: entries, where they lead to, and the settings.

use crate::path::{paths_equal, same_path};
use crate::text::same;
use vstd::prelude::*;

verus! {

/// The text in an optional string.
pub open spec fn opt_text(o: Option<String>) -> Option<Seq<char>> {
    match o {
        Some(s) => Some(s@),
        None => None,
    }
}

/// Tells whether two optional texts are the same.
pub fn same_opt_text(a: &Option<String>, b: &Option<String>) -> (r: bool)
    ensures
        r == (opt_text(*a) == opt_text(*b)),
{
    match (a, b) {
        (Some(x), Some(y)) => same(x.as_str(), y.as_str()),
        (None, None) => true,
        _ => false,
    }
}

/// A copy of an optional string.
pub fn copy_opt(o: &Option<String>) -> (r: Option<String>)
    ensures
        r == *o,
{
    match o {
        Some(s) => Some(s.clone()),
        None => None,
    }
}

/// Lines added and removed in a working tree.
#[derive(Debug, Clone, Copy, PartialEq, Eq, Structural)]
pub struct Changes {
    pub additions: i64,
    pub deletions: i64,
}

impl Default for Changes {
    fn default() -> (r: Self)
        ensures
            r.additions == 0,
            r.deletions == 0,
    {
        Changes { additions: 0, deletions: 0 }
    }
}

/// A working tree that git lists.
#[derive(Debug)]
pub struct WorktreeInfo {
    pub path: String,
    pub is_main: bool,
}

impl Clone for WorktreeInfo {
    fn clone(&self) -> (r: Self)
        ensures
            r == *self,
    {
        WorktreeInfo { path: self.path.clone(), is_main: self.is_main }
    }
}

#[derive(Debug, Clone, Copy, PartialEq, Eq, Structural)]
pub enum EntryType {
    Dir,
    Worktree,
    Agent,
}

/// Where an entry leads to.
#[derive(Debug)]
pub struct Goto {
    pub session: String,
    pub path: String,
    pub window: Option<u32>,
    pub pane: Option<String>,
}

impl Clone for Goto {
    fn clone(&self) -> (r: Self)
        ensures
            r == *self,
    {
        Goto {
            session: self.session.clone(),
            path: self.path.clone(),
            window: self.window,
            pane: copy_opt(&self.pane),
        }
    }
}

/// Two targets are the same place.
pub open spec fn same_goto(a: Goto, b: Goto) -> bool {
    &&& a.session@ == b.session@
    &&& same_path(a.path@, b.path@)
    &&& a.window == b.window
    &&& opt_text(a.pane) == opt_text(b.pane)
}

/// Both are absent, or both lead to the same place.
pub open spec fn same_target(a: Option<Goto>, b: Option<Goto>) -> bool {
    match (a, b) {
        (Some(x), Some(y)) => same_goto(x, y),
        (None, None) => true,
        _ => false,
    }
}

impl PartialEq for Goto {
    fn eq(&self, other: &Self) -> (r: bool) {
        self.session == other.session && paths_equal(self.path.as_str(), other.path.as_str())
            && self.window == other.window && same_opt_text(&self.pane, &other.pane)
    }
}

impl vstd::std_specs::cmp::PartialEqSpecImpl for Goto {
    open spec fn obeys_eq_spec() -> bool {
        true
    }

    open spec fn eq_spec(&self, other: &Self) -> bool {
        same_goto(*self, *other)
    }
}

/// Tells whether both are absent, or both lead to the same place.
pub fn targets_equal(a: &Option<Goto>, b: &Option<Goto>) -> (r: bool)
    ensures
        r == same_target(*a, *b),
{
    match (a, b) {
        (Some(x), Some(y)) => x.eq(y),
        (None, None) => true,
        _ => false,
    }
}

/// A copy of an optional target.
pub fn copy_target(o: &Option<Goto>) -> (r: Option<Goto>)
    ensures
        r == *o,
{
    match o {
        Some(g) => Some(g.clone()),
        None => None,
    }
}

/// One row of the picker.
#[derive(Debug, Clone)]
pub struct Entry {
    pub kind: EntryType,
    pub label: String,
    pub path: String,
    pub changes: Option<Changes>,
    pub branch: Option<String>,
    pub is_open: bool,
    pub is_running: bool,
    pub pending: bool,
    pub depth: usize,
    pub ancestors: Vec<bool>,
    pub is_last: bool,
    pub search_text: String,
    pub goto: Option<Goto>,
    pub parent: Option<usize>,
    pub connector: String,
    pub search_text_lower: String,
}

#[derive(Debug, Clone, Copy, PartialEq, Eq, Structural)]
pub enum FeedbackType {
    Warning,
    Error,
}

/// A message to the user.
#[derive(Debug, Clone)]
pub struct FeedbackEntry {
    pub level: FeedbackType,
    pub message: String,
}

/// The settings that the picker reads, and the text of each setting.
#[derive(Debug, Clone)]
pub struct Config {
    pub path: String,
    pub path_worktrees: String,
    pub auto_close: bool,
    pub style_entries_gap: u64,
    pub bind_command_session_kill: String,
    pub bind_command_open_detached: String,
    pub bind_command_worktree_new: String,
    pub bind_command_worktree_delete: String,
    pub values: Vec<(String, String)>,
}

/// The value of the first pair whose key is `k`.
pub open spec fn value_in(values: Seq<(String, String)>, k: Seq<char>) -> Option<Seq<char>>
    decreases values.len(),
{
    if values.len() == 0 {
        None
    } else if values[0].0@ == k {
        Some(values[0].1@)
    } else {
        value_in(values.drop_first(), k)
    }
}

impl Config {
    /// The text of the setting `k`, if there is such a setting.
    pub fn value_string(&self, k: &str) -> (r: Option<String>)
        ensures
            opt_text(r) == value_in(self.values@, k@),
    {
        let mut i: usize = 0;
        proof {
            assert(self.values@.skip(0) == self.values@);
        }
        while i < self.values.len()
            invariant
                i <= self.values@.len(),
                value_in(self.values@, k@) == value_in(self.values@.skip(i as int), k@),
            decreases self.values@.len() - i,
        {
            let ghost rest = self.values@.skip(i as int);
            proof {
                assert(rest[0] == self.values@[i as int]);
                assert(rest.drop_first() == self.values@.skip(i + 1));
            }
            if same(self.values[i].0.as_str(), k) {
                return Some(self.values[i].1.clone());
            }
            i += 1;
        }
        None
    }
}

/// What the daemon sends.
#[derive(Debug, Clone)]
pub struct Payload {
    pub entries: Vec<Entry>,
    pub config: Config,
    pub feedbacks: Vec<FeedbackEntry>,
    pub entries_found: usize,
}

/// What a button does to the entry under the cursor.
#[derive(Debug, Clone, Copy, PartialEq, Eq, Structural)]
pub enum Action {
    KillSession,
    OpenDetached,
    WorktreeNew,
    WorktreeDelete,
}

/// A rectangle of terminal cells.
#[derive(Debug, Clone, Copy, PartialEq, Eq, Structural)]
pub struct Area {
    pub x: u16,
    pub y: u16,
    pub width: u16,
    pub height: u16,
}

} // verus!
