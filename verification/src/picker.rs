//! The picker: a list of entries with a cursor, and what the keys do to it.
//!
//! Times are nanoseconds on a clock that never runs backwards.

use crate::model::{
    copy_target, same_target, targets_equal, Action, Area, Config, Entry, EntryType, FeedbackEntry,
    Goto, Payload,
};
use crate::path::{paths_equal, same_path};
use crate::search::{first_such, lemma_first_such_at};
use crate::text::{concat2, same, upper, uppercase};
use vstd::prelude::*;

verus! {

/// How long the spinner stays on one frame, in milliseconds.
pub const SPINNER_MS: u64 = 30;

/// How long a working tree may be in the making. Git is done at once or
/// hangs, and a spinner must not stay for ever.
pub const PENDING_TIMEOUT: u64 = 60_000_000_000;

/// What the picker asks of its terminal.
#[derive(Debug, Clone, PartialEq)]
pub enum Signal {
    Close,
    Goto(Goto),
    Stay,
}

#[derive(Debug, Clone, Copy, PartialEq, Eq, Structural)]
pub enum Mode {
    Normal,
    Command,
    Help,
    HelpEditing,
}

/// A setting that is being edited, and the filter that was typed before.
#[derive(Debug)]
pub struct HelpEdit {
    pub key: String,
    pub saved_filter: String,
    pub saved_cursor: usize,
}

impl Clone for HelpEdit {
    fn clone(&self) -> (r: Self)
        ensures
            r == *self,
    {
        HelpEdit {
            key: self.key.clone(),
            saved_filter: self.saved_filter.clone(),
            saved_cursor: self.saved_cursor,
        }
    }
}

/// What came of adding a working tree.
#[derive(Debug)]
pub enum OpResult {
    Created { dest: String },
    Failed { dest: String, msg: String },
}

/// A working tree in the making.
#[derive(Debug)]
pub struct PendingCreate {
    pub dest: String,
    pub branch: String,
    pub dir_path: String,
    pub dir_label: String,
    pub started: u64,
}

impl Clone for PendingCreate {
    fn clone(&self) -> (r: Self)
        ensures
            r == *self,
    {
        PendingCreate {
            dest: self.dest.clone(),
            branch: self.branch.clone(),
            dir_path: self.dir_path.clone(),
            dir_label: self.dir_label.clone(),
            started: self.started,
        }
    }
}

/// What the picker has from outside: which entries the typed text leaves in
/// the list, where the cursor starts, and how an entry is joined to the tree.
pub struct Host<R, H, C> {
    pub refilter: R,
    pub home: H,
    pub connect: C,
}

impl<
    R: Fn(&Vec<Entry>, &String, &Config) -> Vec<usize>,
    H: Fn(&Vec<Entry>, &Vec<usize>) -> usize,
    C: Fn(&Entry) -> String,
> Host<R, H, C> {
    /// `filtered` is what the filter leaves of `entries`.
    pub open spec fn lists(
        self,
        entries: Vec<Entry>,
        input: String,
        config: Config,
        filtered: Vec<usize>,
    ) -> bool {
        call_ensures(self.refilter, (&entries, &input, &config), filtered)
    }

    /// `cursor` is where the cursor starts.
    pub open spec fn homes(self, entries: Vec<Entry>, filtered: Vec<usize>, cursor: usize) -> bool {
        call_ensures(self.home, (&entries, &filtered), cursor)
    }

    /// `connector` is how the entry is joined to the tree.
    pub open spec fn connects(self, e: Entry, connector: String) -> bool {
        call_ensures(self.connect, (&e,), connector)
    }

    /// Anything may be asked, and the filter leaves nothing but entries.
    pub open spec fn usable(self) -> bool {
        &&& forall|e: &Vec<Entry>, i: &String, c: &Config|
            call_requires(self.refilter, (e, i, c))
        &&& forall|e: Vec<Entry>, i: String, c: Config, r: Vec<usize>| #[trigger]
            self.lists(e, i, c, r) ==> in_range(e@, r@)
        &&& forall|e: &Vec<Entry>, f: &Vec<usize>| call_requires(self.home, (e, f))
        &&& forall|e: &Entry| call_requires(self.connect, (e,))
    }
}

/// Every place in the list is that of an entry.
pub open spec fn in_range(entries: Seq<Entry>, filtered: Seq<usize>) -> bool {
    forall|p: int| 0 <= p < filtered.len() ==> #[trigger] filtered[p] < entries.len()
}

/// The picker.
pub struct Picker {
    pub entries: Vec<Entry>,
    /// Places of the entries in the list, in the order of the list.
    pub filtered: Vec<usize>,
    /// A place in `filtered`.
    pub cursor: usize,
    pub input: String,
    pub input_cursor: usize,
    pub spinner: usize,
    pub started_at: u64,
    pub last_spinner: u64,
    pub quit: bool,
    pub pending_goto: Option<Goto>,
    pub slot_entries: Area,
    pub scroll: usize,
    pub mouse_hover: bool,
    pub auto_close: bool,
    pub mode: Mode,
    pub config: Config,
    pub feedbacks: Vec<FeedbackEntry>,
    pub entries_found: usize,
    pub last_mouse_col: u16,
    pub last_mouse_row: u16,
    pub help_cursor: usize,
    pub help_scroll: usize,
    pub stashed_input: String,
    pub stashed_cursor: usize,
    pub help_edit: Option<HelpEdit>,
    pub touched: bool,
    pub pending_create: Option<PendingCreate>,
    /// The lines of the settings template.
    pub template: Vec<String>,
}

/// What the entry under the cursor is known by.
pub open spec fn cursor_key(p: Picker) -> Option<(EntryType, Option<Goto>)> {
    if p.cursor < p.filtered@.len() && p.filtered@[p.cursor as int] < p.entries@.len() {
        let e = p.entries@[p.filtered@[p.cursor as int] as int];
        Some((e.kind, e.goto))
    } else {
        None
    }
}

/// The entry is of that kind and leads there.
pub open spec fn known_by(kind: EntryType, goto: Option<Goto>) -> spec_fn(Entry) -> bool {
    |e: Entry| e.kind == kind && same_target(e.goto, goto)
}

/// The place in the list of the first entry with the property.
pub open spec fn listed_at(
    entries: Seq<Entry>,
    filtered: Seq<usize>,
    f: spec_fn(Entry) -> bool,
) -> int {
    first_such(filtered, |i: usize| f(entries[i as int]))
}

/// The cursor, moved to the end of the list if it is behind it.
pub open spec fn clamped(cursor: usize, len: nat) -> int {
    if cursor < len {
        cursor as int
    } else if len == 0 {
        0
    } else {
        len - 1
    }
}

/// Where the entry that was under the cursor is now; else the cursor stays
/// where it is, within the list.
pub open spec fn kept_cursor(
    key: Option<(EntryType, Option<Goto>)>,
    cursor: usize,
    entries: Seq<Entry>,
    filtered: Seq<usize>,
) -> int {
    match key {
        Some(k) => {
            let at = listed_at(entries, filtered, known_by(k.0, k.1));
            if at < filtered.len() {
                at
            } else {
                clamped(cursor, filtered.len())
            }
        },
        None => clamped(cursor, filtered.len()),
    }
}

/// The number of gap rows above the entry at place `p` of the list. Gaps are
/// above directories and working trees only: agents stay at their parent.
pub open spec fn gap_above(entries: Seq<Entry>, filtered: Seq<usize>, gap: usize, p: int) -> nat {
    if p > 0 && entries[filtered[p] as int].kind != EntryType::Agent {
        gap as nat
    } else {
        0
    }
}

/// The rows of the first `n` places of the list: a gap row is `None`.
pub open spec fn rows_upto(
    entries: Seq<Entry>,
    filtered: Seq<usize>,
    gap: usize,
    n: int,
) -> Seq<Option<usize>>
    decreases n,
{
    if n <= 0 {
        seq![]
    } else {
        rows_upto(entries, filtered, gap, n - 1) + Seq::new(
            gap_above(entries, filtered, gap, n - 1),
            |i: int| None,
        ) + seq![Some((n - 1) as usize)]
    }
}

/// The row of the entry at place `p` of the list.
pub open spec fn row_at(entries: Seq<Entry>, filtered: Seq<usize>, gap: usize, p: int) -> int {
    rows_upto(entries, filtered, gap, p + 1).len() - 1
}

/// Every place of the list has one row.
pub proof fn lemma_rows(entries: Seq<Entry>, filtered: Seq<usize>, gap: usize, n: int)
    requires
        0 <= n <= filtered.len() <= usize::MAX,
    ensures
        forall|p: int|
            0 <= p < n ==> 0 <= #[trigger] row_at(entries, filtered, gap, p) < rows_upto(
                entries,
                filtered,
                gap,
                n,
            ).len() && rows_upto(entries, filtered, gap, n)[row_at(entries, filtered, gap, p)]
                == Some(p as usize),
        forall|r: int|
            0 <= r < rows_upto(entries, filtered, gap, n).len() ==> match #[trigger] rows_upto(
                entries,
                filtered,
                gap,
                n,
            )[r] {
                Some(p) => p < n && r == row_at(entries, filtered, gap, p as int),
                None => true,
            },
    decreases n,
{
    if n > 0 {
        let a = rows_upto(entries, filtered, gap, n - 1);
        let b = rows_upto(entries, filtered, gap, n);
        lemma_rows(entries, filtered, gap, n - 1);
        assert forall|p: int| 0 <= p < n implies 0 <= #[trigger] row_at(entries, filtered, gap, p)
            < b.len() && b[row_at(entries, filtered, gap, p)] == Some(p as usize) by {
            if p < n - 1 {
                assert(b[row_at(entries, filtered, gap, p)] == a[row_at(
                    entries,
                    filtered,
                    gap,
                    p,
                )]);
            }
        }
        assert forall|r: int| 0 <= r < b.len() implies match #[trigger] b[r] {
            Some(p) => p < n && r == row_at(entries, filtered, gap, p as int),
            None => true,
        } by {
            if r < a.len() {
                assert(b[r] == a[r]);
            }
        }
    }
}

/// The first row to show so that the row of `dest` is the last one shown. It
/// changes only where something is shown at all, `dest` is in the list, and
/// the cursor is.
pub open spec fn revealed(p: Picker, dest: Seq<char>) -> usize {
    let h = p.slot_entries.height as usize;
    let at = listed_at(p.entries@, p.filtered@, at_path(dest));
    if h > 0 && at < p.filtered@.len() && p.cursor < p.filtered@.len() {
        let below = row_at(p.entries@, p.filtered@, p.config.style_entries_gap as usize, at) + 1;
        if below > h {
            (below - h) as usize
        } else {
            0
        }
    } else {
        p.scroll
    }
}

/// The captions of buttons, and what they do.
pub open spec fn captions(buttons: Seq<(String, Action)>) -> Seq<(Seq<char>, Action)> {
    buttons.map_values(|b: (String, Action)| (b.0@, b.1))
}

/// The button, if it is there.
pub open spec fn button_if(
    there: bool,
    key: Seq<char>,
    caption: Seq<char>,
    action: Action,
) -> Seq<(Seq<char>, Action)> {
    if there {
        seq![(key + caption, action)]
    } else {
        seq![]
    }
}

/// The buttons of an entry: one that ends or opens its session, one for a new
/// working tree, and one that deletes the working tree. The keys are those of
/// the four.
pub open spec fn buttons_of(
    e: Entry,
    kill: Seq<char>,
    open: Seq<char>,
    new: Seq<char>,
    delete: Seq<char>,
) -> Seq<(Seq<char>, Action)> {
    let live = e.is_open || e.kind == EntryType::Agent;
    button_if(live, kill, " Kill Session"@, Action::KillSession) + button_if(
        !live && e.goto is Some,
        open,
        " Open Detached"@,
        Action::OpenDetached,
    ) + button_if(e.kind != EntryType::Agent, new, " New Worktree"@, Action::WorktreeNew)
        + button_if(
        e.kind == EntryType::Worktree,
        delete,
        " Delete Worktree"@,
        Action::WorktreeDelete,
    )
}

/// The buttons of an entry, with the keys of the four as they are shown.
pub fn entry_buttons(entry: &Entry, kill: &str, open: &str, new: &str, delete: &str) -> (r: Vec<
    (String, Action),
>)
    ensures
        captions(r@) == buttons_of(*entry, kill@, open@, new@, delete@),
{
    let mut buttons: Vec<(String, Action)> = Vec::new();
    if entry.is_open || entry.kind == EntryType::Agent {
        buttons.push((concat2(kill, " Kill Session"), Action::KillSession));
    } else if entry.goto.is_some() {
        buttons.push((concat2(open, " Open Detached"), Action::OpenDetached));
    }
    if entry.kind == EntryType::Dir || entry.kind == EntryType::Worktree {
        buttons.push((concat2(new, " New Worktree"), Action::WorktreeNew));
    }
    if entry.kind == EntryType::Worktree {
        buttons.push((concat2(delete, " Delete Worktree"), Action::WorktreeDelete));
    }
    proof {
        assert(captions(buttons@) =~= buttons_of(*entry, kill@, open@, new@, delete@));
    }
    buttons
}

/// The buttons of the entry under the cursor. There are none outside the
/// command mode, and none on an entry that is in the making.
pub open spec fn buttons_at_cursor(p: Picker) -> Seq<(Seq<char>, Action)> {
    if p.mode == Mode::Command && p.cursor < p.filtered@.len() && !p.under_cursor().pending {
        buttons_of(
            p.under_cursor(),
            uppercase(p.config.bind_command_session_kill@),
            uppercase(p.config.bind_command_open_detached@),
            uppercase(p.config.bind_command_worktree_new@),
            uppercase(p.config.bind_command_worktree_delete@),
        )
    } else {
        seq![]
    }
}

/// The entry is at that path.
pub open spec fn at_path(path: Seq<char>) -> spec_fn(Entry) -> bool {
    |e: Entry| same_path(e.path@, path)
}

/// The picker takes over what the daemon sent.
pub open spec fn payload_taken<
    R: Fn(&Vec<Entry>, &String, &Config) -> Vec<usize>,
    H: Fn(&Vec<Entry>, &Vec<usize>) -> usize,
    C: Fn(&Entry) -> String,
>(host: Host<R, H, C>, a: Picker, payload: Payload, b: Picker) -> bool {
    let found = payload.entries_found;
    let count = payload.entries@.len();
    &&& b == (Picker {
        entries: payload.entries,
        entries_found: if found >= count {
            found
        } else {
            count as usize
        },
        feedbacks: payload.feedbacks,
        config: payload.config,
        auto_close: payload.config.auto_close,
        filtered: b.filtered,
        cursor: b.cursor,
        ..a
    })
    &&& host.lists(
        payload.entries,
        if a.in_help() {
            a.stashed_input
        } else {
            a.input
        },
        payload.config,
        b.filtered,
    )
    &&& if a.config.path@ != payload.config.path@ || a.config.path_worktrees@
        != payload.config.path_worktrees@ || (a.input@.len() == 0 && !a.touched) {
        host.homes(b.entries, b.filtered, b.cursor)
    } else {
        b.cursor == kept_cursor(cursor_key(a), a.cursor, b.entries@, b.filtered@)
    }
}

impl Picker {
    /// Every place in the list is that of an entry.
    pub open spec fn wf(self) -> bool {
        in_range(self.entries@, self.filtered@)
    }

    /// The entry under the cursor.
    pub open spec fn under_cursor(self) -> Entry {
        self.entries@[self.filtered@[self.cursor as int] as int]
    }

    /// The help is shown.
    pub open spec fn in_help(self) -> bool {
        self.mode == Mode::Help || self.mode == Mode::HelpEditing
    }

    /// A picker that shows what the daemon sent. `template` holds the lines of
    /// the settings template.
    pub fn new<
        R: Fn(&Vec<Entry>, &String, &Config) -> Vec<usize>,
        H: Fn(&Vec<Entry>, &Vec<usize>) -> usize,
        C: Fn(&Entry) -> String,
    >(payload: Payload, template: Vec<String>, now: u64, host: &Host<R, H, C>) -> (r: Self)
        requires
            host.usable(),
        ensures
            r.wf(),
            r.entries == payload.entries,
            r.config == payload.config,
            r.feedbacks == payload.feedbacks,
            r.template == template,
            r.auto_close == payload.config.auto_close,
            r.entries_found == if payload.entries_found >= payload.entries@.len() {
                payload.entries_found as int
            } else {
                payload.entries@.len() as int
            },
            host.lists(r.entries, r.input, r.config, r.filtered),
            host.homes(r.entries, r.filtered, r.cursor),
            r.input@.len() == 0,
            r.input_cursor == 0,
            r.spinner == 0,
            r.started_at == now,
            r.last_spinner == now,
            !r.quit,
            r.pending_goto is None,
            r.slot_entries == (Area { x: 0, y: 0, width: 0, height: 0 }),
            r.scroll == 0,
            !r.mouse_hover,
            r.mode == Mode::Normal,
            r.last_mouse_col == 0,
            r.last_mouse_row == 0,
            r.help_cursor == 0,
            r.help_scroll == 0,
            r.stashed_input@.len() == 0,
            r.stashed_cursor == 0,
            r.help_edit is None,
            !r.touched,
            r.pending_create is None,
    {
        let n: usize = payload.entries.len();
        let found: usize = if payload.entries_found >= n {
            payload.entries_found
        } else {
            n
        };
        let input: String = String::new();
        let filtered: Vec<usize> = (host.refilter)(&payload.entries, &input, &payload.config);
        proof {
            assert(host.lists(payload.entries, input, payload.config, filtered));
        }
        let cursor: usize = (host.home)(&payload.entries, &filtered);
        Picker {
            entries: payload.entries,
            filtered,
            cursor,
            input,
            input_cursor: 0,
            spinner: 0,
            started_at: now,
            last_spinner: now,
            quit: false,
            pending_goto: None,
            slot_entries: Area { x: 0, y: 0, width: 0, height: 0 },
            scroll: 0,
            mouse_hover: false,
            auto_close: payload.config.auto_close,
            mode: Mode::Normal,
            config: payload.config,
            feedbacks: payload.feedbacks,
            entries_found: found,
            last_mouse_col: 0,
            last_mouse_row: 0,
            help_cursor: 0,
            help_scroll: 0,
            stashed_input: String::new(),
            stashed_cursor: 0,
            help_edit: None,
            touched: false,
            pending_create: None,
            template,
        }
    }

    pub fn is_command_mode(&self) -> (r: bool)
        ensures
            r == (self.mode == Mode::Command),
    {
        self.mode == Mode::Command
    }

    pub fn is_help(&self) -> (r: bool)
        ensures
            r == self.in_help(),
    {
        self.mode == Mode::Help || self.mode == Mode::HelpEditing
    }

    /// What the entry under the cursor is known by.
    pub(crate) fn key_under_cursor(&self) -> (r: Option<(EntryType, Option<Goto>)>)
        ensures
            r == cursor_key(*self),
    {
        if self.cursor < self.filtered.len() && self.filtered[self.cursor] < self.entries.len() {
            let e: &Entry = &self.entries[self.filtered[self.cursor]];
            Some((e.kind, copy_target(&e.goto)))
        } else {
            None
        }
    }

    /// The place in the list of the first entry with the property, which `hit`
    /// tells.
    pub(crate) fn place_where<F: Fn(&Entry) -> bool>(
        &self,
        hit: F,
        Ghost(f): Ghost<spec_fn(Entry) -> bool>,
    ) -> (r: usize)
        requires
            self.wf(),
            forall|e: &Entry| call_requires(hit, (e,)),
            forall|e: &Entry, x: bool| #[trigger] call_ensures(hit, (e,), x) ==> x == f(*e),
        ensures
            r == listed_at(self.entries@, self.filtered@, f),
            r <= self.filtered@.len(),
    {
        let ghost g = |i: usize| f(self.entries@[i as int]);
        let mut p: usize = 0;
        while p < self.filtered.len()
            invariant
                self.wf(),
                p <= self.filtered@.len(),
                g == (|i: usize| f(self.entries@[i as int])),
                forall|e: &Entry| call_requires(hit, (e,)),
                forall|e: &Entry, x: bool| #[trigger] call_ensures(hit, (e,), x) ==> x == f(*e),
                forall|q: int| 0 <= q < p ==> !g(#[trigger] self.filtered@[q]),
            decreases self.filtered@.len() - p,
        {
            if hit(&self.entries[self.filtered[p]]) {
                proof {
                    lemma_first_such_at(self.filtered@, g, p as int);
                }
                return p;
            }
            p += 1;
        }
        proof {
            lemma_first_such_at(self.filtered@, g, p as int);
        }
        p
    }

    /// The place in the list of the first entry that is known by this.
    pub(crate) fn place_of(&self, kind: EntryType, goto: &Option<Goto>) -> (r: usize)
        requires
            self.wf(),
        ensures
            r == listed_at(self.entries@, self.filtered@, known_by(kind, *goto)),
            r <= self.filtered@.len(),
    {
        self.place_where(
            |e: &Entry| -> (r: bool)
                ensures
                    r == known_by(kind, *goto)(*e)
                { e.kind == kind && targets_equal(&e.goto, goto) },
            Ghost(known_by(kind, *goto)),
        )
    }

    /// Takes over what the daemon sent. The cursor goes to its first place as
    /// long as the user has not moved it, or where the list is another one;
    /// else it stays on its entry.
    pub fn take_payload<
        R: Fn(&Vec<Entry>, &String, &Config) -> Vec<usize>,
        H: Fn(&Vec<Entry>, &Vec<usize>) -> usize,
        C: Fn(&Entry) -> String,
    >(&mut self, payload: Payload, host: &Host<R, H, C>)
        requires
            host.usable(),
        ensures
            payload_taken(*host, *old(self), payload, *final(self)),
            final(self).wf(),
    {
        let path_changed: bool = !same(self.config.path.as_str(), payload.config.path.as_str())
            || !same(self.config.path_worktrees.as_str(), payload.config.path_worktrees.as_str());
        let old_key: Option<(EntryType, Option<Goto>)> = self.key_under_cursor();
        let n: usize = payload.entries.len();
        self.entries_found = if payload.entries_found >= n {
            payload.entries_found
        } else {
            n
        };
        self.entries = payload.entries;
        self.feedbacks = payload.feedbacks;
        self.config = payload.config;
        self.auto_close = self.config.auto_close;
        if self.is_help() {
            self.filtered = (host.refilter)(&self.entries, &self.stashed_input, &self.config);
            proof {
                assert(host.lists(self.entries, self.stashed_input, self.config, self.filtered));
            }
        } else {
            self.filtered = (host.refilter)(&self.entries, &self.input, &self.config);
            proof {
                assert(host.lists(self.entries, self.input, self.config, self.filtered));
            }
        }
        if path_changed || (self.input.as_str().is_empty() && !self.touched) {
            self.cursor = (host.home)(&self.entries, &self.filtered);
            return;
        }
        if let Some((kind, goto)) = &old_key {
            let pos: usize = self.place_of(*kind, goto);
            if pos < self.filtered.len() {
                self.cursor = pos;
                return;
            }
        }
        if self.cursor >= self.filtered.len() {
            self.cursor = self.filtered.len().saturating_sub(1);
        }
    }

    /// The rows of the list: a place of the list, or `None` for a gap. Gaps
    /// are for the eye alone: the cursor counts entries.
    pub fn rows(&self) -> (r: Vec<Option<usize>>)
        requires
            self.wf(),
        ensures
            r@ == rows_upto(
                self.entries@,
                self.filtered@,
                self.config.style_entries_gap as usize,
                self.filtered@.len() as int,
            ),
    {
        let gap: usize = self.config.style_entries_gap as usize;
        let ghost es = self.entries@;
        let ghost fs = self.filtered@;
        let mut rows: Vec<Option<usize>> = Vec::new();
        let mut p: usize = 0;
        while p < self.filtered.len()
            invariant
                self.wf(),
                p <= self.filtered@.len(),
                es == self.entries@,
                fs == self.filtered@,
                rows@ == rows_upto(es, fs, gap, p as int),
            decreases self.filtered@.len() - p,
        {
            let ghost before = rows@;
            let mut i: usize = 0;
            if gap > 0 && p > 0 && self.entries[self.filtered[p]].kind != EntryType::Agent {
                while i < gap
                    invariant
                        i <= gap,
                        rows@ =~= before + Seq::new(i as nat, |k: int| None::<usize>),
                    decreases gap - i,
                {
                    rows.push(None);
                    i += 1;
                }
            }
            proof {
                assert(i == gap_above(es, fs, gap, p as int));
                assert(rows@ =~= before + Seq::new(i as nat, |k: int| None::<usize>));
            }
            rows.push(Some(p));
            proof {
                assert(rows@ =~= rows_upto(es, fs, gap, p + 1));
            }
            p += 1;
        }
        rows
    }

    /// Scrolls so that the entry at `dest` is in the last row shown. The cursor
    /// stays: where both do not fit, the cursor wins when the rows are drawn.
    pub fn reveal_path(&mut self, dest: &str)
        requires
            old(self).wf(),
        ensures
            *final(self) == (Picker { scroll: revealed(*old(self), dest@), ..*old(self) }),
    {
        let h: usize = self.slot_entries.height as usize;
        if h == 0 {
            return;
        }
        let rows: Vec<Option<usize>> = self.rows();
        let at: usize = self.place_where(
            |e: &Entry| -> (r: bool)
                ensures
                    r == at_path(dest@)(*e)
                { paths_equal(e.path.as_str(), dest) },
            Ghost(at_path(dest@)),
        );
        let n: usize = self.filtered.len();
        let ghost gap = self.config.style_entries_gap as usize;
        proof {
            lemma_rows(self.entries@, self.filtered@, gap, n as int);
        }
        if at < n && self.cursor < n {
            let ghost row = row_at(self.entries@, self.filtered@, gap, at as int);
            let mut r: usize = 0;
            while r < rows.len() && rows[r] != Some(at)
                invariant
                    0 <= row < rows@.len(),
                    rows@[row] == Some(at),
                    r <= row,
                decreases rows@.len() - r,
            {
                r += 1;
            }
            self.scroll = r.saturating_add(1).saturating_sub(h);
        }
    }

    /// The buttons of the entry under the cursor: their captions, and what they
    /// do.
    pub fn cursor_entry_buttons(&self) -> (r: Vec<(String, Action)>)
        requires
            self.wf(),
        ensures
            captions(r@) == buttons_at_cursor(*self),
    {
        let none: Vec<(String, Action)> = Vec::new();
        proof {
            assert(captions(none@) =~= Seq::<(Seq<char>, Action)>::empty());
        }
        if !self.is_command_mode() || self.cursor >= self.filtered.len() {
            return none;
        }
        let entry: &Entry = &self.entries[self.filtered[self.cursor]];
        if entry.pending {
            return none;
        }
        entry_buttons(
            entry,
            upper(self.config.bind_command_session_kill.as_str()).as_str(),
            upper(self.config.bind_command_open_detached.as_str()).as_str(),
            upper(self.config.bind_command_worktree_new.as_str()).as_str(),
            upper(self.config.bind_command_worktree_delete.as_str()).as_str(),
        )
    }
}

} // verus!
