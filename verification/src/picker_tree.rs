//! What the picker does with sessions and working trees.

use crate::branch::{auto_branch_name, sanitize_branch_name, sanitized};
use crate::model::{Config, Entry, EntryType, FeedbackEntry, FeedbackType, Goto};
use crate::number::decimal;
use crate::path::{file_name, file_name_of, paths_equal, same_path};
use crate::picker::{
    clamped, cursor_key, known_by, listed_at, revealed, Host, Mode, OpResult, PENDING_TIMEOUT,
    PendingCreate, Picker,
};
use crate::search::{
    first_such, last_such, lemma_filter_step, lemma_first_such, lemma_first_such_at,
    lemma_last_such_at,
};
use crate::text::{chars_of, concat2, concat3, lower, lowercase, string_of, trim, trimmed};
use crate::worktree::{free_dest, plan_worktree, planned, unique_dest};
use vstd::prelude::*;
use vstd::string::*;

verus! {

// ---------------------------------------------------------------------
// Messages
// ---------------------------------------------------------------------
/// One more message was given.
pub open spec fn told(
    before: Seq<FeedbackEntry>,
    level: FeedbackType,
    message: Seq<char>,
    after: Seq<FeedbackEntry>,
) -> bool {
    &&& after.len() == before.len() + 1
    &&& after.drop_last() == before
    &&& after.last().level == level
    &&& after.last().message@ == message
}

/// Nothing happened but that a message was given.
pub open spec fn only_told(
    a: Picker,
    level: FeedbackType,
    message: Seq<char>,
    b: Picker,
) -> bool {
    &&& b == (Picker { feedbacks: b.feedbacks, ..a })
    &&& told(a.feedbacks@, level, message, b.feedbacks@)
}

impl Picker {
    fn tell(&mut self, level: FeedbackType, message: String)
        ensures
            only_told(*old(self), level, message@, *final(self)),
    {
        let ghost before = self.feedbacks@;
        self.feedbacks.push(FeedbackEntry { level, message });
        proof {
            assert(self.feedbacks@.drop_last() =~= before);
        }
    }
}

// ---------------------------------------------------------------------
// Sessions
// ---------------------------------------------------------------------
/// A window of a session that is to end, or the whole session.
#[derive(Debug)]
pub struct Kill {
    pub session: String,
    pub window: Option<u32>,
}

/// The session and the window.
pub open spec fn kill_view(k: Kill) -> (Seq<char>, Option<u32>) {
    (k.session@, k.window)
}

/// The sessions and the windows.
pub open spec fn kill_views(ks: Seq<Kill>) -> Seq<(Seq<char>, Option<u32>)> {
    ks.map_values(|k: Kill| kill_view(k))
}

/// The name that the terminal multiplexer gives a session: it has no colons
/// and no full stops.
pub open spec fn session_name(s: Seq<char>) -> Seq<char> {
    s.map_values(
        |c: char|
            if c == ':' || c == '.' {
                '_'
            } else {
                c
            },
    )
}

/// What ends at a target: its window, or its session if it names no window.
pub open spec fn kill_at(g: Goto) -> (Seq<char>, Option<u32>) {
    match g.window {
        Some(w) => (g.session@, Some(w)),
        None => (session_name(g.session@), None),
    }
}

/// The name that the terminal multiplexer gives a session.
pub fn name_of_session(s: &str) -> (r: String)
    ensures
        r@ == session_name(s@),
{
    let mut cs: Vec<char> = chars_of(s);
    let n: usize = cs.len();
    let mut i: usize = 0;
    while i < n
        invariant
            n == cs@.len() == s@.len(),
            i <= n,
            forall|j: int| 0 <= j < i ==> cs@[j] == #[trigger] session_name(s@)[j],
            forall|j: int| i <= j < n ==> cs@[j] == s@[j],
        decreases n - i,
    {
        if cs[i] == ':' || cs[i] == '.' {
            cs.set(i, '_');
        }
        i += 1;
    }
    proof {
        assert(cs@ =~= session_name(s@));
    }
    string_of(&cs)
}

fn kill_of(g: &Goto) -> (r: Kill)
    ensures
        kill_view(r) == kill_at(*g),
{
    match g.window {
        Some(w) => Kill { session: g.session.clone(), window: Some(w) },
        None => Kill { session: name_of_session(g.session.as_str()), window: None },
    }
}

/// The parent of each entry.
pub open spec fn parents(es: Seq<Entry>) -> Seq<Option<usize>> {
    es.map_values(|e: Entry| e.parent)
}

/// The way up from `i` stays among the entries and ends after at most `steps`
/// of them.
pub open spec fn way_ends(ps: Seq<Option<usize>>, i: int, steps: nat) -> bool
    decreases steps,
{
    &&& steps > 0
    &&& 0 <= i < ps.len()
    &&& match ps[i] {
        Some(p) => way_ends(ps, p as int, (steps - 1) as nat),
        None => true,
    }
}

/// The way up from `i` comes by `j` in its first `steps` entries.
pub open spec fn on_way(ps: Seq<Option<usize>>, i: int, j: int, steps: nat) -> bool
    decreases steps,
{
    steps > 0 && (i == j || (0 <= i < ps.len() && match ps[i] {
        Some(p) => on_way(ps, p as int, j, (steps - 1) as nat),
        None => false,
    }))
}

/// The entry under the cursor leads somewhere, and nothing is open there.
pub open spec fn can_open(p: Picker) -> bool {
    let e = p.under_cursor();
    &&& p.cursor < p.filtered@.len()
    &&& e.goto is Some
    &&& !(e.is_open || e.kind == EntryType::Agent || e.pending)
}

/// The entry with its session open.
pub open spec fn opened(e: Entry) -> Entry {
    Entry { is_open: true, ..e }
}

impl Picker {
    /// Ends the session of the entry under the cursor: what is to end is
    /// handed back, and the list is to be fetched anew.
    pub fn execute_kill_session(&mut self) -> (r: Option<Kill>)
        requires
            old(self).wf(),
        ensures
            ({
                let a = *old(self);
                let e = a.under_cursor();
                if a.cursor >= a.filtered@.len() || e.goto is None {
                    r is None && *final(self) == a
                } else if !(e.is_open || e.kind == EntryType::Agent) {
                    r is None && only_told(
                        a,
                        FeedbackType::Warning,
                        "no live session on '"@ + e.label@ + "'"@,
                        *final(self),
                    )
                } else {
                    &&& r is Some
                    &&& kill_view(r->0) == kill_at(e.goto->0)
                    &&& *final(self) == (Picker { mode: Mode::Normal, ..a })
                }
            }),
    {
        if self.cursor >= self.filtered.len() {
            return None;
        }
        let entry: &Entry = &self.entries[self.filtered[self.cursor]];
        let kill: Kill = match &entry.goto {
            Some(g) => kill_of(g),
            None => {
                return None;
            },
        };
        if !(entry.is_open || entry.kind == EntryType::Agent) {
            let message: String = concat3("no live session on '", entry.label.as_str(), "'");
            self.tell(FeedbackType::Warning, message);
            return None;
        }
        self.mode = Mode::Normal;
        Some(kill)
    }

    /// Tells whether the way up from the entry at `idx` stays among the entries
    /// and ends.
    pub fn leads_up(&self, idx: usize) -> (r: bool)
        ensures
            r == way_ends(parents(self.entries@), idx as int, self.entries@.len()),
    {
        let ghost ps = parents(self.entries@);
        let n: usize = self.entries.len();
        let mut steps: usize = n;
        let mut i: usize = idx;
        while steps > 0
            invariant
                ps == parents(self.entries@),
                n == self.entries@.len(),
                way_ends(ps, idx as int, n as nat) == way_ends(ps, i as int, steps as nat),
            decreases steps,
        {
            if i >= n {
                return false;
            }
            proof {
                assert(ps[i as int] == self.entries@[i as int].parent);
            }
            match self.entries[i].parent {
                Some(p) => {
                    i = p;
                },
                None => {
                    return true;
                },
            }
            steps -= 1;
        }
        false
    }

    /// Opens a session for the entry under the cursor without going there:
    /// the target is handed back, and the list is to be fetched anew. The entry
    /// and all above it count as open at once.
    pub fn open_detached(&mut self) -> (r: Option<Goto>)
        requires
            old(self).wf(),
            can_open(*old(self)) ==> way_ends(
                parents(old(self).entries@),
                old(self).filtered@[old(self).cursor as int] as int,
                old(self).entries@.len(),
            ),
        ensures
            ({
                let a = *old(self);
                let b = *final(self);
                let e = a.under_cursor();
                if a.cursor >= a.filtered@.len() || e.goto is None {
                    r is None && b == a
                } else if e.is_open || e.kind == EntryType::Agent || e.pending {
                    r is None && only_told(
                        a,
                        FeedbackType::Warning,
                        "nothing to open on '"@ + e.label@ + "'"@,
                        b,
                    )
                } else {
                    &&& r == e.goto
                    &&& b == (Picker { mode: Mode::Normal, entries: b.entries, ..a })
                    &&& b.entries@.len() == a.entries@.len()
                    &&& forall|j: int|
                        0 <= j < a.entries@.len() ==> #[trigger] b.entries@[j] == if on_way(
                            parents(a.entries@),
                            a.filtered@[a.cursor as int] as int,
                            j,
                            a.entries@.len(),
                        ) {
                            opened(a.entries@[j])
                        } else {
                            a.entries@[j]
                        }
                }
            }),
            final(self).wf(),
    {
        if self.cursor >= self.filtered.len() {
            return None;
        }
        let idx: usize = self.filtered[self.cursor];
        let entry: &Entry = &self.entries[idx];
        let goto: Goto = match &entry.goto {
            Some(g) => g.clone(),
            None => {
                return None;
            },
        };
        if entry.is_open || entry.kind == EntryType::Agent || entry.pending {
            let message: String = concat3("nothing to open on '", entry.label.as_str(), "'");
            self.tell(FeedbackType::Warning, message);
            return None;
        }
        let ghost a = *self;
        let ghost es = self.entries@;
        let ghost ps = parents(es);
        let ghost n = es.len();
        let ghost mut left: nat = n;
        let ghost mut seen: Set<int> = Set::empty();
        let mut cur: Option<usize> = Some(idx);
        while cur.is_some()
            invariant
                *self == (Picker { entries: self.entries, ..a }),
                ps == parents(es),
                n == es.len(),
                self.entries@.len() == n,
                cur is Some ==> way_ends(ps, cur->0 as int, left),
                forall|j: int| #[trigger]
                    on_way(ps, idx as int, j, n) <==> seen.contains(j) || (cur is Some && on_way(
                        ps,
                        cur->0 as int,
                        j,
                        left,
                    )),
                forall|j: int|
                    0 <= j < n ==> #[trigger] self.entries@[j] == if seen.contains(j) {
                        opened(es[j])
                    } else {
                        es[j]
                    },
            decreases left,
        {
            if let Some(i) = cur {
                proof {
                    assert(ps[i as int] == es[i as int].parent);
                }
                self.entries[i].is_open = true;
                cur = self.entries[i].parent;
                proof {
                    seen = seen.insert(i as int);
                    left = (left - 1) as nat;
                }
            }
        }
        self.mode = Mode::Normal;
        Some(goto)
    }
}

// ---------------------------------------------------------------------
// A working tree in the making
// ---------------------------------------------------------------------
/// `root` is above the entry at `i`, at most `steps` up.
pub open spec fn lies_below(ps: Seq<Option<usize>>, i: int, root: int, steps: nat) -> bool
    decreases steps,
{
    steps > 0 && 0 <= i < ps.len() && match ps[i] {
        Some(p) => p == root || lies_below(ps, p as int, root, (steps - 1) as nat),
        None => false,
    }
}

/// The first place from `at` on that is not below `root`.
pub open spec fn subtree_end(ps: Seq<Option<usize>>, at: int, root: int) -> int
    decreases ps.len() - at,
{
    if at < ps.len() && lies_below(ps, at, root, ps.len()) {
        subtree_end(ps, at + 1, root)
    } else {
        at
    }
}

/// The entry is the directory at that path.
pub open spec fn dir_at(path: Seq<char>) -> spec_fn(Entry) -> bool {
    |e: Entry| e.kind == EntryType::Dir && same_path(e.path@, path)
}

/// The entry is right below `dir`.
pub open spec fn child_of(dir: int) -> spec_fn(Entry) -> bool {
    |e: Entry| e.parent == Some(dir as usize) && e.depth == 1
}

/// The label of a working tree in the making.
pub open spec fn pending_label(p: PendingCreate) -> Seq<char> {
    match file_name(p.dest@) {
        Some(n) => n,
        None => p.branch@,
    }
}

/// The text by which a working tree in the making is found.
pub open spec fn pending_text(p: PendingCreate) -> Seq<char> {
    p.dir_label@ + " "@ + pending_label(p) + " "@ + p.branch@
}

/// The entry stands for the working tree in the making, as the last one below
/// `dir`.
pub open spec fn stands_for<
    R: Fn(&Vec<Entry>, &String, &Config) -> Vec<usize>,
    H: Fn(&Vec<Entry>, &Vec<usize>) -> usize,
    C: Fn(&Entry) -> String,
>(host: Host<R, H, C>, e: Entry, p: PendingCreate, dir: int) -> bool {
    &&& e.kind == EntryType::Worktree
    &&& e.label@ == pending_label(p)
    &&& e.path@ == p.dest@
    &&& e.changes is None
    &&& e.branch is Some
    &&& (e.branch->0)@ == p.branch@
    &&& !e.is_open
    &&& !e.is_running
    &&& e.pending
    &&& e.depth == 1
    &&& e.ancestors@.len() == 0
    &&& e.is_last
    &&& e.search_text@ == pending_text(p)
    &&& e.search_text_lower@ == lowercase(pending_text(p))
    &&& e.goto is Some
    &&& (e.goto->0).session@ == pending_label(p)
    &&& (e.goto->0).path@ == p.dest@
    &&& (e.goto->0).window is None
    &&& (e.goto->0).pane is None
    &&& e.parent == Some(dir as usize)
    &&& exists|d: Entry| #[trigger] host.connects(d, e.connector) && bare_of(d, e)
}

/// `d` is `e` before it was joined to the tree.
pub open spec fn bare_of(d: Entry, e: Entry) -> bool {
    &&& d == (Entry { connector: d.connector, search_text_lower: d.search_text_lower, ..e })
    &&& d.connector@.len() == 0
    &&& d.search_text_lower@.len() == 0
}

/// The entries `after` are those `before`, but the one at `last` is no longer
/// the last below its parent.
pub open spec fn made_room<
    R: Fn(&Vec<Entry>, &String, &Config) -> Vec<usize>,
    H: Fn(&Vec<Entry>, &Vec<usize>) -> usize,
    C: Fn(&Entry) -> String,
>(host: Host<R, H, C>, before: Seq<Entry>, last: int, after: Seq<Entry>) -> bool {
    if 0 <= last < before.len() {
        let e = Entry { is_last: false, ..before[last] };
        &&& after == before.update(last, Entry { connector: after[last].connector, ..e })
        &&& host.connects(e, after[last].connector)
    } else {
        after == before
    }
}

/// The cursor stays on the entry that is known by `key`, if that is in the
/// list.
pub open spec fn followed(
    key: Option<(EntryType, Option<Goto>)>,
    cursor: usize,
    entries: Seq<Entry>,
    filtered: Seq<usize>,
) -> int {
    match key {
        Some(k) => {
            let at = listed_at(entries, filtered, known_by(k.0, k.1));
            if at < filtered.len() {
                at
            } else {
                cursor as int
            }
        },
        None => cursor as int,
    }
}

/// The place of a new entry below the directory at `dir`: behind all that is
/// below it.
pub open spec fn new_place(es: Seq<Entry>, dir: int) -> int {
    subtree_end(parents(es), dir + 1, dir)
}

/// An entry that stands for the working tree in the making is put in, as the
/// last one below its directory. The cursor stays on its entry, and the new one
/// is scrolled to. If its directory is gone, the making is given up instead.
pub open spec fn placeholder_put<
    R: Fn(&Vec<Entry>, &String, &Config) -> Vec<usize>,
    H: Fn(&Vec<Entry>, &Vec<usize>) -> usize,
    C: Fn(&Entry) -> String,
>(host: Host<R, H, C>, a: Picker, p: PendingCreate, b: Picker) -> bool {
    let es = a.entries@;
    let dir = first_such(es, dir_at(p.dir_path@));
    if dir < es.len() {
        let at = new_place(es, dir);
        let shown = Picker { scroll: a.scroll, ..b };
        &&& b == (Picker {
            entries: b.entries,
            filtered: b.filtered,
            cursor: b.cursor,
            scroll: b.scroll,
            ..a
        })
        &&& b.entries@.len() == es.len() + 1
        &&& stands_for(host, b.entries@[at], p, dir)
        &&& made_room(host, es, last_such(es, child_of(dir)), b.entries@.remove(at))
        &&& host.lists(b.entries, a.input, a.config, b.filtered)
        &&& b.cursor == followed(cursor_key(a), a.cursor, b.entries@, b.filtered@)
        &&& b.scroll == revealed(shown, p.dest@)
    } else {
        b == (Picker { pending_create: None, ..a })
    }
}

/// A new place is behind the directory, and at most behind all entries.
pub proof fn lemma_subtree_end(ps: Seq<Option<usize>>, at: int, root: int)
    requires
        0 <= at <= ps.len(),
    ensures
        at <= subtree_end(ps, at, root) <= ps.len(),
        forall|i: int|
            at <= i < subtree_end(ps, at, root) ==> #[trigger] lies_below(ps, i, root, ps.len()),
        subtree_end(ps, at, root) < ps.len() ==> !lies_below(
            ps,
            subtree_end(ps, at, root),
            root,
            ps.len(),
        ),
    decreases ps.len() - at,
{
    if at < ps.len() && lies_below(ps, at, root, ps.len()) {
        lemma_subtree_end(ps, at + 1, root);
    }
}

impl Picker {
    /// Tells whether the entry at `root` is above the one at `idx`. No way up
    /// is longer than there are entries, unless it runs in a circle.
    pub fn is_in_subtree(&self, idx: usize, root: usize) -> (r: bool)
        ensures
            r == lies_below(parents(self.entries@), idx as int, root as int, self.entries@.len()),
    {
        let ghost ps = parents(self.entries@);
        let n: usize = self.entries.len();
        let mut steps: usize = n;
        let mut i: usize = idx;
        while steps > 0
            invariant
                ps == parents(self.entries@),
                n == self.entries@.len(),
                lies_below(ps, idx as int, root as int, n as nat) == lies_below(
                    ps,
                    i as int,
                    root as int,
                    steps as nat,
                ),
            decreases steps,
        {
            if i >= n {
                return false;
            }
            proof {
                assert(ps[i as int] == self.entries@[i as int].parent);
            }
            match self.entries[i].parent {
                Some(p) => {
                    if p == root {
                        return true;
                    }
                    i = p;
                },
                None => {
                    return false;
                },
            }
            steps -= 1;
        }
        false
    }

    /// The place of the directory at `path`.
    fn find_dir(&self, path: &str) -> (r: usize)
        ensures
            r == first_such(self.entries@, dir_at(path@)),
            r <= self.entries@.len(),
    {
        let ghost f = dir_at(path@);
        let mut i: usize = 0;
        while i < self.entries.len()
            invariant
                i <= self.entries@.len(),
                f == dir_at(path@),
                forall|j: int| 0 <= j < i ==> !f(#[trigger] self.entries@[j]),
            decreases self.entries@.len() - i,
        {
            if self.entries[i].kind == EntryType::Dir && paths_equal(
                self.entries[i].path.as_str(),
                path,
            ) {
                proof {
                    lemma_first_such_at(self.entries@, f, i as int);
                }
                return i;
            }
            i += 1;
        }
        proof {
            lemma_first_such_at(self.entries@, f, i as int);
        }
        i
    }

    /// The place of the last entry right below `dir`.
    fn last_child(&self, dir: usize) -> (r: Option<usize>)
        ensures
            match r {
                Some(i) => i == last_such(self.entries@, child_of(dir as int)) && i
                    < self.entries@.len(),
                None => last_such(self.entries@, child_of(dir as int)) == -1,
            },
    {
        let ghost f = child_of(dir as int);
        let mut i: usize = self.entries.len();
        while i > 0
            invariant
                i <= self.entries@.len(),
                f == child_of(dir as int),
                forall|j: int| i <= j < self.entries@.len() ==> !f(#[trigger] self.entries@[j]),
            decreases i,
        {
            i -= 1;
            let hit: bool = match self.entries[i].parent {
                Some(p) => p == dir,
                None => false,
            };
            if hit && self.entries[i].depth == 1 {
                proof {
                    lemma_last_such_at(self.entries@, f, i as int);
                }
                return Some(i);
            }
        }
        proof {
            lemma_last_such_at(self.entries@, f, -1);
        }
        None
    }

    /// The entry that stands for the working tree in the making.
    fn placeholder<
        R: Fn(&Vec<Entry>, &String, &Config) -> Vec<usize>,
        H: Fn(&Vec<Entry>, &Vec<usize>) -> usize,
        C: Fn(&Entry) -> String,
    >(p: &PendingCreate, dir: usize, host: &Host<R, H, C>) -> (r: Entry)
        requires
            host.usable(),
        ensures
            stands_for(*host, r, *p, dir as int),
    {
        let label: String = match file_name_of(p.dest.as_str()) {
            Some(n) => n,
            None => p.branch.clone(),
        };
        let head: String = concat3(p.dir_label.as_str(), " ", label.as_str());
        let search_text: String = concat3(head.as_str(), " ", p.branch.as_str());
        let mut ph: Entry = Entry {
            kind: EntryType::Worktree,
            label: label.clone(),
            path: p.dest.clone(),
            changes: None,
            branch: Some(p.branch.clone()),
            is_open: false,
            is_running: false,
            pending: true,
            depth: 1,
            ancestors: Vec::new(),
            is_last: true,
            search_text,
            goto: Some(Goto { session: label, path: p.dest.clone(), window: None, pane: None }),
            parent: Some(dir),
            connector: String::new(),
            search_text_lower: String::new(),
        };
        let ghost bare = ph;
        ph.connector = (host.connect)(&ph);
        ph.search_text_lower = lower(ph.search_text.as_str());
        proof {
            assert(bare_of(bare, ph));
            assert(host.connects(bare, ph.connector));
        }
        ph
    }

    /// Joins the last entry below `dir` to the tree as one that is not the
    /// last.
    fn make_room<
        R: Fn(&Vec<Entry>, &String, &Config) -> Vec<usize>,
        H: Fn(&Vec<Entry>, &Vec<usize>) -> usize,
        C: Fn(&Entry) -> String,
    >(&mut self, dir: usize, host: &Host<R, H, C>)
        requires
            host.usable(),
        ensures
            *final(self) == (Picker { entries: final(self).entries, ..*old(self) }),
            final(self).entries@.len() == old(self).entries@.len(),
            parents(final(self).entries@) == parents(old(self).entries@),
            made_room(
                *host,
                old(self).entries@,
                last_such(old(self).entries@, child_of(dir as int)),
                final(self).entries@,
            ),
    {
        let ghost es = self.entries@;
        if let Some(l) = self.last_child(dir) {
            self.entries[l].is_last = false;
            let c: String = (host.connect)(&self.entries[l]);
            proof {
                assert(host.connects(self.entries@[l as int], c));
            }
            self.entries[l].connector = c;
            proof {
                let e = Entry { is_last: false, ..es[l as int] };
                assert(self.entries@ =~= es.update(
                    l as int,
                    Entry { connector: self.entries@[l as int].connector, ..e },
                ));
                assert(parents(self.entries@) =~= parents(es));
            }
        }
    }

    /// The place behind all that is below `dir`.
    fn place_below(&self, dir: usize) -> (r: usize)
        requires
            dir < self.entries@.len(),
        ensures
            r == new_place(self.entries@, dir as int),
            dir < r <= self.entries@.len(),
    {
        let ghost ps = parents(self.entries@);
        let n: usize = self.entries.len();
        let mut at: usize = dir + 1;
        while at < n && self.is_in_subtree(at, dir)
            invariant
                ps == parents(self.entries@),
                n == self.entries@.len(),
                dir < at <= n,
                subtree_end(ps, dir + 1, dir as int) == subtree_end(ps, at as int, dir as int),
            decreases self.entries@.len() - at,
        {
            at += 1;
        }
        at
    }

    /// Puts in an entry for the working tree in the making, where the real one
    /// will be: as the last one below its directory. The cursor stays on its
    /// entry, and the new one is scrolled to.
    pub fn insert_placeholder<
        R: Fn(&Vec<Entry>, &String, &Config) -> Vec<usize>,
        H: Fn(&Vec<Entry>, &Vec<usize>) -> usize,
        C: Fn(&Entry) -> String,
    >(&mut self, p: &PendingCreate, host: &Host<R, H, C>)
        requires
            host.usable(),
        ensures
            placeholder_put(*host, *old(self), *p, *final(self)),
            old(self).wf() ==> final(self).wf(),
    {
        let dir: usize = self.find_dir(p.dir_path.as_str());
        if dir >= self.entries.len() {
            self.pending_create = None;
            return;
        }
        let key: Option<(EntryType, Option<Goto>)> = self.key_under_cursor();
        self.make_room(dir, host);
        let ghost room = self.entries@;
        let ph: Entry = Self::placeholder(p, dir, host);
        let at: usize = self.place_below(dir);
        self.entries.insert(at, ph);
        proof {
            assert(self.entries@.remove(at as int) =~= room);
        }
        self.filtered = (host.refilter)(&self.entries, &self.input, &self.config);
        proof {
            assert(host.lists(self.entries, self.input, self.config, self.filtered));
        }
        if let Some((kind, goto)) = &key {
            let pos: usize = self.place_of(*kind, goto);
            if pos < self.filtered.len() {
                self.cursor = pos;
            }
        }
        self.reveal_path(p.dest.as_str());
    }
}

// ---------------------------------------------------------------------
// What becomes of it
// ---------------------------------------------------------------------
/// The entry is not in the making; with a path, not there in the making.
pub open spec fn remains(dest: Option<Seq<char>>) -> spec_fn(Entry) -> bool {
    |e: Entry|
        !(e.pending && match dest {
            Some(d) => same_path(e.path@, d),
            None => true,
        })
}

/// The entry is the working tree at that path.
pub open spec fn tree_at(path: Seq<char>) -> spec_fn(Entry) -> bool {
    |e: Entry| e.kind == EntryType::Worktree && same_path(e.path@, path)
}

/// The working tree at that path is there.
pub open spec fn arrived(es: Seq<Entry>, dest: Seq<char>) -> bool {
    exists|i: int|
        0 <= i < es.len() && tree_at(dest)(#[trigger] es[i]) && !es[i].pending
}

/// There is an entry for the working tree in the making.
pub open spec fn has_placeholder(es: Seq<Entry>, dest: Seq<char>) -> bool {
    exists|i: int| 0 <= i < es.len() && !remains(Some(dest))(#[trigger] es[i])
}

/// The making of a working tree is given up: its entry goes, the reason is
/// told, and the cursor goes to the directory, if that is in the list.
pub open spec fn pending_failed<
    R: Fn(&Vec<Entry>, &String, &Config) -> Vec<usize>,
    H: Fn(&Vec<Entry>, &Vec<usize>) -> usize,
    C: Fn(&Entry) -> String,
>(host: Host<R, H, C>, a: Picker, p: PendingCreate, message: Seq<char>, b: Picker) -> bool {
    let at = listed_at(b.entries@, b.filtered@, dir_at(p.dir_path@));
    &&& b == (Picker {
        pending_create: None,
        entries: b.entries,
        feedbacks: b.feedbacks,
        filtered: b.filtered,
        cursor: b.cursor,
        ..a
    })
    &&& b.entries@ == a.entries@.filter(remains(Some(p.dest@)))
    &&& told(a.feedbacks@, FeedbackType::Error, message, b.feedbacks@)
    &&& host.lists(b.entries, a.input, a.config, b.filtered)
    &&& b.cursor == if at < b.filtered@.len() {
        at
    } else {
        clamped(a.cursor, b.filtered@.len())
    }
}

/// The working tree has arrived: no entry is in the making any more, the new
/// one is scrolled to, and the picker goes there. The cursor stays.
pub open spec fn pending_done<
    R: Fn(&Vec<Entry>, &String, &Config) -> Vec<usize>,
    H: Fn(&Vec<Entry>, &Vec<usize>) -> usize,
    C: Fn(&Entry) -> String,
>(host: Host<R, H, C>, a: Picker, p: PendingCreate, b: Picker) -> bool {
    let at = listed_at(b.entries@, b.filtered@, tree_at(p.dest@));
    let shown = Picker { scroll: a.scroll, ..b };
    &&& b == (Picker {
        pending_create: None,
        entries: b.entries,
        feedbacks: b.feedbacks,
        filtered: b.filtered,
        scroll: b.scroll,
        pending_goto: b.pending_goto,
        ..a
    })
    &&& b.entries@ == a.entries@.filter(remains(None))
    &&& told(
        a.feedbacks@,
        FeedbackType::Warning,
        "✓ worktree '"@ + p.branch@ + "' created"@,
        b.feedbacks@,
    )
    &&& host.lists(b.entries, a.input, a.config, b.filtered)
    &&& if at < b.filtered@.len() {
        &&& b.scroll == revealed(shown, p.dest@)
        &&& b.pending_goto == target_or(
            b.entries@[b.filtered@[at] as int].goto,
            a.pending_goto,
        )
    } else {
        b.scroll == a.scroll && b.pending_goto == a.pending_goto
    }
}

/// The first target, or the second if there is no first.
pub open spec fn target_or(a: Option<Goto>, b: Option<Goto>) -> Option<Goto> {
    if a is Some {
        a
    } else {
        b
    }
}

/// The working tree has been in the making for too long.
pub open spec fn is_overdue(p: PendingCreate, now: u64) -> bool {
    now > p.started && now - p.started > PENDING_TIMEOUT
}

/// The picker looks after the working tree in the making.
pub open spec fn reconciled<
    R: Fn(&Vec<Entry>, &String, &Config) -> Vec<usize>,
    H: Fn(&Vec<Entry>, &Vec<usize>) -> usize,
    C: Fn(&Entry) -> String,
>(host: Host<R, H, C>, a: Picker, now: u64, b: Picker) -> bool {
    match a.pending_create {
        None => b == a,
        Some(p) => if is_overdue(p, now) {
            pending_failed(
                host,
                a,
                p,
                "timed out creating worktree '"@ + p.branch@ + "' — check `git worktree list`"@,
                b,
            )
        } else if arrived(a.entries@, p.dest@) {
            pending_done(host, a, p, b)
        } else if has_placeholder(a.entries@, p.dest@) {
            b == a
        } else {
            placeholder_put(host, a, p, b)
        },
    }
}

/// `dest` is where the working tree in the making goes.
pub open spec fn awaits(p: Picker, dest: Seq<char>) -> bool {
    p.pending_create is Some && same_path((p.pending_create->0).dest@, dest)
}

/// The picker learns what came of adding a working tree.
pub open spec fn op_handled<
    R: Fn(&Vec<Entry>, &String, &Config) -> Vec<usize>,
    H: Fn(&Vec<Entry>, &Vec<usize>) -> usize,
    C: Fn(&Entry) -> String,
>(host: Host<R, H, C>, a: Picker, op: OpResult, b: Picker) -> bool {
    match op {
        OpResult::Created { dest } => b == a,
        OpResult::Failed { dest, msg } => if awaits(a, dest@) {
            let p = a.pending_create->0;
            pending_failed(
                host,
                a,
                p,
                "cannot create worktree '"@ + p.branch@ + "': "@ + msg@,
                b,
            )
        } else {
            b == a
        },
    }
}

/// The list is to be fetched anew: the working tree in the making is there.
pub open spec fn calls_for_refresh(a: Picker, op: OpResult) -> bool {
    match op {
        OpResult::Created { dest } => awaits(a, dest@),
        OpResult::Failed { dest, msg } => false,
    }
}

impl Picker {
    /// Takes out the entries that are in the making, all of them or those at a
    /// path.
    fn drop_pending(&mut self, dest: Option<&str>)
        ensures
            *final(self) == (Picker { entries: final(self).entries, ..*old(self) }),
            final(self).entries@ == old(self).entries@.filter(
                remains(
                    match dest {
                        Some(d) => Some(d@),
                        None => None,
                    },
                ),
            ),
    {
        let ghost f = remains(
            match dest {
                Some(d) => Some(d@),
                None => None,
            },
        );
        let ghost a = *self;
        let ghost es = self.entries@;
        let ghost mut k: int = 0;
        let mut i: usize = 0;
        proof {
            reveal(Seq::filter);
            assert(es.take(0).filter(f) =~= es.take(0));
            assert(es.take(0).filter(f) + es.skip(0) =~= es);
        }
        while i < self.entries.len()
            invariant
                *self == (Picker { entries: self.entries, ..a }),
                f == remains(
                    match dest {
                        Some(d) => Some(d@),
                        None => None,
                    },
                ),
                0 <= k <= es.len(),
                i == es.take(k).filter(f).len(),
                self.entries@ == es.take(k).filter(f) + es.skip(k),
            decreases es.len() - k,
        {
            proof {
                lemma_filter_step(es, f, k);
                assert(self.entries@[i as int] == es.skip(k)[0]);
            }
            let ghost done = es.take(k).filter(f);
            let hit: bool = match dest {
                Some(d) => paths_equal(self.entries[i].path.as_str(), d),
                None => true,
            };
            if self.entries[i].pending && hit {
                self.entries.remove(i);
                proof {
                    assert(self.entries@ =~= done + es.skip(k + 1));
                }
            } else {
                i += 1;
                proof {
                    assert(self.entries@ =~= done.push(es[k]) + es.skip(k + 1));
                }
            }
            proof {
                k = k + 1;
            }
        }
        proof {
            assert(es.skip(k).len() == 0);
            assert(es.take(k) =~= es);
            assert(self.entries@ =~= es.filter(f));
        }
    }

    /// Gives up the working tree in the making, if it goes to `dest`.
    pub fn fail_pending<
        R: Fn(&Vec<Entry>, &String, &Config) -> Vec<usize>,
        H: Fn(&Vec<Entry>, &Vec<usize>) -> usize,
        C: Fn(&Entry) -> String,
    >(&mut self, dest: &str, message: String, host: &Host<R, H, C>)
        requires
            host.usable(),
        ensures
            if awaits(*old(self), dest@) {
                pending_failed(
                    *host,
                    *old(self),
                    old(self).pending_create->0,
                    message@,
                    *final(self),
                ) && final(self).wf()
            } else {
                *final(self) == *old(self)
            },
    {
        let p: PendingCreate = match &self.pending_create {
            Some(p) => p.clone(),
            None => {
                return;
            },
        };
        if !paths_equal(p.dest.as_str(), dest) {
            return;
        }
        self.pending_create = None;
        self.drop_pending(Some(p.dest.as_str()));
        self.tell(FeedbackType::Error, message);
        self.filtered = (host.refilter)(&self.entries, &self.input, &self.config);
        proof {
            assert(host.lists(self.entries, self.input, self.config, self.filtered));
        }
        let dir: &str = p.dir_path.as_str();
        let pos: usize = self.place_where(
            |e: &Entry| -> (r: bool)
                ensures
                    r == dir_at(dir@)(*e)
                { e.kind == EntryType::Dir && paths_equal(e.path.as_str(), dir) },
            Ghost(dir_at(dir@)),
        );
        if pos < self.filtered.len() {
            self.cursor = pos;
        } else if self.cursor >= self.filtered.len() {
            self.cursor = self.filtered.len().saturating_sub(1);
        }
    }

    /// Learns what came of adding a working tree. Tells whether the list is to
    /// be fetched anew.
    pub fn handle_op<
        R: Fn(&Vec<Entry>, &String, &Config) -> Vec<usize>,
        H: Fn(&Vec<Entry>, &Vec<usize>) -> usize,
        C: Fn(&Entry) -> String,
    >(&mut self, op: OpResult, host: &Host<R, H, C>) -> (r: bool)
        requires
            host.usable(),
        ensures
            r == calls_for_refresh(*old(self), op),
            op_handled(*host, *old(self), op, *final(self)),
            old(self).wf() ==> final(self).wf(),
    {
        match op {
            OpResult::Created { dest } => match &self.pending_create {
                Some(p) => paths_equal(p.dest.as_str(), dest.as_str()),
                None => false,
            },
            OpResult::Failed { dest, msg } => {
                let message: String = match &self.pending_create {
                    Some(p) => {
                        let head: String = concat3(
                            "cannot create worktree '",
                            p.branch.as_str(),
                            "': ",
                        );
                        concat2(head.as_str(), msg.as_str())
                    },
                    None => {
                        return false;
                    },
                };
                self.fail_pending(dest.as_str(), message, host);
                false
            },
        }
    }

    /// Goes to the entry at `idx`.
    pub fn activate_entry(&mut self, idx: usize)
        requires
            idx < old(self).entries@.len(),
        ensures
            *final(self) == (Picker {
                pending_goto: target_or(
                    old(self).entries@[idx as int].goto,
                    old(self).pending_goto,
                ),
                ..*old(self)
            }),
    {
        if let Some(g) = &self.entries[idx].goto {
            let goto: Goto = g.clone();
            self.pending_goto = Some(goto);
        }
    }

    fn has_arrived(&self, dest: &str) -> (r: bool)
        ensures
            r == arrived(self.entries@, dest@),
    {
        let mut i: usize = 0;
        while i < self.entries.len()
            invariant
                i <= self.entries@.len(),
                forall|j: int|
                    0 <= j < i ==> !(tree_at(dest@)(#[trigger] self.entries@[j])
                        && !self.entries@[j].pending),
            decreases self.entries@.len() - i,
        {
            let e: &Entry = &self.entries[i];
            if e.kind == EntryType::Worktree && !e.pending && paths_equal(e.path.as_str(), dest) {
                proof {
                    assert(tree_at(dest@)(self.entries@[i as int]));
                }
                return true;
            }
            i += 1;
        }
        false
    }

    fn is_placed(&self, dest: &str) -> (r: bool)
        ensures
            r == has_placeholder(self.entries@, dest@),
    {
        let ghost f = remains(Some(dest@));
        let mut i: usize = 0;
        while i < self.entries.len()
            invariant
                i <= self.entries@.len(),
                f == remains(Some(dest@)),
                forall|j: int| 0 <= j < i ==> f(#[trigger] self.entries@[j]),
            decreases self.entries@.len() - i,
        {
            if self.entries[i].pending && paths_equal(self.entries[i].path.as_str(), dest) {
                proof {
                    assert(!f(self.entries@[i as int]));
                }
                return true;
            }
            i += 1;
        }
        false
    }

    /// Looks after the working tree in the making. What the daemon sends does
    /// not hold its entry, so that is put in again; once the real one is there,
    /// the picker goes into it; and after too long a time it is given up.
    pub fn reconcile_pending<
        R: Fn(&Vec<Entry>, &String, &Config) -> Vec<usize>,
        H: Fn(&Vec<Entry>, &Vec<usize>) -> usize,
        C: Fn(&Entry) -> String,
    >(&mut self, now: u64, host: &Host<R, H, C>)
        requires
            host.usable(),
        ensures
            reconciled(*host, *old(self), now, *final(self)),
            old(self).wf() ==> final(self).wf(),
    {
        let p: PendingCreate = match &self.pending_create {
            Some(p) => p.clone(),
            None => {
                return;
            },
        };
        if now > p.started && now - p.started > PENDING_TIMEOUT {
            let message: String = concat3(
                "timed out creating worktree '",
                p.branch.as_str(),
                "' — check `git worktree list`",
            );
            self.fail_pending(p.dest.as_str(), message, host);
            return;
        }
        if self.has_arrived(p.dest.as_str()) {
            self.pending_create = None;
            self.drop_pending(None);
            self.filtered = (host.refilter)(&self.entries, &self.input, &self.config);
            proof {
                assert(host.lists(self.entries, self.input, self.config, self.filtered));
            }
            let dest: &str = p.dest.as_str();
            let pos: usize = self.place_where(
                |e: &Entry| -> (r: bool)
                    ensures
                        r == tree_at(dest@)(*e)
                    { e.kind == EntryType::Worktree && paths_equal(e.path.as_str(), dest) },
                Ghost(tree_at(dest@)),
            );
            if pos < self.filtered.len() {
                self.reveal_path(p.dest.as_str());
                let idx: usize = self.filtered[pos];
                self.activate_entry(idx);
            }
            let message: String = concat3("✓ worktree '", p.branch.as_str(), "' created");
            self.tell(FeedbackType::Warning, message);
            return;
        }
        if !self.is_placed(p.dest.as_str()) {
            self.insert_placeholder(&p, host);
        }
    }
}

// ---------------------------------------------------------------------
// Making and deleting working trees
// ---------------------------------------------------------------------
/// A working tree that is to be added.
#[derive(Debug)]
pub struct CreatePlan {
    pub repo: String,
    pub dest: String,
    pub branch: String,
}

/// A working tree that is to be removed, and what is to end before.
#[derive(Debug)]
pub struct DeletePlan {
    pub kills: Vec<Kill>,
    pub repo: String,
    pub wt: String,
}

/// The place of the directory that the entry under the cursor is, or that it
/// is right below.
pub open spec fn origin_at(p: Picker) -> Option<usize> {
    let i = p.filtered@[p.cursor as int];
    let e = p.entries@[i as int];
    if e.kind == EntryType::Dir {
        Some(i)
    } else {
        match e.parent {
            Some(q) => if q < p.entries@.len() && p.entries@[q as int].kind == EntryType::Dir {
                Some(q)
            } else {
                None
            },
            None => None,
        }
    }
}

/// The branch that the typed text names; an empty text gives one after the
/// time.
pub open spec fn branch_for(input: Seq<char>, since_epoch: Option<u64>) -> Seq<char> {
    let typed = sanitized(trimmed(input));
    if typed.len() == 0 {
        "wt-"@ + decimal(
            match since_epoch {
                Some(secs) => secs as nat,
                None => 0,
            },
        )
    } else {
        typed
    }
}

/// A working tree of `origin` is planned, in the making since `now`, and has an
/// entry in the list.
pub open spec fn creation_begun<
    R: Fn(&Vec<Entry>, &String, &Config) -> Vec<usize>,
    H: Fn(&Vec<Entry>, &Vec<usize>) -> usize,
    C: Fn(&Entry) -> String,
>(host: Host<R, H, C>, a: Picker, origin: Entry, now: u64, plan: CreatePlan, b: Picker) -> bool {
    &&& plan.repo@ == origin.path@
    &&& b.pending_create is Some
    &&& ({
        let p = b.pending_create->0;
        &&& p.dest@ == plan.dest@
        &&& p.branch@ == plan.branch@
        &&& p.dir_path@ == origin.path@
        &&& p.dir_label@ == origin.label@
        &&& p.started == now
    })
    &&& b.mode == Mode::Normal
    &&& placeholder_put(
        host,
        Picker { pending_create: b.pending_create, ..a },
        b.pending_create->0,
        Picker { mode: a.mode, ..b },
    )
}

/// What ends with the working tree at `idx`: its agents, among the first `n`
/// entries.
pub open spec fn agent_kills(es: Seq<Entry>, idx: usize, n: int) -> Seq<(Seq<char>, Option<u32>)>
    decreases n,
{
    if n <= 0 {
        seq![]
    } else {
        let e = es[n - 1];
        if e.parent == Some(idx) && e.kind == EntryType::Agent && e.goto is Some {
            agent_kills(es, idx, n - 1).push(kill_at(e.goto->0))
        } else {
            agent_kills(es, idx, n - 1)
        }
    }
}

/// The session that has the name of a directory.
pub open spec fn own_session(path: Seq<char>) -> Seq<(Seq<char>, Option<u32>)> {
    match file_name(path) {
        Some(n) => seq![(session_name(n), None)],
        None => seq![],
    }
}

impl Picker {
    /// Begins to make a working tree of the repository that the cursor is on.
    /// The typed text is the name of the branch. What is to be added is handed
    /// back; its entry is in the list at once.
    ///
    /// `since_epoch` is the time of day in seconds, `expanded` the directory
    /// for working trees of the settings, trimmed and with its tilde resolved,
    /// and `occupied` tells whether there is something at a path.
    pub fn create_worktree<
        R: Fn(&Vec<Entry>, &String, &Config) -> Vec<usize>,
        H: Fn(&Vec<Entry>, &Vec<usize>) -> usize,
        C: Fn(&Entry) -> String,
        E: Fn(&str) -> bool,
    >(
        &mut self,
        now: u64,
        since_epoch: Option<u64>,
        expanded: &str,
        occupied: &E,
        host: &Host<R, H, C>,
    ) -> (r: Option<CreatePlan>)
        requires
            old(self).wf(),
            host.usable(),
            forall|s: &str| call_requires(*occupied, (s,)),
        ensures
            ({
                let a = *old(self);
                let e = a.under_cursor();
                if a.cursor >= a.filtered@.len() {
                    r is None && *final(self) == a
                } else if e.kind == EntryType::Agent || e.pending {
                    r is None && only_told(
                        a,
                        FeedbackType::Warning,
                        "cannot create a worktree here"@,
                        *final(self),
                    )
                } else {
                    match origin_at(a) {
                        None => r is None && *final(self) == a,
                        Some(o) => {
                            let origin = a.entries@[o as int];
                            &&& r is Some
                            &&& (r->0).branch@ == branch_for(a.input@, since_epoch)
                            &&& free_dest(
                                *occupied,
                                planned(
                                    origin.path@,
                                    (r->0).branch@,
                                    a.config.path_worktrees@,
                                    expanded@,
                                ),
                                (r->0).dest@,
                            )
                            &&& creation_begun(*host, a, origin, now, r->0, *final(self))
                        },
                    }
                }
            }),
            final(self).wf(),
    {
        if self.cursor >= self.filtered.len() {
            return None;
        }
        let idx: usize = self.filtered[self.cursor];
        let kind: EntryType = self.entries[idx].kind;
        if kind == EntryType::Agent || self.entries[idx].pending {
            self.tell(FeedbackType::Warning, "cannot create a worktree here".to_owned());
            return None;
        }
        let o: usize = if kind == EntryType::Dir {
            idx
        } else {
            match self.entries[idx].parent {
                Some(q) => if q < self.entries.len() && self.entries[q].kind == EntryType::Dir {
                    q
                } else {
                    return None;
                },
                None => {
                    return None;
                },
            }
        };
        let typed: String = sanitize_branch_name(trim(self.input.as_str()));
        let branch: String = if typed.as_str().is_empty() {
            auto_branch_name(since_epoch)
        } else {
            typed
        };
        let repo: String = self.entries[o].path.clone();
        let plan: String = plan_worktree(
            repo.as_str(),
            branch.as_str(),
            self.config.path_worktrees.as_str(),
            expanded,
        );
        let dest: String = unique_dest(plan.as_str(), occupied);
        let p: PendingCreate = PendingCreate {
            dest: dest.clone(),
            branch: branch.clone(),
            dir_path: repo.clone(),
            dir_label: self.entries[o].label.clone(),
            started: now,
        };
        proof {
            let f = dir_at(p.dir_path@);
            lemma_first_such(self.entries@, f);
            assert(f(self.entries@[o as int]));
        }
        self.pending_create = Some(p.clone());
        self.insert_placeholder(&p, host);
        self.mode = Mode::Normal;
        Some(CreatePlan { repo, dest, branch })
    }

    /// What is to end and to be removed with the working tree under the
    /// cursor: its agents, the session of its name, and the tree itself.
    pub fn delete_worktree(&mut self) -> (r: Option<DeletePlan>)
        requires
            old(self).wf(),
        ensures
            ({
                let a = *old(self);
                let i = a.filtered@[a.cursor as int];
                let e = a.under_cursor();
                if a.cursor >= a.filtered@.len() {
                    r is None && *final(self) == a
                } else if e.kind != EntryType::Worktree || e.pending {
                    r is None && only_told(
                        a,
                        FeedbackType::Warning,
                        "select a worktree entry to delete"@,
                        *final(self),
                    )
                } else {
                    &&& r is Some
                    &&& *final(self) == a
                    &&& (r->0).wt@ == e.path@
                    &&& (r->0).repo@ == match e.parent {
                        Some(q) => if q < a.entries@.len() {
                            a.entries@[q as int].path@
                        } else {
                            e.path@
                        },
                        None => e.path@,
                    }
                    &&& kill_views((r->0).kills@) == agent_kills(
                        a.entries@,
                        i,
                        a.entries@.len() as int,
                    ) + own_session(e.path@)
                }
            }),
    {
        if self.cursor >= self.filtered.len() {
            return None;
        }
        let idx: usize = self.filtered[self.cursor];
        if self.entries[idx].kind != EntryType::Worktree || self.entries[idx].pending {
            self.tell(FeedbackType::Warning, "select a worktree entry to delete".to_owned());
            return None;
        }
        let wt: String = self.entries[idx].path.clone();
        let repo: String = match self.entries[idx].parent {
            Some(q) => if q < self.entries.len() {
                self.entries[q].path.clone()
            } else {
                wt.clone()
            },
            None => wt.clone(),
        };
        let mut kills: Vec<Kill> = Vec::new();
        let ghost es = self.entries@;
        let mut j: usize = 0;
        proof {
            assert(kill_views(kills@) =~= agent_kills(es, idx, 0));
        }
        while j < self.entries.len()
            invariant
                es == self.entries@,
                j <= es.len(),
                kill_views(kills@) == agent_kills(es, idx, j as int),
            decreases es.len() - j,
        {
            let ghost before = kill_views(kills@);
            let below: bool = match self.entries[j].parent {
                Some(q) => q == idx,
                None => false,
            };
            if below && self.entries[j].kind == EntryType::Agent {
                if let Some(g) = &self.entries[j].goto {
                    kills.push(kill_of(g));
                    proof {
                        assert(kill_views(kills@) =~= before.push(kill_at(*g)));
                    }
                }
            }
            j += 1;
        }
        let ghost agents = kill_views(kills@);
        if let Some(name) = file_name_of(wt.as_str()) {
            kills.push(Kill { session: name_of_session(name.as_str()), window: None });
        }
        proof {
            assert(kill_views(kills@) =~= agents + own_session(wt@));
        }
        Some(DeletePlan { kills, repo, wt })
    }

    /// Tells what came of removing the working tree at `wt`. The list is to be
    /// fetched anew.
    pub fn worktree_deleted(&mut self, wt: &str, removed: Result<(), String>)
        ensures
            final(self).mode == Mode::Normal,
            ({
                let told_only = Picker { mode: old(self).mode, ..*final(self) };
                match removed {
                    Ok(_) => only_told(
                        *old(self),
                        FeedbackType::Warning,
                        "✓ worktree "@ + wt@ + " removed"@,
                        told_only,
                    ),
                    Err(e) => only_told(
                        *old(self),
                        FeedbackType::Error,
                        "cannot remove worktree: "@ + e@,
                        told_only,
                    ),
                }
            }),
    {
        match removed {
            Ok(_) => self.tell(FeedbackType::Warning, concat3("✓ worktree ", wt, " removed")),
            Err(e) => {
                self.tell(FeedbackType::Error, concat2("cannot remove worktree: ", e.as_str()))
            },
        }
        self.mode = Mode::Normal;
    }
}

} // verus!
