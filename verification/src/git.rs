//! What git says about a repository, and what is asked of it.

use crate::cache::{
    a_value_is_served_for_its_time, all_named, hits, is_recent, loaded, named, pair_keys, pairs_map,
    pairs_names, trees, PathMap,
};
use crate::model::{opt_text, Changes, WorktreeInfo};
use crate::number::{
    all_digits, decimal, is_digit, lemma_decimal_reads_back, parse_i64, written_i64, written_number,
};
use crate::path::{components, lies_under, path_under};
use crate::text::{
    concat2, is_white, lines, lines_follow_each_other, lines_of, one_line_is_one_line, opt_str,
    same, texts, trim, trimmed, words, words_follow_each_other, words_of,
};
use vstd::prelude::*;
use vstd::string::*;
use vstd::utf8::{decode_utf8, valid_utf8};

verus! {

/// How long a diff or a branch counts, in milliseconds.
pub const CACHE_TTL_MS: u64 = 10_000;

/// How long a list of working trees counts, in milliseconds.
pub const WORKTREE_CACHE_TTL_MS: u64 = 5_000;

/// What a cache keeps between two runs.
pub struct DiskCache {
    pub diffs: Vec<(String, Changes)>,
    pub worktrees: Vec<(String, Vec<WorktreeInfo>)>,
    pub branches: Vec<(String, Option<String>)>,
}

impl Default for DiskCache {
    fn default() -> (r: Self)
        ensures
            r.diffs@.len() == 0,
            r.worktrees@.len() == 0,
            r.branches@.len() == 0,
    {
        DiskCache { diffs: Vec::new(), worktrees: Vec::new(), branches: Vec::new() }
    }
}

/// What git said about each path, and when.
pub struct GitCache {
    pub diffs: PathMap<Changes>,
    pub worktrees: PathMap<Vec<WorktreeInfo>>,
    pub branches: PathMap<Option<String>>,
}

/// The time `ms` milliseconds before `now`.
pub open spec fn ms_before(now: u64, ms: u64) -> u64 {
    (now - ms * 1_000_000) as u64
}

impl GitCache {
    /// No path occurs twice in any of the maps.
    pub open spec fn wf(&self) -> bool {
        self.diffs.wf() && self.worktrees.wf() && self.branches.wf()
    }

    /// Nothing is known.
    pub fn new() -> (r: Self)
        ensures
            r.wf(),
            r.diffs@ == Map::<Seq<Seq<char>>, (Changes, u64)>::empty(),
            r.worktrees@ == Map::<Seq<Seq<char>>, (Seq<(Seq<char>, bool)>, u64)>::empty(),
            r.branches@ == Map::<Seq<Seq<char>>, (Option<Seq<char>>, u64)>::empty(),
            r.diffs.names() == Map::<Seq<Seq<char>>, Seq<char>>::empty(),
            r.worktrees.names() == Map::<Seq<Seq<char>>, Seq<char>>::empty(),
            r.branches.names() == Map::<Seq<Seq<char>>, Seq<char>>::empty(),
    {
        GitCache { diffs: PathMap::new(), worktrees: PathMap::new(), branches: PathMap::new() }
    }

    /// The changes at `path`: those known, if they are young enough, else
    /// those that `f` finds.
    pub fn diff<F: FnOnce() -> (Changes, u64)>(&mut self, path: &str, now: u64, f: F) -> (r: Changes)
        requires
            old(self).wf(),
            f.requires(()),
        ensures
            final(self).wf(),
            final(self).worktrees == old(self).worktrees,
            final(self).branches == old(self).branches,
            final(self).diffs.names() == if hits(old(self).diffs@, path@, now, CACHE_TTL_MS) {
                old(self).diffs.names()
            } else {
                named(old(self).diffs.names(), path@)
            },
            hits(old(self).diffs@, path@, now, CACHE_TTL_MS) ==> r == old(self).diffs@[components(
                path@,
            )].0 && final(self).diffs@ == old(self).diffs@,
            !hits(old(self).diffs@, path@, now, CACHE_TTL_MS) ==> exists|v: Changes, at: u64|
                #[trigger] f.ensures((), (v, at)) && r == v && final(self).diffs@ == old(
                    self,
                ).diffs@.insert(components(path@), (v, at)),
    {
        self.diffs.cached(path, now, CACHE_TTL_MS, f)
    }

    /// The working trees at `path`: those known, if they are young enough,
    /// else those that `f` finds.
    pub fn worktrees<F: FnOnce() -> (Vec<WorktreeInfo>, u64)>(
        &mut self,
        path: &str,
        now: u64,
        f: F,
    ) -> (r: Vec<WorktreeInfo>)
        requires
            old(self).wf(),
            f.requires(()),
        ensures
            final(self).wf(),
            final(self).diffs == old(self).diffs,
            final(self).branches == old(self).branches,
            final(self).worktrees.names() == if hits(old(self).worktrees@, path@, now, WORKTREE_CACHE_TTL_MS) {
                old(self).worktrees.names()
            } else {
                named(old(self).worktrees.names(), path@)
            },
            hits(old(self).worktrees@, path@, now, WORKTREE_CACHE_TTL_MS) ==> trees(r@) == old(
                self,
            ).worktrees@[components(path@)].0 && final(self).worktrees@ == old(self).worktrees@,
            !hits(old(self).worktrees@, path@, now, WORKTREE_CACHE_TTL_MS) ==> exists|
                v: Vec<WorktreeInfo>,
                at: u64,
            | #[trigger]
                f.ensures((), (v, at)) && trees(r@) == trees(v@) && final(self).worktrees@ == old(
                    self,
                ).worktrees@.insert(components(path@), (trees(v@), at)),
    {
        self.worktrees.cached(path, now, WORKTREE_CACHE_TTL_MS, f)
    }

    /// The branch at `path`: the one known, if it is young enough, else the
    /// one that `f` finds.
    pub fn branch<F: FnOnce() -> (Option<String>, u64)>(
        &mut self,
        path: &str,
        now: u64,
        f: F,
    ) -> (r: Option<String>)
        requires
            old(self).wf(),
            f.requires(()),
        ensures
            final(self).wf(),
            final(self).diffs == old(self).diffs,
            final(self).worktrees == old(self).worktrees,
            final(self).branches.names() == if hits(old(self).branches@, path@, now, CACHE_TTL_MS) {
                old(self).branches.names()
            } else {
                named(old(self).branches.names(), path@)
            },
            hits(old(self).branches@, path@, now, CACHE_TTL_MS) ==> opt_text(r) == old(
                self,
            ).branches@[components(path@)].0 && final(self).branches@ == old(self).branches@,
            !hits(old(self).branches@, path@, now, CACHE_TTL_MS) ==> exists|
                v: Option<String>,
                at: u64,
            | #[trigger]
                f.ensures((), (v, at)) && opt_text(r) == opt_text(v) && final(self).branches@
                    == old(self).branches@.insert(components(path@), (opt_text(v), at)),
    {
        self.branches.cached(path, now, CACHE_TTL_MS, f)
    }

    /// Puts in what a run before this one knew, as too old to count: it
    /// serves until git is asked again. The clock has to have run for longer
    /// than a value counts.
    pub fn load_disk(&mut self, cache: &DiskCache, now: u64)
        requires
            old(self).wf(),
            now >= (CACHE_TTL_MS + 1) * 1_000_000,
        ensures
            final(self).wf(),
            final(self).diffs@ == loaded(
                old(self).diffs@,
                cache.diffs@,
                ms_before(now, (CACHE_TTL_MS + 1) as u64),
            ),
            final(self).worktrees@ == loaded(
                old(self).worktrees@,
                cache.worktrees@,
                ms_before(now, (WORKTREE_CACHE_TTL_MS + 1) as u64),
            ),
            final(self).branches@ == loaded(
                old(self).branches@,
                cache.branches@,
                ms_before(now, (CACHE_TTL_MS + 1) as u64),
            ),
            final(self).diffs.names() == all_named(old(self).diffs.names(), cache.diffs@),
            final(self).worktrees.names() == all_named(
                old(self).worktrees.names(),
                cache.worktrees@,
            ),
            final(self).branches.names() == all_named(old(self).branches.names(), cache.branches@),
    {
        let stale: u64 = now - (CACHE_TTL_MS + 1) * 1_000_000;
        let stale_trees: u64 = now - (WORKTREE_CACHE_TTL_MS + 1) * 1_000_000;
        self.diffs.load(&cache.diffs, stale);
        self.worktrees.load(&cache.worktrees, stale_trees);
        self.branches.load(&cache.branches, stale);
    }

    /// All that is known, without the times. Each path has the text that it was
    /// first put in with.
    pub fn to_disk(&self) -> (r: DiskCache)
        requires
            self.wf(),
        ensures
            pair_keys(r.diffs@).no_duplicates(),
            pairs_map(r.diffs@) == self.diffs@.map_values(|c: (Changes, u64)| c.0),
            pair_keys(r.worktrees@).no_duplicates(),
            pairs_map(r.worktrees@) == self.worktrees@.map_values(
                |c: (Seq<(Seq<char>, bool)>, u64)| c.0,
            ),
            pair_keys(r.branches@).no_duplicates(),
            pairs_map(r.branches@) == self.branches@.map_values(|c: (Option<Seq<char>>, u64)| c.0),
            pairs_names(r.diffs@) == self.diffs.names(),
            pairs_names(r.worktrees@) == self.worktrees.names(),
            pairs_names(r.branches@) == self.branches.names(),
    {
        DiskCache {
            diffs: self.diffs.to_pairs(),
            worktrees: self.worktrees.to_pairs(),
            branches: self.branches.to_pairs(),
        }
    }
}

/// What is put in from an earlier run is never served as it is: at the time of
/// loading, and ever after, it is too old.
pub proof fn restored_is_stale(now: u64, later: u64)
    requires
        now >= (CACHE_TTL_MS + 1) * 1_000_000,
        now <= later,
    ensures
        !is_recent(ms_before(now, (CACHE_TTL_MS + 1) as u64), later, CACHE_TTL_MS),
        !is_recent(
            ms_before(now, (WORKTREE_CACHE_TTL_MS + 1) as u64),
            later,
            WORKTREE_CACHE_TTL_MS,
        ),
{
}

// ---------------------------------------------------------------------
// Reading what git prints
// ---------------------------------------------------------------------
/// A question to git about a repository.
#[derive(Debug, Clone, Copy, PartialEq, Eq, Structural)]
pub enum Query {
    /// Lines added and removed, by file.
    Numstat,
    /// Files that git does not know.
    Untracked,
    Worktrees,
    Branch,
}

/// The arguments with which git is asked.
pub open spec fn query_args(q: Query) -> Seq<Seq<char>> {
    match q {
        Query::Numstat => seq!["diff"@, "--numstat"@, "HEAD"@],
        Query::Untracked => seq!["ls-files"@, "--others"@, "--exclude-standard"@],
        Query::Worktrees => seq!["worktree"@, "list"@],
        Query::Branch => seq!["rev-parse"@, "--abbrev-ref"@, "HEAD"@],
    }
}

/// The arguments with which git is asked.
pub fn args_for(q: Query) -> (r: Vec<String>)
    ensures
        texts(r@) == query_args(q),
{
    let mut r: Vec<String> = Vec::new();
    match q {
        Query::Numstat => {
            r.push("diff".to_owned());
            r.push("--numstat".to_owned());
            r.push("HEAD".to_owned());
        },
        Query::Untracked => {
            r.push("ls-files".to_owned());
            r.push("--others".to_owned());
            r.push("--exclude-standard".to_owned());
        },
        Query::Worktrees => {
            r.push("worktree".to_owned());
            r.push("list".to_owned());
        },
        Query::Branch => {
            r.push("rev-parse".to_owned());
            r.push("--abbrev-ref".to_owned());
            r.push("HEAD".to_owned());
        },
    }
    proof {
        assert(texts(r@) =~= query_args(q));
    }
    r
}

/// What came of running git.
#[derive(Debug)]
pub enum GitRun {
    /// Git could not be run, for this reason.
    NotRun(String),
    Ended { success: bool, stdout: Vec<u8>, stderr: Vec<u8> },
}

/// The text that bytes stand for, whatever is no text in them replaced.
pub uninterp spec fn lossy_text(bytes: Seq<u8>) -> Seq<char>;

/// `String::from_utf8_lossy`: the text that the bytes encode, where what is no
/// UTF-8 becomes U+FFFD. Bytes that are UTF-8 throughout give the text that
/// they encode.
#[verifier::external_body]
fn text_of(bytes: &Vec<u8>) -> (r: String)
    ensures
        r@ == lossy_text(bytes@),
        valid_utf8(bytes@) ==> r@ == decode_utf8(bytes@),
{
    String::from_utf8_lossy(bytes).into_owned()
}

/// What a run that succeeded printed.
pub fn git_stdout(run: &GitRun) -> (r: Option<String>)
    ensures
        opt_text(r) == match *run {
            GitRun::Ended { success, stdout, stderr } => if success {
                Some(lossy_text(stdout@))
            } else {
                None
            },
            GitRun::NotRun(_) => None,
        },
{
    match run {
        GitRun::Ended { success, stdout, stderr: _ } => if *success {
            Some(text_of(stdout))
        } else {
            None
        },
        GitRun::NotRun(_) => None,
    }
}

/// What a run printed, or why it failed.
pub fn git_run(run: &GitRun) -> (r: Result<String, String>)
    ensures
        match *run {
            GitRun::NotRun(e) => r matches Err(m) && m@ == "git failed: "@ + e@,
            GitRun::Ended { success: true, stdout, stderr } => r matches Ok(t) && t@ == lossy_text(
                stdout@,
            ),
            GitRun::Ended { success: false, stdout, stderr } => r matches Err(m) && m@ == trimmed(
                lossy_text(stderr@),
            ),
        },
{
    match run {
        GitRun::NotRun(e) => Err(concat2("git failed: ", e.as_str())),
        GitRun::Ended { success, stdout, stderr } => if *success {
            Ok(text_of(stdout))
        } else {
            Err(trim(text_of(stderr).as_str()).to_owned())
        },
    }
}

/// The number that a word writes, or zero if it writes none.
pub open spec fn count_in(word: Seq<char>) -> int {
    match written_i64(word) {
        Some(v) => v,
        None => 0,
    }
}

/// The number fits in 64 bits.
pub open spec fn fits(v: int) -> bool {
    i64::MIN <= v <= i64::MAX
}

/// The sums of the first two columns over the first `n` lines, where no sum
/// on the way is too large.
pub open spec fn tally(ls: Seq<Seq<char>>, n: int) -> Option<(int, int)>
    decreases n,
{
    if n <= 0 {
        Some((0, 0))
    } else {
        let w = words_of(ls[n - 1]);
        match tally(ls, n - 1) {
            None => None,
            Some(sums) => if w.len() < 2 {
                Some(sums)
            } else if fits(sums.0 + count_in(w[0])) && fits(sums.1 + count_in(w[1])) {
                Some((sums.0 + count_in(w[0]), sums.1 + count_in(w[1])))
            } else {
                None
            },
        }
    }
}

/// How many of the first `n` lines are not empty.
pub open spec fn filled(ls: Seq<Seq<char>>, n: int) -> int
    decreases n,
{
    if n <= 0 {
        0
    } else if ls[n - 1].len() > 0 {
        filled(ls, n - 1) + 1
    } else {
        filled(ls, n - 1)
    }
}

/// Lines added and removed: the sums of the columns that git counts them in,
/// and one added for each file that git does not know.
pub open spec fn changes_in(
    numstat: Option<Seq<char>>,
    untracked: Option<Seq<char>>,
) -> Option<(int, int)> {
    let sums = match numstat {
        Some(out) => tally(lines_of(out), lines_of(out).len() as int),
        None => Some((0, 0)),
    };
    let files = match untracked {
        Some(out) => filled(lines_of(out), lines_of(out).len() as int),
        None => 0,
    };
    match sums {
        Some(s) => if fits(s.0 + files) {
            Some((s.0 + files, s.1))
        } else {
            None
        },
        None => None,
    }
}

fn column(word: &str) -> (r: i64)
    ensures
        r == count_in(word@),
{
    match parse_i64(word) {
        Some(v) => v,
        None => 0,
    }
}

proof fn lemma_filled(ls: Seq<Seq<char>>, n: int)
    requires
        0 <= n,
    ensures
        0 <= filled(ls, n) <= n,
    decreases n,
{
    if n > 0 {
        lemma_filled(ls, n - 1);
    }
}

/// The changes in a repository, from what git prints for [`Query::Numstat`] and
/// [`Query::Untracked`]. Outside a repository there are none. Nothing comes
/// back where a sum is too large.
pub fn compute_changes(
    is_repo: bool,
    numstat: Option<&str>,
    untracked: Option<&str>,
) -> (r: Option<Changes>)
    ensures
        !is_repo ==> r == Some((Changes { additions: 0, deletions: 0 })),
        is_repo ==> match changes_in(opt_str(numstat), opt_str(untracked)) {
            Some(sums) => r matches Some(c) && c.additions == sums.0 && c.deletions == sums.1,
            None => r is None,
        },
{
    if !is_repo {
        return Some(Changes { additions: 0, deletions: 0 });
    }
    let mut additions: i64 = 0;
    let mut deletions: i64 = 0;
    if let Some(out) = numstat {
        let ls: Vec<String> = lines(out);
        let ghost t = texts(ls@);
        let mut i: usize = 0;
        while i < ls.len()
            invariant
                i <= ls@.len(),
                t == texts(ls@),
                t == lines_of(out@),
                is_repo,
                opt_str(numstat) == Some(out@),
                tally(t, i as int) == Some((additions as int, deletions as int)),
            decreases ls@.len() - i,
        {
            proof {
                assert(t[i as int] == ls@[i as int]@);
            }
            let w: Vec<String> = words(ls[i].as_str());
            proof {
                assert(texts(w@).len() == w@.len());
            }
            if w.len() >= 2 {
                proof {
                    assert(texts(w@)[0] == w@[0]@);
                    assert(texts(w@)[1] == w@[1]@);
                }
                let a: Option<i64> = additions.checked_add(column(w[0].as_str()));
                let d: Option<i64> = deletions.checked_add(column(w[1].as_str()));
                match (a, d) {
                    (Some(a), Some(d)) => {
                        additions = a;
                        deletions = d;
                    },
                    _ => {
                        proof {
                            assert(tally(t, i + 1) is None);
                            lemma_tally_none(t, i + 1, t.len() as int);
                        }
                        return None;
                    },
                }
            }
            i += 1;
        }
    }
    let mut files: u64 = 0;
    if let Some(out) = untracked {
        let ls: Vec<String> = lines(out);
        let ghost t = texts(ls@);
        let mut i: usize = 0;
        while i < ls.len()
            invariant
                i <= ls@.len(),
                t == texts(ls@),
                files == filled(t, i as int),
                files <= i,
            decreases ls@.len() - i,
        {
            proof {
                assert(t[i as int] == ls@[i as int]@);
            }
            if !ls[i].as_str().is_empty() {
                files += 1;
            }
            i += 1;
        }
    }
    match additions.checked_add_unsigned(files) {
        Some(total) => Some(Changes { additions: total, deletions }),
        None => None,
    }
}

proof fn lemma_tally_none(ls: Seq<Seq<char>>, m: int, n: int)
    requires
        0 <= m <= n,
        tally(ls, m) is None,
    ensures
        tally(ls, n) is None,
    decreases n,
{
    if m < n {
        lemma_tally_none(ls, m, n - 1);
    }
}

/// The working tree that the line at `i` lists, unless it lies under `hidden`.
pub open spec fn tree_at(line: Seq<char>, i: int, hidden: Seq<char>) -> Option<(Seq<char>, bool)> {
    let w = words_of(line);
    if w.len() == 0 || lies_under(w[0], hidden) {
        None
    } else {
        Some((w[0], i == 0))
    }
}

/// The working trees that the first `n` lines list.
pub open spec fn trees_upto(ls: Seq<Seq<char>>, n: int, hidden: Seq<char>) -> Seq<(Seq<char>, bool)>
    decreases n,
{
    if n <= 0 {
        seq![]
    } else {
        match tree_at(ls[n - 1], n - 1, hidden) {
            Some(tree) => trees_upto(ls, n - 1, hidden).push(tree),
            None => trees_upto(ls, n - 1, hidden),
        }
    }
}

/// The working trees of a repository, from what git prints for
/// [`Query::Worktrees`]: the first word of each line, but for the paths under `hidden`. The first
/// line is the main one.
pub fn list_worktrees(is_repo: bool, listed: Option<&str>, hidden: &str) -> (r: Vec<WorktreeInfo>)
    ensures
        trees(r@) == match (is_repo, opt_str(listed)) {
            (true, Some(out)) => trees_upto(lines_of(out), lines_of(out).len() as int, hidden@),
            _ => Seq::<(Seq<char>, bool)>::empty(),
        },
{
    let mut r: Vec<WorktreeInfo> = Vec::new();
    proof {
        assert(trees(r@) =~= Seq::<(Seq<char>, bool)>::empty());
    }
    let out: &str = match listed {
        Some(out) => out,
        None => {
            return r;
        },
    };
    if !is_repo {
        return r;
    }
    let ls: Vec<String> = lines(out);
    let ghost t = texts(ls@);
    let mut i: usize = 0;
    while i < ls.len()
        invariant
            i <= ls@.len(),
            t == texts(ls@),
            trees(r@) == trees_upto(t, i as int, hidden@),
        decreases ls@.len() - i,
    {
        proof {
            assert(t[i as int] == ls@[i as int]@);
        }
        let w: Vec<String> = words(ls[i].as_str());
        let ghost before = trees(r@);
        proof {
            assert(texts(w@).len() == w@.len());
        }
        if w.len() > 0 {
            proof {
                assert(texts(w@)[0] == w@[0]@);
            }
            if !path_under(w[0].as_str(), hidden) {
                r.push(WorktreeInfo { path: w[0].clone(), is_main: i == 0 });
                proof {
                    assert(trees(r@) =~= before.push((w@[0]@, i == 0)));
                }
            }
        }
        i += 1;
    }
    r
}

/// The branch of a repository, from what `git rev-parse --abbrev-ref HEAD`
/// prints. A detached head has none.
pub fn compute_branch(is_repo: bool, head: Option<&str>) -> (r: Option<String>)
    ensures
        opt_text(r) == match (is_repo, opt_str(head)) {
            (true, Some(out)) => if trimmed(out).len() == 0 || trimmed(out) == "HEAD"@ {
                None
            } else {
                Some(trimmed(out))
            },
            _ => None,
        },
{
    if !is_repo {
        return None;
    }
    match head {
        Some(out) => {
            let b: &str = trim(out);
            if b.is_empty() || same(b, "HEAD") {
                None
            } else {
                Some(b.to_owned())
            }
        },
        None => None,
    }
}

/// Where opencode keeps its working trees, from the values of the two
/// variables of the environment that say so.
pub fn opencode_worktree_prefix(xdg_data_home: Option<&str>, home: Option<&str>) -> (r: String)
    ensures
        r@ == match (opt_str(xdg_data_home), opt_str(home)) {
            (Some(x), _) => x + "/opencode/worktree"@,
            (None, Some(h)) => h + "/.local/share/opencode/worktree"@,
            (None, None) => Seq::<char>::empty(),
        },
{
    match (xdg_data_home, home) {
        (Some(x), _) => concat2(x, "/opencode/worktree"),
        (None, Some(h)) => concat2(h, "/.local/share/opencode/worktree"),
        (None, None) => String::new(),
    }
}

// ---------------------------------------------------------------------
// What the counts and the lists are
// ---------------------------------------------------------------------
proof fn lemma_tally_joins(x: Seq<Seq<char>>, y: Seq<Seq<char>>, n: int)
    requires
        0 <= n <= y.len(),
        tally(x, x.len() as int) is Some,
        tally(y, n) is Some,
        tally(x + y, x.len() + n) is Some,
    ensures
        ({
            let a = tally(x, x.len() as int)->0;
            let b = tally(y, n)->0;
            tally(x + y, x.len() + n) == Some((a.0 + b.0, a.1 + b.1))
        }),
    decreases n,
{
    let all = x + y;
    if n == 0 {
        lemma_tally_same(all, x, x.len() as int);
    } else {
        lemma_tally_joins(x, y, n - 1);
        assert(all[x.len() + n - 1] == y[n - 1]);
    }
}

proof fn lemma_tally_same(x: Seq<Seq<char>>, y: Seq<Seq<char>>, n: int)
    requires
        0 <= n <= x.len(),
        n <= y.len(),
        forall|i: int| 0 <= i < n ==> #[trigger] x[i] == y[i],
    ensures
        tally(x, n) == tally(y, n),
    decreases n,
{
    if n > 0 {
        lemma_tally_same(x, y, n - 1);
        assert(x[n - 1] == y[n - 1]);
    }
}

/// Neither column of any line counts down.
pub open spec fn counts_up(ls: Seq<Seq<char>>) -> bool {
    forall|i: int|
        0 <= i < ls.len() && words_of(#[trigger] ls[i]).len() >= 2 ==> count_in(words_of(ls[i])[0])
            >= 0 && count_in(words_of(ls[i])[1]) >= 0
}

proof fn lemma_tally_grows(ls: Seq<Seq<char>>, m: int, n: int)
    requires
        0 <= m <= n <= ls.len(),
        counts_up(ls),
        tally(ls, n) is Some,
    ensures
        tally(ls, m) is Some,
        0 <= (tally(ls, m)->0).0 <= (tally(ls, n)->0).0,
        0 <= (tally(ls, m)->0).1 <= (tally(ls, n)->0).1,
    decreases n,
{
    if m < n {
        lemma_tally_grows(ls, m, n - 1);
        assert(words_of(ls[n - 1]).len() >= 2 ==> count_in(words_of(ls[n - 1])[0]) >= 0);
    } else if n > 0 {
        lemma_tally_grows(ls, n - 1, n - 1);
        assert(words_of(ls[n - 1]).len() >= 2 ==> count_in(words_of(ls[n - 1])[0]) >= 0);
    }
}

proof fn lemma_tally_fits(x: Seq<Seq<char>>, y: Seq<Seq<char>>, n: int)
    requires
        0 <= n <= y.len(),
        counts_up(x),
        counts_up(y),
        tally(x, x.len() as int) is Some,
        tally(y, y.len() as int) is Some,
        fits((tally(x, x.len() as int)->0).0 + (tally(y, y.len() as int)->0).0),
        fits((tally(x, x.len() as int)->0).1 + (tally(y, y.len() as int)->0).1),
    ensures
        tally(x + y, x.len() + n) is Some,
    decreases n,
{
    let all = x + y;
    if n == 0 {
        lemma_tally_same(all, x, x.len() as int);
    } else {
        lemma_tally_fits(x, y, n - 1);
        lemma_tally_grows(x, x.len() as int, x.len() as int);
        lemma_tally_grows(y, n, y.len() as int);
        lemma_tally_grows(y, n - 1, n);
        lemma_tally_joins(x, y, n - 1);
        assert(all[x.len() + n - 1] == y[n - 1]);
    }
}

/// The counts of two outputs of git, the first made of whole lines, put one
/// after the other are the sums of the counts of each, in both columns. Where
/// nothing counts down, they come out whenever the sums fit.
pub proof fn changes_of_two_outputs_are_summed(a: Seq<char>, b: Seq<char>)
    requires
        a.len() == 0 || a.last() == '\n',
        changes_in(Some(a), None) is Some,
        changes_in(Some(b), None) is Some,
    ensures
        ({
            let x = changes_in(Some(a), None)->0;
            let y = changes_in(Some(b), None)->0;
            let z = changes_in(Some(a + b), None);
            &&& z is Some ==> (z->0).0 == x.0 + y.0 && (z->0).1 == x.1 + y.1
            &&& counts_up(lines_of(a)) && counts_up(lines_of(b)) && i64::MIN <= x.0 + y.0
                <= i64::MAX && i64::MIN <= x.1 + y.1 <= i64::MAX ==> z is Some
        }),
{
    let x = lines_of(a);
    let y = lines_of(b);
    lines_follow_each_other(a, b);
    let n: int = y.len() as int;
    if tally(x + y, x.len() + n) is Some {
        lemma_tally_joins(x, y, n);
    }
    let sx = tally(x, x.len() as int)->0;
    let sy = tally(y, n)->0;
    if counts_up(x) && counts_up(y) && fits(sx.0 + sy.0) && fits(sx.1 + sy.1) {
        lemma_tally_fits(x, y, n);
        lemma_tally_joins(x, y, n);
    }
}

/// A line that starts with two numbers counts the first as added and the second
/// as removed, whatever follows them.
pub proof fn a_line_counts_its_two_numbers(
    added: nat,
    removed: nat,
    sep: char,
    sep2: char,
    rest: Seq<char>,
)
    requires
        is_white(sep) && sep != '\n' && sep != '\r',
        is_white(sep2) && sep2 != '\n' && sep2 != '\r',
        !rest.contains('\n'),
        !rest.contains('\r'),
        added <= i64::MAX,
        removed <= i64::MAX,
    ensures
        changes_in(
            Some(decimal(added) + seq![sep] + (decimal(removed) + seq![sep2] + rest)),
            None,
        ) == Some((added as int, removed as int)),
{
    let a = decimal(added);
    let b = decimal(removed);
    let tail = b + seq![sep2] + rest;
    let l = a + seq![sep] + tail;
    lemma_decimal_reads_back(added);
    lemma_decimal_reads_back(removed);
    lemma_digits_are_a_word(a);
    lemma_digits_are_a_word(b);
    words_follow_each_other(a, sep, tail);
    words_follow_each_other(b, sep2, rest);
    let w = words_of(l);
    assert(w =~= seq![a] + (seq![b] + words_of(rest)));
    assert(w[0] == a && w[1] == b);
    assert forall|i: int| 0 <= i < l.len() implies l[i] != '\n' && l[i] != '\r' by {
        if i < a.len() {
            assert(l[i] == a[i]);
        } else if i > a.len() {
            let j = i - a.len() - 1;
            assert(l[i] == tail[j]);
            if j < b.len() {
                assert(tail[j] == b[j]);
            } else if j > b.len() {
                assert(tail[j] == rest[j - b.len() - 1]);
                assert(rest.contains(rest[j - b.len() - 1]));
            }
        }
    }
    one_line_is_one_line(l);
    let ls = lines_of(l);
    assert(ls[0] == l);
    assert(tally(ls, 0) == Some((0int, 0int)));
    assert(tally(ls, 1) == Some((added as int, removed as int)));
}

proof fn lemma_digits_are_a_word(d: Seq<char>)
    requires
        all_digits(d),
    ensures
        forall|i: int| 0 <= i < d.len() ==> !is_white(#[trigger] d[i]),
        forall|i: int| 0 <= i < d.len() ==> #[trigger] d[i] != '\n' && d[i] != '\r',
{
    assert forall|i: int| 0 <= i < d.len() implies !is_white(#[trigger] d[i]) && d[i] != '\n' && d[i]
        != '\r' by {
        assert(is_digit(d[i]));
    }
}

/// A line of fewer than two words counts nothing, and neither does a column that
/// writes no number.
pub proof fn a_line_without_numbers_counts_nothing(l: Seq<char>)
    requires
        !l.contains('\n'),
        !l.contains('\r'),
        words_of(l).len() >= 2 ==> written_number(words_of(l)[0]) is None && written_number(
            words_of(l)[1],
        ) is None,
    ensures
        changes_in(Some(l), None) == Some((0int, 0int)),
{
    if l.len() > 0 {
        one_line_is_one_line(l);
        let ls = lines_of(l);
        assert(ls[0] == l);
        assert(tally(ls, 0) == Some((0int, 0int)));
        assert(tally(ls, 1) == Some((0int, 0int)));
    }
}

proof fn lemma_filled_joins(x: Seq<Seq<char>>, y: Seq<Seq<char>>, n: int)
    requires
        0 <= n <= y.len(),
    ensures
        filled(x + y, x.len() + n) == filled(x, x.len() as int) + filled(y, n),
    decreases n,
{
    if n == 0 {
        lemma_filled_same(x + y, x, x.len() as int);
    } else {
        lemma_filled_joins(x, y, n - 1);
        assert((x + y)[x.len() + n - 1] == y[n - 1]);
    }
}

proof fn lemma_filled_same(x: Seq<Seq<char>>, y: Seq<Seq<char>>, n: int)
    requires
        0 <= n <= x.len(),
        n <= y.len(),
        forall|i: int| 0 <= i < n ==> #[trigger] x[i] == y[i],
    ensures
        filled(x, n) == filled(y, n),
    decreases n,
{
    if n > 0 {
        lemma_filled_same(x, y, n - 1);
        assert(x[n - 1] == y[n - 1]);
    }
}

/// Every file that git does not know counts as one line added, on top of what
/// else is counted, and as none removed. An empty line names no file.
pub proof fn an_unknown_file_counts_as_one_line(
    numstat: Option<Seq<char>>,
    before: Seq<char>,
    file: Seq<char>,
)
    requires
        before.len() == 0 || before.last() == '\n',
        !file.contains('\n'),
        !file.contains('\r'),
        changes_in(numstat, Some(before)) is Some,
        (changes_in(numstat, Some(before))->0).0 < i64::MAX,
    ensures
        ({
            let x = changes_in(numstat, Some(before))->0;
            changes_in(numstat, Some(before + file.push('\n'))) == Some(
                (
                    if file.len() > 0 {
                        x.0 + 1
                    } else {
                        x.0
                    },
                    x.1,
                ),
            )
        }),
        changes_in(numstat, None) is Some ==> changes_in(numstat, Some(Seq::<char>::empty()))
            == changes_in(numstat, None),
{
    let a = lines_of(before);
    lines_follow_each_other(before, file.push('\n'));
    one_line_is_one_line(file);
    lemma_filled_joins(a, seq![file], 1);
    assert(filled(seq![file], 0) == 0);
    assert(lines_of(Seq::<char>::empty()) =~= Seq::<Seq<char>>::empty());
    lemma_filled(a, a.len() as int);
}

/// The listed working trees are the first words of the lines that have one, in
/// order, but for those under the hidden path. The first line of all is the main
/// one.
pub proof fn trees_are_the_first_words(ls: Seq<Seq<char>>, n: int, hidden: Seq<char>) -> (at: Seq<
    int,
>)
    requires
        0 <= n <= ls.len(),
    ensures
        forall|i: int, j: int| 0 <= i < j < at.len() ==> at[i] < at[j],
        forall|i: int| #[trigger]
            at.contains(i) <==> 0 <= i < n && words_of(ls[i]).len() > 0 && !components(
                hidden,
            ).is_prefix_of(components(words_of(ls[i])[0])),
        trees_upto(ls, n, hidden) == at.map_values(|i: int| (words_of(ls[i])[0], i == 0)),
    decreases n,
{
    let f = |i: int| (words_of(ls[i])[0], i == 0);
    if n == 0 {
        let at = Seq::<int>::empty();
        assert(trees_upto(ls, n, hidden) =~= at.map_values(f));
        at
    } else {
        let before = trees_are_the_first_words(ls, n - 1, hidden);
        let k = n - 1;
        assert forall|i: int| 0 <= i < before.len() implies #[trigger] before[i] < k by {
            assert(before.contains(before[i]));
        }
        if words_of(ls[k]).len() > 0 && !lies_under(words_of(ls[k])[0], hidden) {
            let at = before.push(k);
            assert forall|i: int| #[trigger] at.contains(i) <==> 0 <= i < n && words_of(
                ls[i],
            ).len() > 0 && !components(hidden).is_prefix_of(components(words_of(ls[i])[0])) by {
                assert(at.contains(i) <==> before.contains(i) || i == k) by {
                    if before.contains(i) {
                        let j = choose|j: int| 0 <= j < before.len() && before[j] == i;
                        assert(at[j] == i);
                    }
                    if i == k {
                        assert(at[before.len() as int] == k);
                    }
                    if at.contains(i) && i != k {
                        let j = choose|j: int| 0 <= j < at.len() && at[j] == i;
                        assert(before[j] == i);
                    }
                }
            }
            assert(at.map_values(f) =~= before.map_values(f).push(f(k)));
            at
        } else {
            before
        }
    }
}

/// Changes and branches are served for ten seconds, working trees for five.
pub proof fn answers_are_served_for_their_time<C>(
    m: Map<Seq<Seq<char>>, (C, u64)>,
    path: Seq<char>,
    now: u64,
)
    ensures
        hits(m, path, now, CACHE_TTL_MS) <==> m.contains_key(components(path)) && now
            < m[components(path)].1 + 10 * 1_000_000_000,
        hits(m, path, now, WORKTREE_CACHE_TTL_MS) <==> m.contains_key(components(path)) && now
            < m[components(path)].1 + 5 * 1_000_000_000,
{
    a_value_is_served_for_its_time(m, path, now, CACHE_TTL_MS);
    a_value_is_served_for_its_time(m, path, now, WORKTREE_CACHE_TTL_MS);
}

/// What is put in from an earlier run counts as one millisecond too old.
pub proof fn restored_is_just_too_old(now: u64, ms: u64)
    requires
        now >= ms * 1_000_000,
    ensures
        ms_before(now, ms) + ms * 1_000_000 == now,
{
}

/// Each question to git is asked in its own words.
pub proof fn each_query_has_its_words()
    ensures
        query_args(Query::Numstat) == seq!["diff"@, "--numstat"@, "HEAD"@],
        query_args(Query::Untracked) == seq!["ls-files"@, "--others"@, "--exclude-standard"@],
        query_args(Query::Worktrees) == seq!["worktree"@, "list"@],
        query_args(Query::Branch) == seq!["rev-parse"@, "--abbrev-ref"@, "HEAD"@],
{
}

/// Where git could not be asked, it counts as if it had printed nothing, and of
/// nothing there are no changes.
pub proof fn without_an_answer_nothing_is_counted(
    numstat: Option<Seq<char>>,
    untracked: Option<Seq<char>>,
)
    ensures
        changes_in(None, untracked) == changes_in(Some(Seq::<char>::empty()), untracked),
        changes_in(numstat, None) == changes_in(numstat, Some(Seq::<char>::empty())),
        changes_in(None, None) == Some((0int, 0int)),
{
    let none = Seq::<char>::empty();
    assert(lines_of(none) =~= Seq::<Seq<char>>::empty());
}

} // verus!
