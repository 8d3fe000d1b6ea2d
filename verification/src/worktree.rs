//! Where a new working tree goes, and how it is added and removed.

use crate::number::{decimal, decimal_of, lemma_decimal_injective};
use crate::path::{
    components, file_name, file_name_of, is_noise, join, join_path, lemma_file_name, lemma_join,
    lemma_parent, lemma_parts_one, lemma_piece_free, lies_under, parent, parent_of, parts, rooted,
};
use crate::text::{chars_of, concat2, concat3, pieces, split, string_of, texts, trim, trimmed};
use vstd::prelude::*;
use vstd::string::*;

verus! {

// ---------------------------------------------------------------------
// Where it goes
// ---------------------------------------------------------------------
/// The name of a repository.
pub open spec fn repo_name(repo: Seq<char>) -> Seq<char> {
    match file_name(repo) {
        Some(n) => n,
        None => "repo"@,
    }
}

/// The name of a branch with its slashes turned into dashes.
pub open spec fn flat(branch: Seq<char>) -> Seq<char> {
    branch.map_values(
        |c: char|
            if c == '/' {
                '-'
            } else {
                c
            },
    )
}

/// `dest` with every segment put behind it, one after the other.
pub open spec fn nested(dest: Seq<char>, segments: Seq<Seq<char>>) -> Seq<char>
    decreases segments.len(),
{
    if segments.len() == 0 {
        dest
    } else {
        join(nested(dest, segments.drop_last()), segments.last())
    }
}

/// The name of a working tree that stands beside its repository.
pub open spec fn sibling_name(repo: Seq<char>, branch: Seq<char>) -> Seq<char> {
    repo_name(repo) + seq!['-', '-'] + flat(branch)
}

/// The path of a new working tree. With no base set it stands beside the
/// repository, else under the base, in a directory of the repository's name.
/// `expanded` is the trimmed base with its tilde resolved.
pub open spec fn planned(
    repo: Seq<char>,
    branch: Seq<char>,
    base: Seq<char>,
    expanded: Seq<char>,
) -> Seq<char> {
    if trimmed(base).len() == 0 {
        match parent(repo) {
            Some(p) => join(p, sibling_name(repo, branch)),
            None => sibling_name(repo, branch),
        }
    } else {
        nested(join(expanded, repo_name(repo)), pieces(branch, '/'))
    }
}

fn flatten(branch: &str) -> (r: String)
    ensures
        r@ == flat(branch@),
{
    let mut cs: Vec<char> = chars_of(branch);
    let n: usize = cs.len();
    let mut i: usize = 0;
    while i < n
        invariant
            n == cs@.len() == branch@.len(),
            i <= n,
            forall|j: int| 0 <= j < i ==> cs@[j] == #[trigger] flat(branch@)[j],
            forall|j: int| i <= j < n ==> cs@[j] == branch@[j],
        decreases n - i,
    {
        if cs[i] == '/' {
            cs.set(i, '-');
        }
        i += 1;
    }
    proof {
        assert(cs@ =~= flat(branch@));
    }
    string_of(&cs)
}

/// The path of a new working tree of `repo` for `branch`. `base_cfg` is the
/// directory that the settings name for working trees, and `expanded` the
/// same, trimmed and with its tilde resolved.
pub fn plan_worktree(repo: &str, branch: &str, base_cfg: &str, expanded: &str) -> (r: String)
    ensures
        r@ == planned(repo@, branch@, base_cfg@, expanded@),
{
    let name: String = match file_name_of(repo) {
        Some(n) => n,
        None => "repo".to_owned(),
    };
    if trim(base_cfg).is_empty() {
        proof {
            reveal_strlit("--");
            assert("--"@ =~= seq!['-', '-']);
        }
        let sibling: String = concat3(name.as_str(), "--", flatten(branch).as_str());
        return match parent_of(repo) {
            Some(p) => join_path(p.as_str(), sibling.as_str()),
            None => sibling,
        };
    }
    let mut dest: String = join_path(expanded, name.as_str());
    let ghost start = dest@;
    let segments: Vec<String> = split(branch, '/');
    let ghost t = texts(segments@);
    let mut i: usize = 0;
    proof {
        assert(t.take(0).len() == 0);
    }
    while i < segments.len()
        invariant
            i <= segments@.len(),
            t == texts(segments@),
            dest@ == nested(start, t.take(i as int)),
        decreases segments@.len() - i,
    {
        proof {
            assert(t.take(i + 1).drop_last() =~= t.take(i as int));
            assert(t.take(i + 1).last() == segments@[i as int]@);
        }
        dest = join_path(dest.as_str(), segments[i].as_str());
        i += 1;
    }
    proof {
        assert(t.take(i as int) =~= t);
    }
    dest
}

/// `occupied` has said `answer` of the path `text`.
pub open spec fn said<E: Fn(&str) -> bool>(occupied: E, text: Seq<char>, answer: bool) -> bool {
    exists|s: &str| s@ == text && #[trigger] call_ensures(occupied, (s,), answer)
}

/// The path with a number behind it.
pub open spec fn numbered(dest: Seq<char>, i: nat) -> Seq<char> {
    dest + seq!['-'] + decimal(i)
}

/// `r` is `dest`, if nothing is there; else the first of `dest-2` to
/// `dest-999` at which nothing is; else `dest` all the same.
pub open spec fn free_dest<E: Fn(&str) -> bool>(occupied: E, dest: Seq<char>, r: Seq<char>) -> bool {
    ||| r == dest && said(occupied, dest, false)
    ||| exists|i: nat|
        {
            &&& 2 <= i < 1000
            &&& r == #[trigger] numbered(dest, i)
            &&& said(occupied, dest, true)
            &&& forall|j: nat| 2 <= j < i ==> said(occupied, #[trigger] numbered(dest, j), true)
            &&& said(occupied, numbered(dest, i), false)
        }
    ||| {
        &&& r == dest
        &&& said(occupied, dest, true)
        &&& forall|j: nat| 2 <= j < 1000 ==> said(occupied, #[trigger] numbered(dest, j), true)
    }
}

/// A path for a working tree at which nothing is: `dest`, or `dest` with a
/// number behind it. `occupied` tells whether there is something at a path.
pub fn unique_dest<E: Fn(&str) -> bool>(dest: &str, occupied: &E) -> (r: String)
    requires
        forall|s: &str| call_requires(*occupied, (s,)),
    ensures
        free_dest(*occupied, dest@, r@),
{
    if !occupied(dest) {
        return dest.to_owned();
    }
    let mut i: u64 = 2;
    while i < 1000
        invariant
            2 <= i <= 1000,
            forall|s: &str| call_requires(*occupied, (s,)),
            said(*occupied, dest@, true),
            forall|j: nat| 2 <= j < i ==> said(*occupied, #[trigger] numbered(dest@, j), true),
        decreases 1000 - i,
    {
        proof {
            reveal_strlit("-");
            assert("-"@ =~= seq!['-']);
        }
        let c: String = concat3(dest, "-", decimal_of(i).as_str());
        proof {
            assert(c@ == numbered(dest@, i as nat));
        }
        if !occupied(c.as_str()) {
            return c;
        }
        i += 1;
    }
    dest.to_owned()
}

// ---------------------------------------------------------------------
// Adding and removing it
// ---------------------------------------------------------------------
/// What came of the last step of adding a working tree.
#[derive(Debug)]
pub enum AddEvent {
    Start,
    ParentMade(Result<(), String>),
    BranchTried(Result<String, String>),
    CheckoutTried(Result<String, String>),
}

/// The next step of adding a working tree.
#[derive(Debug)]
pub enum AddStep {
    MakeDir(String),
    /// Run git with these arguments, to add the tree on a new branch.
    TryBranch(Vec<String>),
    /// Run git with these arguments, to add the tree on a branch that is
    /// there.
    TryCheckout(Vec<String>),
    Finish(Result<(), String>),
}

/// The arguments with which git adds a tree on a new branch.
pub open spec fn branch_args(dest: Seq<char>, branch: Seq<char>) -> Seq<Seq<char>> {
    seq!["worktree"@, "add"@, dest, "-b"@, branch]
}

/// The arguments with which git adds a tree on a branch that is there.
pub open spec fn checkout_args(dest: Seq<char>, branch: Seq<char>) -> Seq<Seq<char>> {
    seq!["worktree"@, "add"@, dest, branch]
}

/// The message of a branch that could not be checked out.
pub open spec fn checkout_failure(dest: Seq<char>, branch: Seq<char>, e: Seq<char>) -> Seq<char> {
    if e.len() == 0 {
        "cannot checkout '"@ + branch + "' at "@ + dest
    } else {
        e
    }
}

/// The message of a directory that could not be made.
pub open spec fn mkdir_failure(dest: Seq<char>, e: Seq<char>) -> Seq<char> {
    "cannot create "@ + (match parent(dest) {
        Some(p) => p,
        None => Seq::<char>::empty(),
    }) + ": "@ + e
}

fn new_branch_args(dest: &str, branch: &str) -> (r: Vec<String>)
    ensures
        texts(r@) == branch_args(dest@, branch@),
{
    let mut r: Vec<String> = Vec::new();
    r.push("worktree".to_owned());
    r.push("add".to_owned());
    r.push(dest.to_owned());
    r.push("-b".to_owned());
    r.push(branch.to_owned());
    proof {
        assert(texts(r@) =~= branch_args(dest@, branch@));
    }
    r
}

fn old_branch_args(dest: &str, branch: &str) -> (r: Vec<String>)
    ensures
        texts(r@) == checkout_args(dest@, branch@),
{
    let mut r: Vec<String> = Vec::new();
    r.push("worktree".to_owned());
    r.push("add".to_owned());
    r.push(dest.to_owned());
    r.push(branch.to_owned());
    proof {
        assert(texts(r@) =~= checkout_args(dest@, branch@));
    }
    r
}

/// The step that follows `event` on the way to a working tree for `branch` at
/// `dest`: the directory above it is made, and git adds the tree on a new
/// branch; where that fails, the branch may be there already, and git checks
/// it out.
pub fn worktree_add(event: AddEvent, dest: &str, branch: &str) -> (r: AddStep)
    ensures
        match event {
            AddEvent::Start => match parent(dest@) {
                Some(p) => r matches AddStep::MakeDir(d) && d@ == p,
                None => r matches AddStep::TryBranch(args) && texts(args@) == branch_args(
                    dest@,
                    branch@,
                ),
            },
            AddEvent::ParentMade(Ok(_)) => r matches AddStep::TryBranch(args) && texts(args@)
                == branch_args(dest@, branch@),
            AddEvent::ParentMade(Err(e)) => r matches AddStep::Finish(Err(m)) && m@
                == mkdir_failure(dest@, e@),
            AddEvent::BranchTried(Ok(_)) => r == AddStep::Finish(Ok(())),
            AddEvent::BranchTried(Err(_)) => r matches AddStep::TryCheckout(args) && texts(args@)
                == checkout_args(dest@, branch@),
            AddEvent::CheckoutTried(Ok(_)) => r == AddStep::Finish(Ok(())),
            AddEvent::CheckoutTried(Err(e)) => r matches AddStep::Finish(Err(m)) && m@
                == checkout_failure(dest@, branch@, e@),
        },
{
    match event {
        AddEvent::Start => match parent_of(dest) {
            Some(p) => AddStep::MakeDir(p),
            None => AddStep::TryBranch(new_branch_args(dest, branch)),
        },
        AddEvent::ParentMade(Ok(_)) => AddStep::TryBranch(new_branch_args(dest, branch)),
        AddEvent::ParentMade(Err(e)) => {
            let p: String = match parent_of(dest) {
                Some(p) => p,
                None => String::new(),
            };
            let head: String = concat3("cannot create ", p.as_str(), ": ");
            proof {
                assert(parent(dest@) is None ==> p@ =~= Seq::<char>::empty());
            }
            AddStep::Finish(Err(concat2(head.as_str(), e.as_str())))
        },
        AddEvent::BranchTried(Ok(_)) => AddStep::Finish(Ok(())),
        AddEvent::BranchTried(Err(_)) => AddStep::TryCheckout(old_branch_args(dest, branch)),
        AddEvent::CheckoutTried(Ok(_)) => AddStep::Finish(Ok(())),
        AddEvent::CheckoutTried(Err(e)) => {
            if e.as_str().is_empty() {
                let head: String = concat3("cannot checkout '", branch, "' at ");
                AddStep::Finish(Err(concat2(head.as_str(), dest)))
            } else {
                AddStep::Finish(Err(e))
            }
        },
    }
}

/// The arguments with which git removes the working tree at `wt`.
pub fn worktree_remove_args(wt: &str) -> (r: Vec<String>)
    ensures
        texts(r@) == seq!["worktree"@, "remove"@, "--force"@, wt@],
{
    let mut r: Vec<String> = Vec::new();
    r.push("worktree".to_owned());
    r.push("remove".to_owned());
    r.push("--force".to_owned());
    r.push(wt.to_owned());
    proof {
        assert(texts(r@) =~= seq!["worktree"@, "remove"@, "--force"@, wt@]);
    }
    r
}

/// What came of removing the working tree at `wt`, from what came of running
/// git with [`worktree_remove_args`].
pub fn worktree_remove(wt: &str, run: Result<String, String>) -> (r: Result<(), String>)
    ensures
        match run {
            Ok(_) => r == Ok::<(), String>(()),
            Err(e) => r matches Err(m) && m@ == if e@.len() == 0 {
                "cannot remove "@ + wt@
            } else {
                e@
            },
        },
{
    match run {
        Ok(_) => Ok(()),
        Err(e) => if e.as_str().is_empty() {
            Err(concat2("cannot remove ", wt))
        } else {
            Err(e)
        },
    }
}

// ---------------------------------------------------------------------
// The laws
// ---------------------------------------------------------------------
proof fn lemma_repo_name(repo: Seq<char>)
    ensures
        repo_name(repo).len() > 0,
        !is_noise(repo_name(repo)),
        !repo_name(repo).contains('/'),
{
    if file_name(repo) is Some {
        lemma_file_name(repo);
    } else {
        reveal_strlit("repo");
        let n = "repo"@;
        assert(n.len() == 4);
        assert(n[0] == 'r' && n[1] == 'e' && n[2] == 'p' && n[3] == 'o');
        assert forall|i: int| 0 <= i < n.len() implies n[i] != '/' by {}
    }
}

proof fn lemma_sibling_name(repo: Seq<char>, branch: Seq<char>)
    ensures
        !is_noise(sibling_name(repo, branch)),
        !sibling_name(repo, branch).contains('/'),
        !rooted(sibling_name(repo, branch)),
{
    lemma_repo_name(repo);
    let s = sibling_name(repo, branch);
    let n = repo_name(repo);
    assert(s.len() >= 2);
    assert(s != seq!['.']);
    assert forall|i: int| 0 <= i < s.len() implies s[i] != '/' by {
        if i < n.len() {
            assert(s[i] == n[i]);
            assert(n.contains(n[i]));
        } else if i >= n.len() + 2 {
            assert(s[i] == flat(branch)[i - n.len() - 2]);
        }
    }
}

/// With no base set, a working tree stands beside its repository: it has the
/// components of the repository but the last, and then its own name.
pub proof fn plan_without_base_is_sibling(
    repo: Seq<char>,
    branch: Seq<char>,
    base: Seq<char>,
    expanded: Seq<char>,
)
    requires
        trimmed(base).len() == 0,
        parent(repo) is Some,
    ensures
        components(planned(repo, branch, base, expanded)) == components(repo).drop_last().push(
            sibling_name(repo, branch),
        ),
{
    let p = parent(repo)->0;
    let s = sibling_name(repo, branch);
    lemma_parent(repo);
    lemma_sibling_name(repo, branch);
    lemma_parts_one(s);
    if p.len() > 0 {
        lemma_join(p, s);
        assert(components(p) + seq![s] =~= components(p).push(s));
    } else {
        assert(join(p, s) =~= s);
        assert(s.skip(0) =~= s);
        assert(crate::path::lead(s) == 0) by {
            assert(s.len() >= 2);
            assert(s.contains(s[1]));
            assert(s[1] != '/');
        }
        lemma_parts_one(Seq::<char>::empty());
        assert(p =~= Seq::<char>::empty());
        assert(components(p) =~= Seq::<Seq<char>>::empty());
        assert(seq![s] =~= Seq::<Seq<char>>::empty().push(s));
    }
}

proof fn lemma_nested(dest: Seq<char>, segments: Seq<Seq<char>>)
    requires
        dest.len() > 0,
        forall|i: int| 0 <= i < segments.len() ==> !(#[trigger] segments[i]).contains('/'),
    ensures
        nested(dest, segments).len() > 0,
        components(nested(dest, segments)) == components(dest) + segments.filter(
            |s: Seq<char>| !is_noise(s),
        ),
    decreases segments.len(),
{
    let keep = |s: Seq<char>| !is_noise(s);
    reveal(Seq::filter);
    if segments.len() == 0 {
        assert(components(dest) + Seq::<Seq<char>>::empty() =~= components(dest));
    } else {
        let d = segments.drop_last();
        let l = segments.last();
        assert forall|i: int| 0 <= i < d.len() implies !(#[trigger] d[i]).contains('/') by {
            assert(d[i] == segments[i]);
        }
        lemma_nested(dest, d);
        assert(!segments[segments.len() - 1].contains('/'));
        assert(!rooted(l)) by {
            if rooted(l) {
                assert(l.contains(l[0]));
            }
        }
        lemma_join(nested(dest, d), l);
        lemma_parts_one(l);
        if is_noise(l) {
            assert(components(nested(dest, d)) + Seq::<Seq<char>>::empty() =~= components(
                nested(dest, d),
            ));
        } else {
            assert((components(dest) + d.filter(keep)) + seq![l] =~= components(dest) + d.filter(
                keep,
            ).push(l));
        }
    }
}

/// With a base set, a working tree lies under it: first the name of the
/// repository, then the pieces of the branch, each a component of its own.
pub proof fn plan_with_base_is_nested(
    repo: Seq<char>,
    branch: Seq<char>,
    base: Seq<char>,
    expanded: Seq<char>,
)
    requires
        trimmed(base).len() > 0,
        expanded.len() > 0,
    ensures
        components(planned(repo, branch, base, expanded)) == components(expanded).push(
            repo_name(repo),
        ) + parts(branch),
{
    let n = repo_name(repo);
    lemma_repo_name(repo);
    assert(!rooted(n)) by {
        if rooted(n) {
            assert(n.contains(n[0]));
        }
    }
    lemma_join(expanded, n);
    lemma_parts_one(n);
    assert(components(expanded) + seq![n] =~= components(expanded).push(n));
    let ps = pieces(branch, '/');
    assert forall|i: int| 0 <= i < ps.len() implies !(#[trigger] ps[i]).contains('/') by {
        lemma_piece_free(branch, '/', i);
    }
    lemma_nested(join(expanded, n), ps);
    assert((|s: Seq<char>| !is_noise(s)) =~= (|p: Seq<char>| !is_noise(p)));
}

/// The candidates for a path at which nothing is are all different, from one
/// another and from the path itself.
pub proof fn numbered_paths_differ(dest: Seq<char>, i: nat, j: nat)
    ensures
        numbered(dest, i) == numbered(dest, j) ==> i == j,
        numbered(dest, i) != dest,
{
    assert(numbered(dest, i).len() > dest.len());
    if numbered(dest, i) == numbered(dest, j) {
        let n: int = dest.len() as int + 1;
        assert(numbered(dest, i).skip(n) =~= decimal(i));
        assert(numbered(dest, j).skip(n) =~= decimal(j));
        lemma_decimal_injective(i, j);
    }
}

/// A branch is flattened in place: its slashes become dashes, and nothing else
/// changes.
pub proof fn flat_changes_slashes_only(branch: Seq<char>, i: int)
    requires
        0 <= i < branch.len(),
    ensures
        flat(branch).len() == branch.len(),
        branch[i] == '/' ==> flat(branch)[i] == '-',
        branch[i] != '/' ==> flat(branch)[i] == branch[i],
{
}

/// With no base set, the name of a working tree is that of its repository, two
/// dashes, and the branch with its slashes as dashes.
pub proof fn sibling_has_both_names(
    repo: Seq<char>,
    branch: Seq<char>,
    base: Seq<char>,
    expanded: Seq<char>,
    i: int,
)
    requires
        trimmed(base).len() == 0,
        file_name(repo) is Some,
        0 <= i < branch.len(),
    ensures
        ({
            let cs = components(planned(repo, branch, base, expanded));
            let name = components(repo).last();
            let n = name.len() as int;
            &&& cs.len() > 0
            &&& cs.last().len() == n + 2 + branch.len()
            &&& cs.last().take(n) == name
            &&& cs.last()[n] == '-'
            &&& cs.last()[n + 1] == '-'
            &&& cs.last()[n + 2 + i] == if branch[i] == '/' {
                '-'
            } else {
                branch[i]
            }
        }),
{
    lemma_file_name(repo);
    lemma_parent(repo);
    let s = sibling_name(repo, branch);
    let n = repo_name(repo).len() as int;
    assert(s.take(n) =~= repo_name(repo));
    assert(s[n + 2 + i] == flat(branch)[i]);
    if parent(repo) is Some {
        plan_without_base_is_sibling(repo, branch, base, expanded);
    } else {
        assert(components(repo) == seq![seq!['/']]);
        assert((file_name(repo)->0).contains('/')) by {
            assert(components(repo).last()[0] == '/');
        }
    }
}

/// With no base set and nowhere to be a sibling, a working tree is planned under
/// the name `repo`.
pub proof fn plan_without_parent_has_a_name_of_its_own(
    repo: Seq<char>,
    branch: Seq<char>,
    base: Seq<char>,
    expanded: Seq<char>,
)
    requires
        trimmed(base).len() == 0,
        parent(repo) is None,
    ensures
        file_name(repo) is None,
        planned(repo, branch, base, expanded) == "repo"@ + seq!['-', '-'] + flat(branch),
{
    lemma_parent(repo);
    if file_name(repo) is Some {
        lemma_file_name(repo);
        assert(components(repo).last()[0] == '/');
        assert((file_name(repo)->0).contains('/'));
    }
}

/// `occupied` says `answer` of the path, and never the opposite.
pub open spec fn always_said<E: Fn(&str) -> bool>(
    occupied: E,
    path: Seq<char>,
    answer: bool,
) -> bool {
    forall|s: &str, x: bool| s@ == path && #[trigger] call_ensures(occupied, (s,), x) ==> x == answer
}

/// A path at which nothing is, is taken as it is.
pub proof fn a_free_path_is_taken<E: Fn(&str) -> bool>(occupied: E, dest: Seq<char>, r: Seq<char>)
    requires
        free_dest(occupied, dest, r),
        always_said(occupied, dest, false),
    ensures
        r == dest,
{
}

/// Of a path at which something is, the candidate with the least number at which
/// nothing is, is taken.
pub proof fn the_first_free_candidate_is_taken<E: Fn(&str) -> bool>(
    occupied: E,
    dest: Seq<char>,
    i: nat,
    r: Seq<char>,
)
    requires
        free_dest(occupied, dest, r),
        2 <= i < 1000,
        always_said(occupied, dest, true),
        forall|j: nat|
            2 <= j < i ==> always_said(occupied, dest + seq!['-'] + #[trigger] decimal(j), true),
        always_said(occupied, dest + seq!['-'] + decimal(i), false),
    ensures
        r == dest + seq!['-'] + decimal(i),
{
    assert(numbered(dest, i) == dest + seq!['-'] + decimal(i));
    if exists|k: nat| 2 <= k < 1000 && r == #[trigger] numbered(dest, k) && said(
        occupied,
        numbered(dest, k),
        false,
    ) && forall|j: nat| 2 <= j < k ==> said(occupied, #[trigger] numbered(dest, j), true) {
        let k = choose|k: nat| 2 <= k < 1000 && r == #[trigger] numbered(dest, k) && said(
            occupied,
            numbered(dest, k),
            false,
        ) && forall|j: nat| 2 <= j < k ==> said(occupied, #[trigger] numbered(dest, j), true);
        if k < i {
            assert(always_said(occupied, dest + seq!['-'] + decimal(k), true));
        } else if i < k {
            assert(said(occupied, numbered(dest, i), true));
        }
    } else {
        assert(said(occupied, numbered(dest, i), true));
    }
}

/// Git adds a tree at its path and on its branch, which it makes if it is asked
/// to.
pub proof fn git_is_told_path_and_branch(dest: Seq<char>, branch: Seq<char>)
    ensures
        branch_args(dest, branch) == seq!["worktree"@, "add"@, dest, "-b"@, branch],
        checkout_args(dest, branch) == seq!["worktree"@, "add"@, dest, branch],
{
}

/// The message of a tree that could not be added is what git said; where git
/// said nothing, it names the branch and the path.
pub proof fn git_has_the_last_word(dest: Seq<char>, branch: Seq<char>, e: Seq<char>)
    ensures
        e.len() > 0 ==> checkout_failure(dest, branch, e) == e,
        checkout_failure(dest, branch, Seq::<char>::empty()) == "cannot checkout '"@ + branch
            + "' at "@ + dest,
        parent(dest) matches Some(p) ==> mkdir_failure(dest, e) == "cannot create "@ + p + ": "@
            + e,
{
}

/// With a base set, the path starts with the base, and with no base set it does
/// not depend on it.
pub proof fn only_a_base_that_is_set_counts(
    repo: Seq<char>,
    branch: Seq<char>,
    base: Seq<char>,
    expanded: Seq<char>,
    other: Seq<char>,
)
    ensures
        trimmed(base).len() == 0 ==> planned(repo, branch, base, expanded) == planned(
            repo,
            branch,
            base,
            other,
        ),
        trimmed(base).len() > 0 && expanded.len() > 0 ==> lies_under(
            planned(repo, branch, base, expanded),
            expanded,
        ),
{
    if trimmed(base).len() > 0 && expanded.len() > 0 {
        plan_with_base_is_nested(repo, branch, base, expanded);
        let a = components(expanded);
        assert(a =~= components(planned(repo, branch, base, expanded)).subrange(0, a.len() as int));
    }
}

/// The name of a repository is that of its directory, or `repo` if that has none.
pub proof fn a_repository_has_a_name(repo: Seq<char>)
    ensures
        file_name(repo) matches Some(n) ==> repo_name(repo) == n,
        file_name(repo) is None ==> repo_name(repo) == "repo"@,
{
}

/// With something at every candidate, the path is taken as it is.
pub proof fn without_a_free_candidate_the_path_is_taken<E: Fn(&str) -> bool>(
    occupied: E,
    dest: Seq<char>,
    r: Seq<char>,
)
    requires
        free_dest(occupied, dest, r),
        forall|j: nat|
            2 <= j < 1000 ==> always_said(occupied, dest + seq!['-'] + #[trigger] decimal(j), true),
    ensures
        r == dest,
{
    if r != dest {
        let i = choose|i: nat| 2 <= i < 1000 && r == #[trigger] numbered(dest, i) && said(
            occupied,
            numbered(dest, i),
            false,
        );
        assert(always_said(occupied, dest + seq!['-'] + decimal(i), true));
    }
}

} // verus!
