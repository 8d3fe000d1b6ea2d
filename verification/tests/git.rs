use ramo::branch::{auto_branch_name, sanitize_branch_name};
use ramo::cache::{hit_or, PathMap};
use ramo::git::{
    args_for, compute_branch, compute_changes, git_run, git_stdout, list_worktrees,
    opencode_worktree_prefix, DiskCache, GitCache, GitRun, Query,
};
use ramo::model::{Changes, WorktreeInfo};
use ramo::path::{file_name_of, join_path, parent_of, paths_equal};
use ramo::worktree::{
    plan_worktree, unique_dest, worktree_add, worktree_remove, worktree_remove_args, AddEvent,
    AddStep,
};

const MS: u64 = 1_000_000;

#[test]
fn sanitize_keeps_branches_readable() {
    assert_eq!(sanitize_branch_name("feat/foo"), "feat/foo");
    assert_eq!(sanitize_branch_name("  my branch! "), "my-branch");
    assert_eq!(sanitize_branch_name("a//b"), "a/b");
    assert_eq!(sanitize_branch_name("../x"), "x");
    assert_eq!(sanitize_branch_name(""), "");
    assert_eq!(sanitize_branch_name("---"), "");
}

#[test]
fn sanitize_squeezes_and_replaces() {
    assert_eq!(sanitize_branch_name("a   b"), "a-b");
    assert_eq!(sanitize_branch_name("a..b"), "a-b");
    assert_eq!(sanitize_branch_name("a@{b"), "a-b");
    assert_eq!(sanitize_branch_name("x---y////z"), "x-y/z");
    assert_eq!(sanitize_branch_name("größe"), "gr-e");
}

#[test]
fn clean_names_are_kept() {
    for name in ["main", "release-1.2", "feat/a_b", "A.B/c"] {
        assert_eq!(sanitize_branch_name(name), name);
        assert_eq!(sanitize_branch_name(&sanitize_branch_name(name)), name);
    }
}

#[test]
fn sanitizing_settles_and_keeps_words() {
    let words = |t: &str| -> String {
        t.chars().filter(|c| c.is_ascii_alphanumeric() || *c == '_').collect()
    };
    for raw in ["  my branch! ", "a - b//c", "x---y", "größe_1", "a . b"] {
        let once = sanitize_branch_name(raw);
        assert!(!once.contains("--"));
        assert_eq!(sanitize_branch_name(&once), once);
        assert_eq!(words(&once), words(raw));
    }
    // Two dots in a row can leave two dashes.
    assert_eq!(sanitize_branch_name("a-..b"), "a--b");
    assert_eq!(words("a-..b"), words("a--b"));
}

#[test]
fn automatic_names_count_seconds() {
    assert_eq!(auto_branch_name(Some(1700000000)), "wt-1700000000");
    assert_eq!(auto_branch_name(Some(0)), "wt-0");
    assert_eq!(auto_branch_name(None), "wt-0");
    assert_eq!(auto_branch_name(Some(u64::MAX)), "wt-18446744073709551615");
}

#[test]
fn plan_nests_under_base_or_siblings_by_default() {
    let repo = "/home/u/Projects/myrepo";
    let expanded = "/home/u/Projects/worktrees";
    assert_eq!(
        plan_worktree(repo, "feat/foo", "~/Projects/worktrees", expanded),
        join_path(expanded, "myrepo/feat/foo")
    );
    assert_eq!(
        plan_worktree(repo, "feat/foo", "", ""),
        "/home/u/Projects/myrepo--feat-foo"
    );
}

#[test]
fn plan_at_the_edges() {
    assert_eq!(plan_worktree("/", "b", " \t ", ""), "repo--b");
    assert_eq!(plan_worktree("", "b", "", ""), "repo--b");
    assert_eq!(plan_worktree("solo", "b", "", ""), "solo--b");
    assert_eq!(plan_worktree("/", "a/b", "/w", "/w"), "/w/repo/a/b");
    assert_eq!(plan_worktree("/r/x/", "b", "", ""), "/r/x--b");
}

#[test]
fn unique_bumps_existing() {
    let base = "/tmp/ramo_wt";
    let dest = join_path(base, "myrepo--x");
    let there = dest.clone();
    let occupied = move |p: &str| p == there;
    assert_eq!(unique_dest(&dest, &occupied), join_path(base, "myrepo--x-2"));
    assert_eq!(unique_dest(&join_path(base, "fresh"), &occupied), join_path(base, "fresh"));
}

#[test]
fn unique_takes_the_first_free_number() {
    let occupied = |p: &str| p == "d" || p == "d-2" || p == "d-3" || p == "d-5";
    assert_eq!(unique_dest("d", &occupied), "d-4");
    let up_to_998 = |p: &str| p != "d-999";
    assert_eq!(unique_dest("d", &up_to_998), "d-999");
    let always = |_p: &str| true;
    assert_eq!(unique_dest("d", &always), "d");
}

fn args(step: AddStep) -> Vec<String> {
    match step {
        AddStep::TryBranch(a) => a,
        AddStep::TryCheckout(a) => a,
        other => panic!("no arguments in {:?}", other),
    }
}

#[test]
fn adding_tries_a_new_branch_first() {
    let step = worktree_add(AddEvent::Start, "/w/r--x", "x");
    assert!(matches!(step, AddStep::MakeDir(d) if d == "/w"));
    let step = worktree_add(AddEvent::ParentMade(Ok(())), "/w/r--x", "x");
    assert!(matches!(step, AddStep::TryBranch(_)));
    assert_eq!(args(step), vec!["worktree", "add", "/w/r--x", "-b", "x"]);
    let step = worktree_add(AddEvent::BranchTried(Err("exists".to_string())), "/w/r--x", "x");
    assert!(matches!(step, AddStep::TryCheckout(_)));
    assert_eq!(args(step), vec!["worktree", "add", "/w/r--x", "x"]);
    let done = worktree_add(AddEvent::BranchTried(Ok(String::new())), "/w/r--x", "x");
    assert!(matches!(done, AddStep::Finish(Ok(()))));
    let done = worktree_add(AddEvent::CheckoutTried(Ok(String::new())), "/w/r--x", "x");
    assert!(matches!(done, AddStep::Finish(Ok(()))));
    assert!(matches!(worktree_add(AddEvent::Start, "/", "x"), AddStep::TryBranch(_)));
}

#[test]
fn adding_says_why_it_failed() {
    let failed = |e: AddEvent| match worktree_add(e, "/w/r", "x") {
        AddStep::Finish(Err(m)) => m,
        other => panic!("{:?}", other),
    };
    assert_eq!(
        failed(AddEvent::ParentMade(Err("denied".to_string()))),
        "cannot create /w: denied"
    );
    assert_eq!(failed(AddEvent::CheckoutTried(Err("boom".to_string()))), "boom");
    assert_eq!(
        failed(AddEvent::CheckoutTried(Err(String::new()))),
        "cannot checkout 'x' at /w/r"
    );
}

#[test]
fn removing_forces_and_says_why_it_failed() {
    assert_eq!(worktree_remove_args("/w/r"), vec!["worktree", "remove", "--force", "/w/r"]);
    assert_eq!(worktree_remove("/w/r", Ok("out".to_string())), Ok(()));
    assert_eq!(worktree_remove("/w/r", Err("boom".to_string())), Err("boom".to_string()));
    assert_eq!(
        worktree_remove("/w/r", Err(String::new())),
        Err("cannot remove /w/r".to_string())
    );
}

fn ended(success: bool, stdout: &[u8], stderr: &[u8]) -> GitRun {
    GitRun::Ended { success, stdout: stdout.to_vec(), stderr: stderr.to_vec() }
}

#[test]
fn runs_of_git_are_read() {
    assert_eq!(git_stdout(&ended(true, b"a\n", b"")), Some("a\n".to_string()));
    assert_eq!(git_stdout(&ended(false, b"a\n", b"")), None);
    assert_eq!(git_stdout(&GitRun::NotRun("gone".to_string())), None);
    assert_eq!(git_run(&ended(true, b" a\n", b"x")), Ok(" a\n".to_string()));
    assert_eq!(git_run(&ended(false, b"a", b"  fatal: no\n")), Err("fatal: no".to_string()));
    assert_eq!(
        git_run(&GitRun::NotRun("gone".to_string())),
        Err("git failed: gone".to_string())
    );
    assert_eq!(
        git_stdout(&ended(true, b"a\xffb", b"")),
        Some("a\u{fffd}b".to_string())
    );
}

#[test]
fn git_is_asked_with_these_arguments() {
    assert_eq!(args_for(Query::Numstat), vec!["diff", "--numstat", "HEAD"]);
    assert_eq!(args_for(Query::Untracked), vec!["ls-files", "--others", "--exclude-standard"]);
    assert_eq!(args_for(Query::Worktrees), vec!["worktree", "list"]);
    assert_eq!(args_for(Query::Branch), vec!["rev-parse", "--abbrev-ref", "HEAD"]);
}

fn changes(additions: i64, deletions: i64) -> Changes {
    Changes { additions, deletions }
}

#[test]
fn changes_are_summed() {
    let numstat = "3\t1\tsrc/a.rs\n-\t-\timg.png\n10\t0\tb\nodd\n";
    let untracked = "new.txt\n\nother\n";
    assert_eq!(compute_changes(true, Some(numstat), Some(untracked)), Some(changes(15, 1)));
    assert_eq!(compute_changes(true, Some(numstat), None), Some(changes(13, 1)));
    assert_eq!(compute_changes(true, None, Some(untracked)), Some(changes(2, 0)));
    assert_eq!(compute_changes(true, None, None), Some(changes(0, 0)));
    assert_eq!(compute_changes(false, Some(numstat), Some(untracked)), Some(changes(0, 0)));
    let huge = "9223372036854775807 0 a\n1 0 b\n";
    assert_eq!(compute_changes(true, Some(huge), None), None);
    assert_eq!(compute_changes(true, Some("+7 -2 a"), None), Some(changes(7, -2)));
}

#[test]
fn trees_are_listed_but_for_the_hidden() {
    let out = "/p/repo      abc [main]\n/p/oc/wt1  def [x]\n\n/p/repo--x ghi [x]\n";
    let list = list_worktrees(true, Some(out), "/p/oc");
    let seen: Vec<(&str, bool)> = list.iter().map(|w| (w.path.as_str(), w.is_main)).collect();
    assert_eq!(seen, vec![("/p/repo", true), ("/p/repo--x", false)]);
    assert!(list_worktrees(false, Some(out), "/p/oc").is_empty());
    assert!(list_worktrees(true, None, "/p/oc").is_empty());
    // A sibling that only starts with the same letters is not hidden.
    assert_eq!(list_worktrees(true, Some("/p/ocean x\n"), "/p/oc").len(), 1);
    // Every path is under the empty one.
    assert!(list_worktrees(true, Some(out), "").is_empty());
}

#[test]
fn branch_is_read() {
    assert_eq!(compute_branch(true, Some("main\n")), Some("main".to_string()));
    assert_eq!(compute_branch(true, Some("HEAD\n")), None);
    assert_eq!(compute_branch(true, Some(" \n")), None);
    assert_eq!(compute_branch(true, None), None);
    assert_eq!(compute_branch(false, Some("main\n")), None);
}

#[test]
fn hidden_prefix_is_found() {
    assert_eq!(opencode_worktree_prefix(Some("/x"), Some("/h")), "/x/opencode/worktree");
    assert_eq!(
        opencode_worktree_prefix(None, Some("/h")),
        "/h/.local/share/opencode/worktree"
    );
    assert_eq!(opencode_worktree_prefix(None, None), "");
}

#[test]
fn values_are_served_while_they_are_young() {
    let mut cache = GitCache::new();
    let now = 100_000 * MS;
    assert_eq!(cache.diff("/p", now, || (changes(1, 2), now)), changes(1, 2));
    // Another way to write the same path; git is not asked again.
    assert_eq!(cache.diff("/p/./", now + 9_999 * MS, || (changes(9, 9), now)), changes(1, 2));
    assert_eq!(
        cache.diff("/p", now + 10_000 * MS, || (changes(3, 4), now + 10_001 * MS)),
        changes(3, 4)
    );
    assert_eq!(cache.diff("/p", now + 20_000 * MS, || (changes(9, 9), 0)), changes(3, 4));
    assert_eq!(cache.diff("/q", now, || (changes(5, 6), now)), changes(5, 6));

    let tree = |p: &str| vec![WorktreeInfo { path: p.to_string(), is_main: true }];
    assert_eq!(cache.worktrees("/p", now, || (tree("/a"), now))[0].path, "/a");
    assert_eq!(cache.worktrees("/p", now + 4_999 * MS, || (tree("/b"), now))[0].path, "/a");
    assert_eq!(cache.worktrees("/p", now + 5_000 * MS, || (tree("/b"), now))[0].path, "/b");

    let main = Some("main".to_string());
    assert_eq!(cache.branch("/p", now, || (main.clone(), now)), main);
    assert_eq!(cache.branch("/p", now + 1, || (None, now)), main);
    assert_eq!(cache.branch("/none", now, || (None, now)), None);
    assert_eq!(cache.branch("/none", now, || (main.clone(), now)), None);
}

#[test]
fn what_is_saved_comes_back_stale() {
    let mut cache = GitCache::new();
    let now = 100_000 * MS;
    cache.diff("/p", now, || (changes(1, 2), now));
    cache.diff("/q", now, || (changes(3, 4), now));
    cache.branch("/p", now, || (Some("x".to_string()), now));
    let tree = vec![WorktreeInfo { path: "/p".to_string(), is_main: true }];
    cache.worktrees("/p", now, || (tree, now));
    let disk = cache.to_disk();
    assert_eq!(disk.diffs.len(), 2);

    let mut fresh = GitCache::new();
    let later = 500_000 * MS;
    fresh.load_disk(&disk, later);
    let again = fresh.to_disk();
    let mut paths: Vec<(String, Changes)> = again.diffs;
    paths.sort_by(|a, b| a.0.cmp(&b.0));
    assert_eq!(
        paths,
        vec![("/p".to_string(), changes(1, 2)), ("/q".to_string(), changes(3, 4))]
    );
    assert_eq!(again.branches, vec![("/p".to_string(), Some("x".to_string()))]);
    assert_eq!(again.worktrees[0].1[0].path, "/p");
    // Too old to be served.
    assert_eq!(fresh.diff("/p", later, || (changes(7, 7), later)), changes(7, 7));
    assert_eq!(fresh.branch("/p", later, || (None, later)), None);
    assert!(fresh.worktrees("/p", later, || (Vec::new(), later)).is_empty());
}

#[test]
fn an_empty_cache_saves_nothing() {
    let disk = DiskCache::default();
    let mut cache = GitCache::new();
    cache.load_disk(&disk, 20_000 * MS);
    assert!(cache.to_disk().diffs.is_empty());
    assert!(cache.to_disk().branches.is_empty());
    assert!(cache.to_disk().worktrees.is_empty());
}

#[test]
fn a_map_by_path_is_looked_up_and_filled() {
    let mut map: PathMap<Option<String>> = PathMap::new();
    assert_eq!(map.lookup("/a", 0, 1), None);
    map.insert("/a", Some("x".to_string()), 5 * MS);
    assert_eq!(map.lookup("/a/", 5 * MS, 1), Some(Some("x".to_string())));
    assert_eq!(map.lookup("/a", 6 * MS, 1), None);
    assert_eq!(map.lookup("/a", 5 * MS, 0), None);
    map.insert("/a", None, 7 * MS);
    assert_eq!(map.lookup("/a", 7 * MS, 10), Some(None));
    assert_eq!(map.to_pairs(), vec![("/a".to_string(), None)]);
}

#[test]
fn a_path_keeps_the_text_that_it_came_with() {
    let mut map: PathMap<Option<String>> = PathMap::new();
    map.insert("/p", None, 0);
    map.insert("/p/", Some("x".to_string()), 0);
    assert_eq!(map.to_pairs(), vec![("/p".to_string(), Some("x".to_string()))]);
    map.load(&vec![("/p/.".to_string(), None), ("/q//r".to_string(), None)], 0);
    assert_eq!(map.to_pairs(), vec![("/p".to_string(), None), ("/q//r".to_string(), None)]);

    let mut cache = GitCache::new();
    cache.diff("/a/b", 0, || (changes(1, 0), 0));
    cache.diff("/a//b", 20_000 * MS, || (changes(2, 0), 20_000 * MS));
    assert_eq!(cache.to_disk().diffs, vec![("/a/b".to_string(), changes(2, 0))]);
}

#[test]
fn a_hit_is_not_asked_for_again() {
    assert_eq!(hit_or(Some(changes(1, 2)), || (changes(9, 9), 5)), (changes(1, 2), None));
    assert_eq!(hit_or(None, || (changes(9, 9), 5)), (changes(9, 9), Some(5)));
}

#[test]
fn paths_are_taken_apart() {
    assert!(paths_equal("/a/b", "/a//b/."));
    assert!(!paths_equal("/a/b", "a/b"));
    assert!(!paths_equal("./a", "/a"));
    assert!(!paths_equal("/a/../a", "/a"));
    assert_eq!(file_name_of("/a/b/"), Some("b".to_string()));
    assert_eq!(file_name_of("/a/.."), None);
    assert_eq!(file_name_of("/"), None);
    assert_eq!(parent_of("/a/b"), Some("/a".to_string()));
    assert_eq!(parent_of("/a"), Some("/".to_string()));
    assert_eq!(parent_of("a"), Some(String::new()));
    assert_eq!(parent_of("/"), None);
    assert_eq!(parent_of(""), None);
    assert_eq!(join_path("/a", "b"), "/a/b");
    assert_eq!(join_path("/a/", "b"), "/a/b");
    assert_eq!(join_path("/a", "/b"), "/b");
    assert_eq!(join_path("", "b"), "b");
}
