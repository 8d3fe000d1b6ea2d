//! What holds of sessions and working trees in the picker.

use crate::branch::{
    all_allowed, branch_name_is_clean, branch_name_keeps_words, clean_branch_name_is_kept,
    is_allowed, is_edge, is_word, no_pair, sanitized, word_chars,
};
use crate::model::{
    opt_text, same_target, Config, Entry, EntryType, FeedbackEntry, FeedbackType, Goto,
};
use crate::number::decimal;
use crate::path::{file_name, same_path};
use crate::picker::{known_by, revealed, Host, Mode, OpResult, PendingCreate, Picker};
use crate::picker_tree::{
    agent_kills, arrived, bare_of, branch_for, calls_for_refresh, child_of, creation_begun, dir_at,
    has_placeholder, kill_at, kill_views, lemma_subtree_end, lies_below, made_room, new_place,
    only_told, op_handled, opened, origin_at, own_session, parents, pending_done, pending_failed,
    placeholder_put, reconciled, remains, session_name, stands_for, target_or, told, tree_at,
    CreatePlan, Kill,
};
use crate::search::{
    first_such, last_such, lemma_first_such, lemma_first_such_at, lemma_last_such_at,
};
use crate::text::{is_white, lemma_strip, lemma_strip_id, lowercase, trimmed};
use vstd::prelude::*;

verus! {

// ---------------------------------------------------------------------
// The branch
// ---------------------------------------------------------------------
proof fn lemma_sanitized_trimmed(s: Seq<char>)
    ensures
        sanitized(trimmed(s)) == sanitized(s),
{
    let p = |c: char| is_white(c);
    lemma_strip(s, p);
    lemma_strip_id(trimmed(s), p);
}

/// A text has a branch name exactly if it holds a letter, a digit or an
/// underscore.
proof fn lemma_word_or_nothing(s: Seq<char>)
    ensures
        sanitized(s).len() == 0 <==> word_chars(s).len() == 0,
{
    let b = sanitized(s);
    branch_name_is_clean(s);
    branch_name_keeps_words(s);
    if b.len() > 0 {
        assert(is_allowed(b[0]));
        assert(is_word(b[0]));
    }
}

/// A text with a letter, a digit or an underscore in it is the branch, as far
/// as a branch can be called so. Only a text with none gives a branch after
/// the time.
pub proof fn the_typed_text_names_the_branch(input: Seq<char>, since_epoch: Option<u64>)
    ensures
        word_chars(input).len() > 0 ==> branch_for(input, since_epoch) == sanitized(input),
        word_chars(input).len() > 0 ==> word_chars(branch_for(input, since_epoch)) == word_chars(
            input,
        ),
        sanitized(trimmed(input)).len() > 0 ==> branch_for(input, since_epoch) == sanitized(
            trimmed(input),
        ),
        word_chars(input).len() == 0 && since_epoch is Some ==> branch_for(input, since_epoch)
            == "wt-"@ + decimal(since_epoch->0 as nat),
        word_chars(input).len() == 0 && since_epoch is None ==> branch_for(input, since_epoch)
            == "wt-"@ + decimal(0),
{
    lemma_sanitized_trimmed(input);
    lemma_word_or_nothing(input);
    branch_name_keeps_words(input);
}

/// A text that is a branch name already is the branch as it was typed, with
/// slashes in it or without.
pub proof fn a_clean_name_is_the_branch(input: Seq<char>, since_epoch: Option<u64>)
    requires
        input.len() > 0,
        forall|i: int|
            0 <= i < input.len() ==> 'a' <= #[trigger] input[i] <= 'z' || 'A' <= input[i] <= 'Z'
                || '0' <= input[i] <= '9' || input[i] == '_' || input[i] == '/' || input[i] == '.'
                || input[i] == '-',
        no_pair(input, '-', '-'),
        no_pair(input, '/', '/'),
        no_pair(input, '.', '.'),
        input[0] != '-' && input[0] != '/' && input[0] != '.',
        input.last() != '-' && input.last() != '/' && input.last() != '.',
    ensures
        branch_for(input, since_epoch) == input,
{
    assert(all_allowed(input)) by {
        assert forall|i: int| 0 <= i < input.len() implies is_allowed(#[trigger] input[i]) by {}
    }
    assert(!is_edge(input[0]) && !is_edge(input.last()));
    clean_branch_name_is_kept(input);
    lemma_sanitized_trimmed(input);
}

// ---------------------------------------------------------------------
// Where a working tree is made
// ---------------------------------------------------------------------
/// A working tree is made of a directory: the one under the cursor, or the one
/// that the entry under the cursor is right below. Where neither is a
/// directory none is made.
pub proof fn a_worktree_is_made_of_a_directory(p: Picker)
    requires
        p.wf(),
        p.cursor < p.filtered@.len(),
    ensures
        origin_at(p) matches Some(o) ==> o < p.entries@.len() && p.entries@[o as int].kind
            == EntryType::Dir,
        p.under_cursor().kind == EntryType::Dir ==> origin_at(p) == Some(
            p.filtered@[p.cursor as int],
        ),
        p.under_cursor().kind != EntryType::Dir ==> (origin_at(p) is Some
            <==> p.under_cursor().parent is Some && p.under_cursor().parent->0 < p.entries@.len()
            && p.entries@[p.under_cursor().parent->0 as int].kind == EntryType::Dir),
        p.under_cursor().kind != EntryType::Dir && origin_at(p) is Some ==> origin_at(p)
            == p.under_cursor().parent,
{
}

// ---------------------------------------------------------------------
// What ends with a working tree
// ---------------------------------------------------------------------
/// To end a target that names a window ends that window of that session; one
/// that names none ends the session, by the name that the terminal multiplexer
/// gave it: colons and full stops are underscores there, and no other character
/// changes.
pub proof fn a_kill_is_of_its_target(g: Goto)
    ensures
        kill_at(g).1 == g.window,
        g.window is Some ==> kill_at(g).0 == g.session@,
        g.window is None ==> kill_at(g).0.len() == g.session@.len(),
        g.window is None ==> forall|i: int|
            0 <= i < g.session@.len() ==> #[trigger] kill_at(g).0[i] == if g.session@[i] == ':'
                || g.session@[i] == '.' {
                '_'
            } else {
                g.session@[i]
            },
{
}

/// The agents right below the working tree end, each that leads somewhere, in
/// the order of the list; no agent of another place ends with it.
pub proof fn the_agents_of_a_worktree_end(es: Seq<Entry>, idx: usize, n: int) -> (at: Seq<int>)
    requires
        0 <= n <= es.len(),
    ensures
        forall|x: int, y: int| 0 <= x < y < at.len() ==> at[x] < at[y],
        forall|j: int| #[trigger]
            at.contains(j) <==> 0 <= j < n && es[j].parent == Some(idx) && es[j].kind
                == EntryType::Agent && es[j].goto is Some,
        agent_kills(es, idx, n).len() == at.len(),
        forall|x: int|
            0 <= x < at.len() ==> #[trigger] agent_kills(es, idx, n)[x] == kill_at(
                es[at[x]].goto->0,
            ),
    decreases n,
{
    if n == 0 {
        Seq::<int>::empty()
    } else {
        let d = the_agents_of_a_worktree_end(es, idx, n - 1);
        let e = es[n - 1];
        if e.parent == Some(idx) && e.kind == EntryType::Agent && e.goto is Some {
            let at = d.push(n - 1);
            assert forall|x: int, y: int| 0 <= x < y < at.len() implies at[x] < at[y] by {
                assert(d.contains(at[x]));
            }
            assert forall|j: int| #[trigger]
                at.contains(j) <==> 0 <= j < n && es[j].parent == Some(idx) && es[j].kind
                    == EntryType::Agent && es[j].goto is Some by {
                if at.contains(j) {
                    let x: int = choose|x: int| 0 <= x < at.len() && at[x] == j;
                    if x < d.len() {
                        assert(d[x] == j);
                    }
                }
                if j == n - 1 {
                    assert(at[d.len() as int] == j);
                }
                if d.contains(j) {
                    let x: int = choose|x: int| 0 <= x < d.len() && d[x] == j;
                    assert(at[x] == j);
                }
            }
            at
        } else {
            d
        }
    }
}

/// The last session to end is the one of the name of the working tree, if its
/// path has a name; its whole session ends.
pub proof fn the_session_of_a_worktree_ends(path: Seq<char>)
    ensures
        file_name(path) is None ==> own_session(path).len() == 0,
        file_name(path) matches Some(n) ==> own_session(path).len() == 1 && own_session(path)[0].1
            is None && own_session(path)[0].0 == session_name(n),
{
}

// ---------------------------------------------------------------------
// Messages
// ---------------------------------------------------------------------
/// A message is added behind those of before, which all stay.
pub proof fn a_message_is_added_last(
    before: Seq<FeedbackEntry>,
    level: FeedbackType,
    message: Seq<char>,
    after: Seq<FeedbackEntry>,
)
    requires
        told(before, level, message, after),
    ensures
        after.len() == before.len() + 1,
        forall|i: int| 0 <= i < before.len() ==> after[i] == #[trigger] before[i],
        after[before.len() as int].level == level,
        after[before.len() as int].message@ == message,
{
    assert forall|i: int| 0 <= i < before.len() implies after[i] == #[trigger] before[i] by {
        assert(after.drop_last()[i] == after[i]);
    }
}

/// A request that is refused with a message changes nothing but the messages.
pub proof fn a_refusal_changes_nothing(
    a: Picker,
    level: FeedbackType,
    message: Seq<char>,
    b: Picker,
)
    requires
        only_told(a, level, message, b),
    ensures
        a == (Picker { feedbacks: a.feedbacks, ..b }),
        b.feedbacks@.len() == a.feedbacks@.len() + 1,
        b.feedbacks@.last().message@ == message,
        b.feedbacks@.last().level == level,
        forall|i: int| 0 <= i < a.feedbacks@.len() ==> b.feedbacks@[i] == #[trigger] a.feedbacks@[i],
{
    a_message_is_added_last(a.feedbacks@, level, message, b.feedbacks@);
}

/// To open an entry changes nothing of it but that it is open.
pub proof fn to_open_changes_nothing_else(e: Entry)
    ensures
        opened(e).is_open,
        e == (Entry { is_open: e.is_open, ..opened(e) }),
{
}

/// Where an entry leads somewhere, that is where the picker goes, whatever was
/// to come before; where it leads nowhere, what was to come stays.
pub proof fn the_new_target_wins(g: Goto, before: Option<Goto>)
    ensures
        target_or(Some(g), before) == Some(g),
        target_or(None, before) == before,
{
}

// ---------------------------------------------------------------------
// The entry of a working tree in the making
// ---------------------------------------------------------------------
/// The entry that stands for a working tree in the making bears the name of its
/// directory, or the branch where that has none, leads into it, and is found by
/// the label of the repository, its own and the branch.
pub proof fn a_placeholder_shows_what_is_made<
    R: Fn(&Vec<Entry>, &String, &Config) -> Vec<usize>,
    H: Fn(&Vec<Entry>, &Vec<usize>) -> usize,
    C: Fn(&Entry) -> String,
>(host: Host<R, H, C>, e: Entry, p: PendingCreate, dir: int)
    requires
        stands_for(host, e, p, dir),
    ensures
        e.kind == EntryType::Worktree,
        e.path@ == p.dest@,
        file_name(p.dest@) matches Some(n) ==> e.label@ == n,
        file_name(p.dest@) is None ==> e.label@ == p.branch@,
        opt_text(e.branch) == Some(p.branch@),
        e.pending,
        !e.is_open,
        !e.is_running,
        e.is_last,
        e.depth == 1,
        e.parent == Some(dir as usize),
        e.ancestors@.len() == 0,
        e.changes is None,
        e.search_text@ == p.dir_label@ + " "@ + e.label@ + " "@ + p.branch@,
        e.search_text_lower@ == lowercase(e.search_text@),
        e.goto is Some,
        (e.goto->0).session@ == e.label@,
        (e.goto->0).path@ == p.dest@,
        (e.goto->0).window is None,
        (e.goto->0).pane is None,
        exists|d: Entry| #[trigger]
            host.connects(d, e.connector) && d.connector@.len() == 0 && d.search_text_lower@.len() == 0
                && e == (Entry {
                connector: e.connector,
                search_text_lower: e.search_text_lower,
                ..d
            }),
{
    let d = choose|d: Entry| #[trigger] host.connects(d, e.connector) && bare_of(d, e);
    assert(host.connects(d, e.connector));
}

/// To make room for one more entry below a directory changes one entry at most:
/// the last one right below it is no longer the last, and is joined to the tree
/// as such.
pub proof fn to_make_room_changes_the_last_child<
    R: Fn(&Vec<Entry>, &String, &Config) -> Vec<usize>,
    H: Fn(&Vec<Entry>, &Vec<usize>) -> usize,
    C: Fn(&Entry) -> String,
>(host: Host<R, H, C>, before: Seq<Entry>, dir: usize, last: int, after: Seq<Entry>)
    requires
        made_room(host, before, last_such(before, child_of(dir as int)), after),
        0 <= last < before.len(),
        before[last].parent == Some(dir),
        before[last].depth == 1,
        forall|i: int|
            last < i < before.len() ==> !(#[trigger] before[i].parent == Some(dir)
                && before[i].depth == 1),
    ensures
        after.len() == before.len(),
        forall|i: int| 0 <= i < before.len() && i != last ==> after[i] == #[trigger] before[i],
        !after[last].is_last,
        before[last] == (Entry {
            is_last: before[last].is_last,
            connector: before[last].connector,
            ..after[last]
        }),
        host.connects(
            Entry { is_last: false, ..before[last] },
            after[last].connector,
        ),
{
    let f = child_of(dir as int);
    assert forall|i: int| last < i < before.len() implies !f(#[trigger] before[i]) by {
        assert(!(before[i].parent == Some(dir) && before[i].depth == 1));
    }
    lemma_last_such_at(before, f, last);
}

/// With nothing right below the directory no entry changes.
pub proof fn without_children_there_is_room<
    R: Fn(&Vec<Entry>, &String, &Config) -> Vec<usize>,
    H: Fn(&Vec<Entry>, &Vec<usize>) -> usize,
    C: Fn(&Entry) -> String,
>(host: Host<R, H, C>, before: Seq<Entry>, dir: usize, after: Seq<Entry>)
    requires
        made_room(host, before, last_such(before, child_of(dir as int)), after),
        forall|i: int|
            0 <= i < before.len() ==> !(#[trigger] before[i].parent == Some(dir)
                && before[i].depth == 1),
    ensures
        after == before,
{
    let f = child_of(dir as int);
    assert forall|i: int| -1 < i < before.len() implies !f(#[trigger] before[i]) by {
        assert(!(before[i].parent == Some(dir) && before[i].depth == 1));
    }
    lemma_last_such_at(before, f, -1);
}

/// The directory at `d` is the first one at that path.
proof fn lemma_first_dir(es: Seq<Entry>, path: Seq<char>, d: int)
    requires
        0 <= d <= es.len(),
        d < es.len() ==> es[d].kind == EntryType::Dir && same_path(es[d].path@, path),
        forall|i: int|
            0 <= i < d ==> !(#[trigger] es[i].kind == EntryType::Dir && same_path(es[i].path@, path)),
    ensures
        first_such(es, dir_at(path)) == d,
{
    let f = dir_at(path);
    assert forall|i: int| 0 <= i < d implies !f(#[trigger] es[i]) by {
        assert(!(es[i].kind == EntryType::Dir && same_path(es[i].path@, path)));
    }
    lemma_first_such_at(es, f, d);
}

/// The entry of a working tree in the making is put in behind all that is below
/// its directory, in front of what is not. What was there stays in its order.
pub proof fn a_placeholder_is_put_behind_the_subtree<
    R: Fn(&Vec<Entry>, &String, &Config) -> Vec<usize>,
    H: Fn(&Vec<Entry>, &Vec<usize>) -> usize,
    C: Fn(&Entry) -> String,
>(host: Host<R, H, C>, a: Picker, p: PendingCreate, b: Picker, d: int) -> (at: int)
    requires
        placeholder_put(host, a, p, b),
        0 <= d < a.entries@.len() <= usize::MAX,
        a.entries@[d].kind == EntryType::Dir,
        same_path(a.entries@[d].path@, p.dir_path@),
        forall|i: int|
            0 <= i < d ==> !(#[trigger] a.entries@[i].kind == EntryType::Dir && same_path(
                a.entries@[i].path@,
                p.dir_path@,
            )),
    ensures
        d < at <= a.entries@.len(),
        forall|i: int|
            d < i < at ==> #[trigger] lies_below(parents(a.entries@), i, d, a.entries@.len()),
        at < a.entries@.len() ==> !lies_below(parents(a.entries@), at, d, a.entries@.len()),
        b.entries@.len() == a.entries@.len() + 1,
        stands_for(host, b.entries@[at], p, d),
        made_room(
            host,
            a.entries@,
            last_such(a.entries@, child_of(d)),
            b.entries@.remove(at),
        ),
        host.lists(b.entries, a.input, a.config, b.filtered),
        b.scroll == revealed(Picker { scroll: a.scroll, ..b }, p.dest@),
        a == (Picker {
            entries: a.entries,
            filtered: a.filtered,
            cursor: a.cursor,
            scroll: a.scroll,
            ..b
        }),
{
    lemma_first_dir(a.entries@, p.dir_path@, d);
    assert(parents(a.entries@).len() == a.entries@.len());
    lemma_subtree_end(parents(a.entries@), d + 1, d);
    new_place(a.entries@, d)
}

/// Where its directory is gone, the working tree is given up and nothing else
/// changes.
pub proof fn without_its_directory_nothing_is_put_in<
    R: Fn(&Vec<Entry>, &String, &Config) -> Vec<usize>,
    H: Fn(&Vec<Entry>, &Vec<usize>) -> usize,
    C: Fn(&Entry) -> String,
>(host: Host<R, H, C>, a: Picker, p: PendingCreate, b: Picker)
    requires
        placeholder_put(host, a, p, b),
        forall|i: int|
            0 <= i < a.entries@.len() ==> !(#[trigger] a.entries@[i].kind == EntryType::Dir
                && same_path(a.entries@[i].path@, p.dir_path@)),
    ensures
        b.pending_create is None,
        a == (Picker { pending_create: a.pending_create, ..b }),
{
    lemma_first_dir(a.entries@, p.dir_path@, a.entries@.len() as int);
}

/// To put in an entry moves the cursor to the first entry that is of the kind of
/// the one it was on and leads to the same place.
pub proof fn a_placeholder_lets_the_cursor_follow<
    R: Fn(&Vec<Entry>, &String, &Config) -> Vec<usize>,
    H: Fn(&Vec<Entry>, &Vec<usize>) -> usize,
    C: Fn(&Entry) -> String,
>(host: Host<R, H, C>, a: Picker, p: PendingCreate, b: Picker, q: int)
    requires
        placeholder_put(host, a, p, b),
        a.wf(),
        exists|d: int|
            0 <= d < a.entries@.len() && #[trigger] a.entries@[d].kind == EntryType::Dir
                && same_path(a.entries@[d].path@, p.dir_path@),
        a.cursor < a.filtered@.len(),
        0 <= q <= b.filtered@.len(),
        q < b.filtered@.len() ==> b.entries@[b.filtered@[q] as int].kind == a.under_cursor().kind
            && same_target(b.entries@[b.filtered@[q] as int].goto, a.under_cursor().goto),
        forall|r: int|
            0 <= r < q ==> !(b.entries@[#[trigger] b.filtered@[r] as int].kind
                == a.under_cursor().kind && same_target(
                b.entries@[b.filtered@[r] as int].goto,
                a.under_cursor().goto,
            )),
    ensures
        q < b.filtered@.len() ==> b.cursor == q,
        q == b.filtered@.len() ==> b.cursor == a.cursor,
{
    let es = a.entries@;
    lemma_first_such(es, dir_at(p.dir_path@));
    let d = choose|d: int|
        0 <= d < es.len() && #[trigger] es[d].kind == EntryType::Dir && same_path(
            es[d].path@,
            p.dir_path@,
        );
    assert(dir_at(p.dir_path@)(es[d]));
    let e = a.under_cursor();
    let f = |i: usize| known_by(e.kind, e.goto)(b.entries@[i as int]);
    lemma_first_such_at(b.filtered@, f, q);
}

// ---------------------------------------------------------------------
// What becomes of a working tree in the making
// ---------------------------------------------------------------------
/// A filter keeps the elements at the places `at`, in their order.
proof fn lemma_filter_places<T>(s: Seq<T>, f: spec_fn(T) -> bool) -> (at: Seq<int>)
    ensures
        forall|x: int, y: int| 0 <= x < y < at.len() ==> at[x] < at[y],
        forall|j: int| #[trigger] at.contains(j) <==> 0 <= j < s.len() && f(s[j]),
        s.filter(f).len() == at.len(),
        forall|x: int| 0 <= x < at.len() ==> #[trigger] s.filter(f)[x] == s[at[x]],
    decreases s.len(),
{
    reveal(Seq::filter);
    if s.len() == 0 {
        Seq::<int>::empty()
    } else {
        let d = lemma_filter_places(s.drop_last(), f);
        let n: int = s.len() - 1;
        let at = if f(s[n]) {
            d.push(n)
        } else {
            d
        };
        assert forall|x: int, y: int| 0 <= x < y < at.len() implies at[x] < at[y] by {
            assert(d.contains(d[x]));
        }
        assert forall|j: int| #[trigger] at.contains(j) <==> 0 <= j < s.len() && f(s[j]) by {
            if at.contains(j) {
                let x: int = choose|x: int| 0 <= x < at.len() && at[x] == j;
                if x < d.len() {
                    assert(d.contains(d[x]));
                }
            }
            if j == n && f(s[n]) {
                assert(at[d.len() as int] == j);
            }
            if d.contains(j) {
                let x: int = choose|x: int| 0 <= x < d.len() && d[x] == j;
                assert(at[x] == j);
            }
        }
        assert forall|x: int| 0 <= x < at.len() implies #[trigger] s.filter(f)[x] == s[at[x]] by {
            if x < d.len() {
                assert(d.contains(d[x]));
            }
        }
        at
    }
}

/// To give up a working tree takes out the entries that are in the making at its
/// path, and no others; those that stay, at the places `at`, keep their order.
/// The reason is the last message, and the list is what the typed text leaves.
/// All else but the cursor stays.
pub proof fn to_give_up_takes_the_placeholders_out<
    R: Fn(&Vec<Entry>, &String, &Config) -> Vec<usize>,
    H: Fn(&Vec<Entry>, &Vec<usize>) -> usize,
    C: Fn(&Entry) -> String,
>(host: Host<R, H, C>, a: Picker, p: PendingCreate, message: Seq<char>, b: Picker) -> (at: Seq<int>)
    requires
        pending_failed(host, a, p, message, b),
    ensures
        forall|x: int, y: int| 0 <= x < y < at.len() ==> at[x] < at[y],
        forall|j: int| #[trigger]
            at.contains(j) <==> 0 <= j < a.entries@.len() && !(a.entries@[j].pending && same_path(
                a.entries@[j].path@,
                p.dest@,
            )),
        b.entries@.len() == at.len(),
        forall|x: int| 0 <= x < at.len() ==> #[trigger] b.entries@[x] == a.entries@[at[x]],
        b.pending_create is None,
        told(a.feedbacks@, FeedbackType::Error, message, b.feedbacks@),
        host.lists(b.entries, a.input, a.config, b.filtered),
        a == (Picker {
            pending_create: a.pending_create,
            entries: a.entries,
            feedbacks: a.feedbacks,
            filtered: a.filtered,
            cursor: a.cursor,
            ..b
        }),
{
    lemma_filter_places(a.entries@, remains(Some(p.dest@)))
}

/// To give up a working tree moves the cursor to the first directory of the list
/// that the working tree was made of; where that is not in the list the cursor
/// stays, or goes to the last entry if the list has become too short.
pub proof fn to_give_up_moves_the_cursor_to_the_directory<
    R: Fn(&Vec<Entry>, &String, &Config) -> Vec<usize>,
    H: Fn(&Vec<Entry>, &Vec<usize>) -> usize,
    C: Fn(&Entry) -> String,
>(host: Host<R, H, C>, a: Picker, p: PendingCreate, message: Seq<char>, b: Picker, q: int)
    requires
        pending_failed(host, a, p, message, b),
        0 <= q <= b.filtered@.len(),
        q < b.filtered@.len() ==> b.entries@[b.filtered@[q] as int].kind == EntryType::Dir
            && same_path(b.entries@[b.filtered@[q] as int].path@, p.dir_path@),
        forall|r: int|
            0 <= r < q ==> !(b.entries@[#[trigger] b.filtered@[r] as int].kind == EntryType::Dir
                && same_path(b.entries@[b.filtered@[r] as int].path@, p.dir_path@)),
    ensures
        q < b.filtered@.len() ==> b.cursor == q,
        q == b.filtered@.len() && a.cursor < q ==> b.cursor == a.cursor,
        q == b.filtered@.len() && a.cursor >= q && q > 0 ==> b.cursor == q - 1,
        q == b.filtered@.len() && q == 0 ==> b.cursor == 0,
{
    let f = |i: usize| dir_at(p.dir_path@)(b.entries@[i as int]);
    lemma_first_such_at(b.filtered@, f, q);
}

/// Once the working tree has arrived, all entries that are in the making are
/// taken out, and no others; those that stay, at the places `at`, keep their
/// order. It is told, and the list is what the typed text leaves.
pub proof fn an_arrival_takes_all_placeholders_out<
    R: Fn(&Vec<Entry>, &String, &Config) -> Vec<usize>,
    H: Fn(&Vec<Entry>, &Vec<usize>) -> usize,
    C: Fn(&Entry) -> String,
>(host: Host<R, H, C>, a: Picker, p: PendingCreate, b: Picker) -> (at: Seq<int>)
    requires
        pending_done(host, a, p, b),
    ensures
        forall|x: int, y: int| 0 <= x < y < at.len() ==> at[x] < at[y],
        forall|j: int| #[trigger]
            at.contains(j) <==> 0 <= j < a.entries@.len() && !a.entries@[j].pending,
        b.entries@.len() == at.len(),
        forall|x: int| 0 <= x < at.len() ==> #[trigger] b.entries@[x] == a.entries@[at[x]],
        b.pending_create is None,
        told(
            a.feedbacks@,
            FeedbackType::Warning,
            "✓ worktree '"@ + p.branch@ + "' created"@,
            b.feedbacks@,
        ),
        host.lists(b.entries, a.input, a.config, b.filtered),
        a == (Picker {
            pending_create: a.pending_create,
            entries: a.entries,
            feedbacks: a.feedbacks,
            filtered: a.filtered,
            scroll: a.scroll,
            pending_goto: a.pending_goto,
            ..b
        }),
{
    lemma_filter_places(a.entries@, remains(None))
}

/// The picker goes to the working tree that has arrived: the first of the list
/// at its path, which is scrolled to. Where it is not in the list, or leads
/// nowhere, the picker goes nowhere on its account.
pub proof fn an_arrival_leads_into_the_worktree<
    R: Fn(&Vec<Entry>, &String, &Config) -> Vec<usize>,
    H: Fn(&Vec<Entry>, &Vec<usize>) -> usize,
    C: Fn(&Entry) -> String,
>(host: Host<R, H, C>, a: Picker, p: PendingCreate, b: Picker, q: int)
    requires
        pending_done(host, a, p, b),
        0 <= q <= b.filtered@.len(),
        q < b.filtered@.len() ==> b.entries@[b.filtered@[q] as int].kind == EntryType::Worktree
            && same_path(b.entries@[b.filtered@[q] as int].path@, p.dest@),
        forall|r: int|
            0 <= r < q ==> !(b.entries@[#[trigger] b.filtered@[r] as int].kind
                == EntryType::Worktree && same_path(
                b.entries@[b.filtered@[r] as int].path@,
                p.dest@,
            )),
    ensures
        q < b.filtered@.len() && b.entries@[b.filtered@[q] as int].goto is Some
            ==> b.pending_goto == b.entries@[b.filtered@[q] as int].goto,
        q < b.filtered@.len() && b.entries@[b.filtered@[q] as int].goto is None
            ==> b.pending_goto == a.pending_goto,
        q < b.filtered@.len() ==> b.scroll == revealed(
            Picker { scroll: a.scroll, ..b },
            p.dest@,
        ),
        q == b.filtered@.len() ==> b.pending_goto == a.pending_goto && b.scroll == a.scroll,
{
    let f = |i: usize| tree_at(p.dest@)(b.entries@[i as int]);
    lemma_first_such_at(b.filtered@, f, q);
}

/// What the picker does about a working tree in the making. One that has been in
/// the making for more than a minute is given up. One that has an entry of its
/// own, which is not in the making, has arrived. As long as its entry is there
/// nothing is done, and where it is not it is put in. With nothing in the making
/// nothing is done.
pub proof fn a_worktree_in_the_making_is_looked_after<
    R: Fn(&Vec<Entry>, &String, &Config) -> Vec<usize>,
    H: Fn(&Vec<Entry>, &Vec<usize>) -> usize,
    C: Fn(&Entry) -> String,
>(host: Host<R, H, C>, a: Picker, now: u64, b: Picker)
    requires
        reconciled(host, a, now, b),
    ensures
        a.pending_create is None ==> b == a,
        a.pending_create matches Some(p) ==> {
            let late = now - p.started > 60_000_000_000;
            let there = exists|i: int|
                0 <= i < a.entries@.len() && (#[trigger] a.entries@[i]).kind == EntryType::Worktree
                    && !a.entries@[i].pending && same_path(a.entries@[i].path@, p.dest@);
            let placed = exists|i: int|
                0 <= i < a.entries@.len() && (#[trigger] a.entries@[i]).pending && same_path(
                    a.entries@[i].path@,
                    p.dest@,
                );
            &&& late ==> pending_failed(
                host,
                a,
                p,
                "timed out creating worktree '"@ + p.branch@ + "' — check `git worktree list`"@,
                b,
            )
            &&& !late && there ==> pending_done(host, a, p, b)
            &&& !late && !there && placed ==> b == a
            &&& !late && !there && !placed ==> placeholder_put(host, a, p, b)
        },
{
    if a.pending_create is Some {
        let p = a.pending_create->0;
        let es = a.entries@;
        if arrived(es, p.dest@) {
            let i: int = choose|i: int|
                0 <= i < es.len() && tree_at(p.dest@)(#[trigger] es[i]) && !es[i].pending;
            assert(es[i].kind == EntryType::Worktree);
        }
        if exists|i: int|
            0 <= i < es.len() && (#[trigger] es[i]).kind == EntryType::Worktree && !es[i].pending
                && same_path(es[i].path@, p.dest@) {
            let i: int = choose|i: int|
                0 <= i < es.len() && (#[trigger] es[i]).kind == EntryType::Worktree
                    && !es[i].pending && same_path(es[i].path@, p.dest@);
            assert(tree_at(p.dest@)(es[i]));
        }
        if has_placeholder(es, p.dest@) {
            let i: int = choose|i: int|
                0 <= i < es.len() && !remains(Some(p.dest@))(#[trigger] es[i]);
            assert(es[i].pending);
        }
        if exists|i: int|
            0 <= i < es.len() && (#[trigger] es[i]).pending && same_path(es[i].path@, p.dest@) {
            let i: int = choose|i: int|
                0 <= i < es.len() && (#[trigger] es[i]).pending && same_path(es[i].path@, p.dest@);
            assert(!remains(Some(p.dest@))(es[i]));
        }
    }
}

/// What the picker does when it learns what came of an addition. One that failed
/// is given up, with what git says, if it is the one in the making; one that was
/// made calls for a new list, if it is the one in the making, and changes
/// nothing yet. Any other is ignored.
pub proof fn the_outcome_of_an_addition_counts<
    R: Fn(&Vec<Entry>, &String, &Config) -> Vec<usize>,
    H: Fn(&Vec<Entry>, &Vec<usize>) -> usize,
    C: Fn(&Entry) -> String,
>(host: Host<R, H, C>, a: Picker, dest: String, msg: String, b: Picker)
    ensures
        op_handled(host, a, OpResult::Created { dest }, b) ==> b == a,
        calls_for_refresh(a, OpResult::Created { dest }) <==> a.pending_create is Some && same_path(
            (a.pending_create->0).dest@,
            dest@,
        ),
        !calls_for_refresh(a, OpResult::Failed { dest, msg }),
        op_handled(host, a, OpResult::Failed { dest, msg }, b) && a.pending_create is Some
            && same_path((a.pending_create->0).dest@, dest@) ==> pending_failed(
            host,
            a,
            a.pending_create->0,
            "cannot create worktree '"@ + (a.pending_create->0).branch@ + "': "@ + msg@,
            b,
        ),
        op_handled(host, a, OpResult::Failed { dest, msg }, b) && !(a.pending_create is Some
            && same_path((a.pending_create->0).dest@, dest@)) ==> b == a,
{
}

/// A working tree that was begun is in the making from now on, under the branch
/// and at the path of the plan, and of the directory it was asked for. The
/// picker is in its normal mode, and nothing else changes but the list and what
/// is shown of it.
pub proof fn a_creation_is_in_the_making<
    R: Fn(&Vec<Entry>, &String, &Config) -> Vec<usize>,
    H: Fn(&Vec<Entry>, &Vec<usize>) -> usize,
    C: Fn(&Entry) -> String,
>(host: Host<R, H, C>, a: Picker, origin: Entry, now: u64, plan: CreatePlan, b: Picker)
    requires
        creation_begun(host, a, origin, now, plan, b),
    ensures
        plan.repo@ == origin.path@,
        b.pending_create is Some,
        (b.pending_create->0).dest@ == plan.dest@,
        (b.pending_create->0).branch@ == plan.branch@,
        (b.pending_create->0).dir_path@ == origin.path@,
        (b.pending_create->0).dir_label@ == origin.label@,
        (b.pending_create->0).started == now,
        b.mode == Mode::Normal,
        a == (Picker {
            pending_create: a.pending_create,
            mode: a.mode,
            entries: a.entries,
            filtered: a.filtered,
            cursor: a.cursor,
            scroll: a.scroll,
            ..b
        }),
        placeholder_put(
            host,
            Picker { pending_create: b.pending_create, ..a },
            b.pending_create->0,
            Picker { mode: a.mode, ..b },
        ),
{
}

/// What is to end is handed out one by one: each session with its window.
pub proof fn each_kill_is_handed_out(ks: Seq<Kill>, i: int)
    requires
        0 <= i < ks.len(),
    ensures
        kill_views(ks).len() == ks.len(),
        kill_views(ks)[i].0 == ks[i].session@,
        kill_views(ks)[i].1 == ks[i].window,
{
}

} // verus!
