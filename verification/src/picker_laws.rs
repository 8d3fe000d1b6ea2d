//! What holds of the picker as a whole.

use crate::model::{same_target, Action, Config, Entry, EntryType, Goto, Payload};
use crate::path::same_path;
use crate::picker::{
    at_path, buttons_at_cursor, buttons_of, captions, cursor_key, known_by, lemma_rows, listed_at,
    payload_taken, revealed, row_at, rows_upto, Host, Mode, OpResult, PendingCreate, Picker, Signal,
};
use crate::help::key_of;
use crate::picker_help::{
    edit_begun, edit_left, help_clamped, help_entered, help_filter, help_left, help_places,
    value_to_edit,
};
use crate::picker_tree::{
    calls_for_refresh, child_of, creation_begun, dir_at, has_placeholder, is_overdue,
    lemma_subtree_end, lies_below, made_room, new_place, on_way, op_handled, parents, pending_done,
    pending_failed, placeholder_put, reconciled, remains, session_name, stands_for, way_ends,
    CreatePlan,
};
use crate::search::{first_such, last_such, lemma_first_such, lemma_first_such_at};
use crate::text::{texts, uppercase};
use crate::tick::{ops_run, payloads_run, refreshes, signal_of, spun, ticked};
use vstd::prelude::*;
use vstd::utf8::encode_utf8;

verus! {

// ---------------------------------------------------------------------
// Rows
// ---------------------------------------------------------------------
/// With no gap the rows are the list.
pub proof fn rows_without_gap_are_the_list(entries: Seq<Entry>, filtered: Seq<usize>, n: int)
    requires
        0 <= n <= filtered.len() <= usize::MAX,
    ensures
        rows_upto(entries, filtered, 0, n) == Seq::new(n as nat, |i: int| Some(i as usize)),
    decreases n,
{
    if n > 0 {
        rows_without_gap_are_the_list(entries, filtered, n - 1);
    }
    assert(rows_upto(entries, filtered, 0, n) =~= Seq::new(n as nat, |i: int| Some(i as usize)));
}

/// The first row is that of the first entry. An agent follows the entry above
/// it at once; above any other entry there is the gap.
pub proof fn gaps_are_above_all_but_agents(
    entries: Seq<Entry>,
    filtered: Seq<usize>,
    gap: usize,
    p: int,
)
    requires
        0 <= p < filtered.len() <= usize::MAX,
    ensures
        row_at(entries, filtered, gap, 0) == 0,
        p > 0 ==> row_at(entries, filtered, gap, p) == row_at(entries, filtered, gap, p - 1) + 1
            + if entries[filtered[p] as int].kind == EntryType::Agent {
            0
        } else {
            gap as int
        },
{
    assert(rows_upto(entries, filtered, gap, 0).len() == 0);
    assert(rows_upto(entries, filtered, gap, 1).len() == 1);
}

/// What is scrolled to is in view.
pub proof fn revealed_row_is_in_view(p: Picker, dest: Seq<char>)
    requires
        p.wf(),
        p.slot_entries.height > 0,
        p.cursor < p.filtered@.len() <= usize::MAX,
        listed_at(p.entries@, p.filtered@, at_path(dest)) < p.filtered@.len(),
        rows_upto(
            p.entries@,
            p.filtered@,
            p.config.style_entries_gap as usize,
            p.filtered@.len() as int,
        ).len() <= usize::MAX,
    ensures
        ({
            let at = listed_at(p.entries@, p.filtered@, at_path(dest));
            let row = row_at(
                p.entries@,
                p.filtered@,
                p.config.style_entries_gap as usize,
                at,
            );
            revealed(p, dest) <= row < revealed(p, dest) + p.slot_entries.height
        }),
{
    let f = |i: usize| at_path(dest)(p.entries@[i as int]);
    lemma_first_such(p.filtered@, f);
    lemma_rows(
        p.entries@,
        p.filtered@,
        p.config.style_entries_gap as usize,
        p.filtered@.len() as int,
    );
}

// ---------------------------------------------------------------------
// The cursor
// ---------------------------------------------------------------------
/// Once the user has moved or typed, what the daemon sends leaves the cursor on
/// its entry, wherever that is in the new list.
pub proof fn cursor_stays_on_its_entry<
    R: Fn(&Vec<Entry>, &String, &Config) -> Vec<usize>,
    H: Fn(&Vec<Entry>, &Vec<usize>) -> usize,
    C: Fn(&Entry) -> String,
>(host: Host<R, H, C>, a: Picker, payload: Payload, b: Picker, q: int)
    requires
        payload_taken(host, a, payload, b),
        b.wf(),
        a.config.path@ == payload.config.path@,
        a.config.path_worktrees@ == payload.config.path_worktrees@,
        a.touched || a.input@.len() > 0,
        cursor_key(a) is Some,
        0 <= q < b.filtered@.len(),
        known_by((cursor_key(a)->0).0, (cursor_key(a)->0).1)(
            b.entries@[b.filtered@[q] as int],
        ),
    ensures
        b.cursor < b.filtered@.len(),
        b.under_cursor().kind == (cursor_key(a)->0).0,
        same_target(b.under_cursor().goto, (cursor_key(a)->0).1),
{
    let k = cursor_key(a)->0;
    let f = |i: usize| known_by(k.0, k.1)(b.entries@[i as int]);
    lemma_first_such(b.filtered@, f);
    assert(f(b.filtered@[q]));
}

/// What the daemon sends leaves the cursor in the list, once the user has moved
/// or typed.
pub proof fn cursor_stays_in_the_list<
    R: Fn(&Vec<Entry>, &String, &Config) -> Vec<usize>,
    H: Fn(&Vec<Entry>, &Vec<usize>) -> usize,
    C: Fn(&Entry) -> String,
>(host: Host<R, H, C>, a: Picker, payload: Payload, b: Picker)
    requires
        payload_taken(host, a, payload, b),
        a.config.path@ == payload.config.path@,
        a.config.path_worktrees@ == payload.config.path_worktrees@,
        a.touched || a.input@.len() > 0,
    ensures
        b.cursor < b.filtered@.len() || (b.filtered@.len() == 0 && b.cursor == 0),
{
    if cursor_key(a) is Some {
        let k = cursor_key(a)->0;
        lemma_first_such(b.filtered@, |i: usize| known_by(k.0, k.1)(b.entries@[i as int]));
    }
}

/// Once the user has moved or typed, and the entry under the cursor is no longer
/// in the list, the cursor stays where it is, or goes to the last entry if the
/// list has become too short.
pub proof fn a_lost_entry_leaves_the_cursor<
    R: Fn(&Vec<Entry>, &String, &Config) -> Vec<usize>,
    H: Fn(&Vec<Entry>, &Vec<usize>) -> usize,
    C: Fn(&Entry) -> String,
>(host: Host<R, H, C>, a: Picker, payload: Payload, b: Picker)
    requires
        payload_taken(host, a, payload, b),
        a.wf(),
        a.config.path@ == payload.config.path@,
        a.config.path_worktrees@ == payload.config.path_worktrees@,
        a.touched || a.input@.len() > 0,
        a.cursor < a.filtered@.len() ==> forall|q: int|
            0 <= q < b.filtered@.len() ==> !(b.entries@[#[trigger] b.filtered@[q] as int].kind
                == a.under_cursor().kind && same_target(
                b.entries@[b.filtered@[q] as int].goto,
                a.under_cursor().goto,
            )),
    ensures
        a.cursor < b.filtered@.len() ==> b.cursor == a.cursor,
        a.cursor >= b.filtered@.len() > 0 ==> b.cursor == b.filtered@.len() - 1,
        b.filtered@.len() == 0 ==> b.cursor == 0,
{
    if a.cursor < a.filtered@.len() {
        let e = a.under_cursor();
        let f = |i: usize| known_by(e.kind, e.goto)(b.entries@[i as int]);
        lemma_first_such_at(b.filtered@, f, b.filtered@.len() as int);
    }
}

/// Once the user has moved or typed, the cursor goes to the first entry of the
/// new list that is of the same kind and leads to the same place as the one it
/// was on.
pub proof fn the_cursor_goes_to_the_first_match<
    R: Fn(&Vec<Entry>, &String, &Config) -> Vec<usize>,
    H: Fn(&Vec<Entry>, &Vec<usize>) -> usize,
    C: Fn(&Entry) -> String,
>(host: Host<R, H, C>, a: Picker, payload: Payload, b: Picker, q: int)
    requires
        payload_taken(host, a, payload, b),
        a.wf(),
        a.config.path@ == payload.config.path@,
        a.config.path_worktrees@ == payload.config.path_worktrees@,
        a.touched || a.input@.len() > 0,
        a.cursor < a.filtered@.len(),
        0 <= q < b.filtered@.len(),
        b.entries@[b.filtered@[q] as int].kind == a.under_cursor().kind,
        same_target(b.entries@[b.filtered@[q] as int].goto, a.under_cursor().goto),
        forall|r: int|
            0 <= r < q ==> !(b.entries@[#[trigger] b.filtered@[r] as int].kind
                == a.under_cursor().kind && same_target(
                b.entries@[b.filtered@[r] as int].goto,
                a.under_cursor().goto,
            )),
    ensures
        b.cursor == q,
{
    let e = a.under_cursor();
    let f = |i: usize| known_by(e.kind, e.goto)(b.entries@[i as int]);
    lemma_first_such_at(b.filtered@, f, q);
}

/// As long as the user has neither moved nor typed, and where the directories of
/// the settings are others, the cursor goes to its first place.
pub proof fn an_untouched_cursor_goes_home<
    R: Fn(&Vec<Entry>, &String, &Config) -> Vec<usize>,
    H: Fn(&Vec<Entry>, &Vec<usize>) -> usize,
    C: Fn(&Entry) -> String,
>(host: Host<R, H, C>, a: Picker, payload: Payload, b: Picker)
    requires
        payload_taken(host, a, payload, b),
        (!a.touched && a.input@.len() == 0) || a.config.path@ != payload.config.path@
            || a.config.path_worktrees@ != payload.config.path_worktrees@,
    ensures
        host.homes(payload.entries, b.filtered, b.cursor),
{
}

/// What the daemon sent is what the picker shows: its entries, messages and
/// settings, and as many entries found as it says, but no fewer than there are.
/// The list is what the typed text leaves of them, also behind the help. All
/// else stays.
pub proof fn what_is_sent_is_shown<
    R: Fn(&Vec<Entry>, &String, &Config) -> Vec<usize>,
    H: Fn(&Vec<Entry>, &Vec<usize>) -> usize,
    C: Fn(&Entry) -> String,
>(host: Host<R, H, C>, a: Picker, payload: Payload, b: Picker)
    requires
        payload_taken(host, a, payload, b),
        payload.entries@.len() <= usize::MAX,
    ensures
        b.entries == payload.entries,
        b.feedbacks == payload.feedbacks,
        b.config == payload.config,
        b.auto_close == payload.config.auto_close,
        b.entries_found >= payload.entries_found,
        b.entries_found >= payload.entries@.len(),
        b.entries_found == payload.entries_found || b.entries_found == payload.entries@.len(),
        a.mode == Mode::Normal || a.mode == Mode::Command ==> host.lists(
            payload.entries,
            a.input,
            payload.config,
            b.filtered,
        ),
        a.mode == Mode::Help || a.mode == Mode::HelpEditing ==> host.lists(
            payload.entries,
            a.stashed_input,
            payload.config,
            b.filtered,
        ),
        a == (Picker {
            entries: a.entries,
            feedbacks: a.feedbacks,
            config: a.config,
            auto_close: a.auto_close,
            entries_found: a.entries_found,
            filtered: a.filtered,
            cursor: a.cursor,
            ..b
        }),
{
}

/// Two targets are the same place exactly if their sessions, windows and panes
/// are the same and their paths are; an absent one is the same as an absent one
/// only.
pub proof fn targets_are_told_apart(x: Goto, y: Goto)
    ensures
        same_target(None, None),
        !same_target(Some(x), None),
        !same_target(None, Some(y)),
        same_target(Some(x), Some(y)) <==> x.session@ == y.session@ && same_path(x.path@, y.path@)
            && x.window == y.window && (x.pane is Some <==> y.pane is Some) && (x.pane is Some
            && y.pane is Some ==> (x.pane->0)@ == (y.pane->0)@),
{
}

// ---------------------------------------------------------------------
// The help
// ---------------------------------------------------------------------
/// To show the help and leave it gives back the typed text and its cursor, and
/// filters the entries of before by that text.
pub proof fn help_gives_the_input_back<
    R: Fn(&Vec<Entry>, &String, &Config) -> Vec<usize>,
    H: Fn(&Vec<Entry>, &Vec<usize>) -> usize,
    C: Fn(&Entry) -> String,
>(host: Host<R, H, C>, a: Picker, b: Picker, c: Picker)
    requires
        !a.in_help(),
        help_entered(a, b),
        help_left(host, b, c),
    ensures
        b.in_help(),
        c == (Picker {
            mode: Mode::Normal,
            stashed_input: a.input,
            stashed_cursor: a.input_cursor,
            help_cursor: 0,
            help_scroll: 0,
            help_edit: None,
            mouse_hover: false,
            filtered: c.filtered,
            ..a
        }),
        host.lists(a.entries, a.input, a.config, c.filtered),
{
}

/// To begin an edit and give it up changes nothing but that the cursor of the
/// help is within the settings.
pub proof fn cancelled_edit_changes_nothing(a: Picker, raw: Map<Seq<char>, Seq<char>>, b: Picker)
    requires
        a.mode == Mode::Help,
        a.help_edit is None,
        edit_begun(a, raw, b),
    ensures
        b.mode == Mode::HelpEditing,
        help_filter(b) == help_filter(a),
        edit_left(b) == help_clamped(a),
        a.help_cursor < help_places(help_filter(a), texts(a.template@)).len() ==> edit_left(b) == a,
{
}

/// The settings are filtered by the typed text; while one is edited, by the text
/// that was typed before.
pub proof fn the_filter_waits_for_the_editing(p: Picker)
    ensures
        p.help_edit is None ==> help_filter(p) == p.input@,
        p.help_edit matches Some(edit) ==> help_filter(p) == edit.saved_filter@,
{
}

/// The cursor of the help stays where it is among the settings, goes to the last
/// one if it is behind that, and to the start if there are none. Nothing else
/// changes.
pub proof fn the_cursor_of_the_help_stays_among_the_settings(p: Picker)
    ensures
        ({
            let n = help_places(help_filter(p), texts(p.template@)).len();
            let q = help_clamped(p);
            &&& p.help_cursor < n ==> q == p
            &&& p.help_cursor >= n > 0 ==> q.help_cursor == n - 1 && q.help_scroll == p.help_scroll
            &&& n == 0 ==> q.help_cursor == 0 && q.help_scroll == 0
            &&& p == (Picker { help_cursor: p.help_cursor, help_scroll: p.help_scroll, ..q })
        }),
{
}

/// To show the help empties the typed text, which is put aside with its cursor,
/// and starts at the first setting. Nothing else changes.
pub proof fn the_help_puts_the_input_aside(a: Picker, b: Picker)
    requires
        help_entered(a, b),
    ensures
        b.mode == Mode::Help,
        b.input@.len() == 0,
        b.input_cursor == 0,
        b.stashed_input == a.input,
        b.stashed_cursor == a.input_cursor,
        b.help_cursor == 0,
        b.help_scroll == 0,
        b.help_edit is None,
        !b.mouse_hover,
        a == (Picker {
            mode: a.mode,
            input: a.input,
            input_cursor: a.input_cursor,
            stashed_input: a.stashed_input,
            stashed_cursor: a.stashed_cursor,
            help_cursor: a.help_cursor,
            help_scroll: a.help_scroll,
            help_edit: a.help_edit,
            mouse_hover: a.mouse_hover,
            ..b
        }),
{
}

/// What is edited is the setting under the cursor of the help, or the last one
/// if the cursor is behind it. The text to edit is its value, with the cursor at
/// the end, and the filter is put aside.
pub proof fn the_setting_under_the_cursor_is_edited(
    a: Picker,
    raw: Map<Seq<char>, Seq<char>>,
    b: Picker,
)
    requires
        edit_begun(a, raw, b),
    ensures
        ({
            let at = help_places(help_filter(a), texts(a.template@));
            let i = if a.help_cursor < at.len() {
                at[a.help_cursor as int]
            } else {
                at[at.len() - 1]
            };
            let key = key_of(texts(a.template@)[i as int]);
            &&& b.mode == Mode::HelpEditing
            &&& b.help_edit is Some
            &&& key == Some((b.help_edit->0).key@)
            &&& (b.help_edit->0).saved_filter == a.input
            &&& (b.help_edit->0).saved_cursor == a.input_cursor
            &&& b.input@ == value_to_edit(key->0, a.config.values@, raw)
            &&& b.input_cursor == encode_utf8(b.input@).len() as usize
            &&& a == (Picker {
                mode: a.mode,
                help_edit: a.help_edit,
                input: a.input,
                input_cursor: a.input_cursor,
                ..b
            })
        }),
{
}

/// When an editing is over, the filter of before is back with its cursor, the
/// help is shown, and its cursor is among the settings. Nothing else changes.
pub proof fn the_filter_is_back_after_the_editing(p: Picker)
    ensures
        edit_left(p).mode == Mode::Help,
        edit_left(p).help_edit is None,
        p.help_edit matches Some(edit) ==> edit_left(p).input == edit.saved_filter && edit_left(
            p,
        ).input_cursor == edit.saved_cursor,
        p.help_edit is None ==> edit_left(p).input == p.input && edit_left(p).input_cursor
            == p.input_cursor,
        edit_left(p) == help_clamped(
            Picker {
                mode: Mode::Help,
                help_edit: None,
                input: edit_left(p).input,
                input_cursor: edit_left(p).input_cursor,
                ..p
            },
        ),
{
}

/// A move of the cursor of the help and the move back cancel out, and no move
/// leaves the settings.
pub proof fn help_moves_cancel_out(cursor: int, amount: int, n: int)
    requires
        0 <= cursor < n,
    ensures
        0 <= (cursor + amount) % n < n,
        ((cursor + amount) % n - amount) % n == cursor,
{
    let c = cursor + amount;
    assert(0 <= c % n < n) by (nonlinear_arith)
        requires
            n > 0,
    ;
    let q = c / n;
    assert(c == n * q + c % n) by (nonlinear_arith)
        requires
            n > 0,
            q == c / n,
    ;
    assert((cursor + n * (-q)) % n == cursor) by {
        vstd::arithmetic::div_mod::lemma_mod_multiples_vanish(-q, cursor, n);
        vstd::arithmetic::div_mod::lemma_small_mod(cursor as nat, n as nat);
    }
    assert(c % n - amount == cursor + n * (-q)) by (nonlinear_arith)
        requires
            c == n * q + c % n,
            c == cursor + amount,
    ;
}

// ---------------------------------------------------------------------
// A working tree in the making
// ---------------------------------------------------------------------
proof fn lemma_filter_all<T>(s: Seq<T>, f: spec_fn(T) -> bool)
    requires
        forall|i: int| 0 <= i < s.len() ==> f(#[trigger] s[i]),
    ensures
        s.filter(f) == s,
    decreases s.len(),
{
    reveal(Seq::filter);
    if s.len() > 0 {
        let d = s.drop_last();
        assert forall|i: int| 0 <= i < d.len() implies f(#[trigger] d[i]) by {
            assert(d[i] == s[i]);
        }
        lemma_filter_all(d, f);
        assert(f(s[s.len() - 1]));
        assert(d.push(s.last()) =~= s);
    } else {
        assert(s.filter(f) =~= s);
    }
}

proof fn lemma_filter_but_one<T>(s: Seq<T>, f: spec_fn(T) -> bool, at: int)
    requires
        0 <= at < s.len(),
        !f(s[at]),
        forall|i: int| 0 <= i < s.len() && i != at ==> f(#[trigger] s[i]),
    ensures
        s.filter(f) == s.remove(at),
    decreases s.len(),
{
    reveal(Seq::filter);
    let d = s.drop_last();
    if at == s.len() - 1 {
        assert forall|i: int| 0 <= i < d.len() implies f(#[trigger] d[i]) by {
            assert(d[i] == s[i]);
        }
        lemma_filter_all(d, f);
        assert(s.remove(at) =~= d);
    } else {
        assert(d[at] == s[at]);
        assert forall|i: int| 0 <= i < d.len() && i != at implies f(#[trigger] d[i]) by {
            assert(d[i] == s[i]);
        }
        lemma_filter_but_one(d, f, at);
        assert(f(s[s.len() - 1]));
        assert(d.remove(at).push(s.last()) =~= s.remove(at));
    }
}

proof fn lemma_filtered_out<T>(s: Seq<T>, f: spec_fn(T) -> bool)
    ensures
        forall|i: int| 0 <= i < s.filter(f).len() ==> f(#[trigger] s.filter(f)[i]),
    decreases s.len(),
{
    reveal(Seq::filter);
    if s.len() > 0 {
        lemma_filtered_out(s.drop_last(), f);
    }
}

/// The entry of a working tree in the making is below its directory, behind all
/// that was below it, and stands for the working tree.
pub proof fn placeholder_is_last_below_its_directory<
    R: Fn(&Vec<Entry>, &String, &Config) -> Vec<usize>,
    H: Fn(&Vec<Entry>, &Vec<usize>) -> usize,
    C: Fn(&Entry) -> String,
>(host: Host<R, H, C>, a: Picker, p: PendingCreate, b: Picker)
    requires
        placeholder_put(host, a, p, b),
        first_such(a.entries@, dir_at(p.dir_path@)) < a.entries@.len(),
    ensures
        ({
            let dir = first_such(a.entries@, dir_at(p.dir_path@));
            let at = new_place(a.entries@, dir);
            &&& dir < at < b.entries@.len()
            &&& stands_for(host, b.entries@[at], p, dir)
            &&& forall|i: int|
                dir < i < at ==> #[trigger] lies_below(
                    parents(a.entries@),
                    i,
                    dir,
                    a.entries@.len(),
                )
        }),
        has_placeholder(b.entries@, p.dest@),
{
    let es = a.entries@;
    let dir = first_such(es, dir_at(p.dir_path@));
    lemma_first_such(es, dir_at(p.dir_path@));
    lemma_subtree_end(parents(es), dir + 1, dir);
    let at = new_place(es, dir);
    assert(parents(es).len() == es.len());
    assert(!remains(Some(p.dest@))(b.entries@[at]));
}

/// To put in the entry of a working tree in the making leaves the cursor on its
/// entry, if that is still in the list.
pub proof fn placeholder_leaves_the_cursor<
    R: Fn(&Vec<Entry>, &String, &Config) -> Vec<usize>,
    H: Fn(&Vec<Entry>, &Vec<usize>) -> usize,
    C: Fn(&Entry) -> String,
>(host: Host<R, H, C>, a: Picker, p: PendingCreate, b: Picker, q: int)
    requires
        placeholder_put(host, a, p, b),
        first_such(a.entries@, dir_at(p.dir_path@)) < a.entries@.len(),
        cursor_key(a) is Some,
        0 <= q < b.filtered@.len(),
        known_by((cursor_key(a)->0).0, (cursor_key(a)->0).1)(
            b.entries@[b.filtered@[q] as int],
        ),
    ensures
        b.cursor < b.filtered@.len(),
        b.under_cursor().kind == (cursor_key(a)->0).0,
        same_target(b.under_cursor().goto, (cursor_key(a)->0).1),
{
    let k = cursor_key(a)->0;
    let f = |i: usize| known_by(k.0, k.1)(b.entries@[i as int]);
    lemma_first_such(b.filtered@, f);
    assert(f(b.filtered@[q]));
}

/// To give up a working tree takes its entry out again: what is left are the
/// entries of before, but that the last one below the directory is still joined
/// to the tree as if another followed it.
pub proof fn failure_takes_the_placeholder_out<
    R: Fn(&Vec<Entry>, &String, &Config) -> Vec<usize>,
    H: Fn(&Vec<Entry>, &Vec<usize>) -> usize,
    C: Fn(&Entry) -> String,
>(host: Host<R, H, C>, a: Picker, p: PendingCreate, b: Picker, message: Seq<char>, c: Picker)
    requires
        !has_placeholder(a.entries@, p.dest@),
        first_such(a.entries@, dir_at(p.dir_path@)) < a.entries@.len(),
        placeholder_put(host, a, p, b),
        pending_failed(host, b, p, message, c),
    ensures
        c.entries@.len() == a.entries@.len(),
        made_room(
            host,
            a.entries@,
            last_such(
                a.entries@,
                child_of(first_such(a.entries@, dir_at(p.dir_path@))),
            ),
            c.entries@,
        ),
{
    let es = a.entries@;
    let dir = first_such(es, dir_at(p.dir_path@));
    let at = new_place(es, dir);
    let f = remains(Some(p.dest@));
    lemma_first_such(es, dir_at(p.dir_path@));
    placeholder_is_last_below_its_directory(host, a, p, b);
    let room = b.entries@.remove(at);
    assert forall|i: int| 0 <= i < room.len() implies f(#[trigger] room[i]) by {
        assert(f(es[i]));
    }
    assert forall|i: int| 0 <= i < b.entries@.len() && i != at implies f(
        #[trigger] b.entries@[i],
    ) by {
        if i < at {
            assert(room[i] == b.entries@[i]);
        } else {
            assert(room[i - 1] == b.entries@[i]);
        }
    }
    lemma_filter_but_one(b.entries@, f, at);
}

/// After a working tree is given up, nothing in the list is in the making at
/// its path.
pub proof fn failure_leaves_no_placeholder<
    R: Fn(&Vec<Entry>, &String, &Config) -> Vec<usize>,
    H: Fn(&Vec<Entry>, &Vec<usize>) -> usize,
    C: Fn(&Entry) -> String,
>(host: Host<R, H, C>, a: Picker, p: PendingCreate, message: Seq<char>, b: Picker)
    requires
        pending_failed(host, a, p, message, b),
    ensures
        b.pending_create is None,
        !has_placeholder(b.entries@, p.dest@),
{
    lemma_filtered_out(a.entries@, remains(Some(p.dest@)));
}

/// After a working tree is given up, the cursor is on its directory, if that is
/// in the list.
pub proof fn failure_moves_the_cursor_to_the_directory<
    R: Fn(&Vec<Entry>, &String, &Config) -> Vec<usize>,
    H: Fn(&Vec<Entry>, &Vec<usize>) -> usize,
    C: Fn(&Entry) -> String,
>(host: Host<R, H, C>, a: Picker, p: PendingCreate, message: Seq<char>, b: Picker, q: int)
    requires
        pending_failed(host, a, p, message, b),
        0 <= q < b.filtered@.len(),
        dir_at(p.dir_path@)(b.entries@[b.filtered@[q] as int]),
    ensures
        b.cursor < b.filtered@.len(),
        b.under_cursor().kind == EntryType::Dir,
        same_path(b.under_cursor().path@, p.dir_path@),
{
    let f = |i: usize| dir_at(p.dir_path@)(b.entries@[i as int]);
    lemma_first_such(b.filtered@, f);
    assert(f(b.filtered@[q]));
}

/// No working tree stays in the making for longer than it may: the next look at
/// it gives it up.
pub proof fn no_making_lasts_for_ever<
    R: Fn(&Vec<Entry>, &String, &Config) -> Vec<usize>,
    H: Fn(&Vec<Entry>, &Vec<usize>) -> usize,
    C: Fn(&Entry) -> String,
>(host: Host<R, H, C>, a: Picker, now: u64, b: Picker)
    requires
        reconciled(host, a, now, b),
        a.pending_create is Some,
        is_overdue(a.pending_create->0, now),
    ensures
        b.pending_create is None,
        !has_placeholder(b.entries@, (a.pending_create->0).dest@),
{
    lemma_filtered_out(a.entries@, remains(Some((a.pending_create->0).dest@)));
}

/// Whatever the daemon sent, a working tree that is still in the making after
/// the picker looked at it has an entry.
pub proof fn what_is_in_the_making_has_an_entry<
    R: Fn(&Vec<Entry>, &String, &Config) -> Vec<usize>,
    H: Fn(&Vec<Entry>, &Vec<usize>) -> usize,
    C: Fn(&Entry) -> String,
>(host: Host<R, H, C>, a: Picker, now: u64, b: Picker)
    requires
        reconciled(host, a, now, b),
    ensures
        b.pending_create is Some ==> b.pending_create == a.pending_create && has_placeholder(
            b.entries@,
            (b.pending_create->0).dest@,
        ),
{
    if b.pending_create is Some {
        let p = a.pending_create->0;
        lemma_first_such(a.entries@, dir_at(p.dir_path@));
        if !has_placeholder(a.entries@, p.dest@) {
            placeholder_is_last_below_its_directory(host, a, p, b);
        }
    }
}

/// Once the working tree has arrived, no entry is in the making, and the cursor
/// has not moved.
pub proof fn arrival_settles_the_list<
    R: Fn(&Vec<Entry>, &String, &Config) -> Vec<usize>,
    H: Fn(&Vec<Entry>, &Vec<usize>) -> usize,
    C: Fn(&Entry) -> String,
>(host: Host<R, H, C>, a: Picker, p: PendingCreate, b: Picker)
    requires
        pending_done(host, a, p, b),
    ensures
        b.pending_create is None,
        forall|i: int| 0 <= i < b.entries@.len() ==> !(#[trigger] b.entries@[i]).pending,
        b.cursor == a.cursor,
{
    lemma_filtered_out(a.entries@, remains(None));
    assert forall|i: int| 0 <= i < b.entries@.len() implies !(
    #[trigger] b.entries@[i]).pending by {
        assert(remains(None)(a.entries@.filter(remains(None))[i]));
    }
}

/// A working tree that was begun has its entry at once.
pub proof fn creation_shows_at_once<
    R: Fn(&Vec<Entry>, &String, &Config) -> Vec<usize>,
    H: Fn(&Vec<Entry>, &Vec<usize>) -> usize,
    C: Fn(&Entry) -> String,
>(host: Host<R, H, C>, a: Picker, origin: Entry, now: u64, plan: CreatePlan, b: Picker)
    requires
        creation_begun(host, a, origin, now, plan, b),
    ensures
        b.entries@.len() == a.entries@.len() + 1,
        has_placeholder(b.entries@, plan.dest@),
{
    let p = b.pending_create->0;
    let before = Picker { pending_create: b.pending_create, ..a };
    let after = Picker { mode: a.mode, ..b };
    lemma_first_such(a.entries@, dir_at(p.dir_path@));
    if first_such(a.entries@, dir_at(p.dir_path@)) < a.entries@.len() {
        placeholder_is_last_below_its_directory(host, before, p, after);
    }
}

/// After every turn a working tree that is still in the making has an entry and
/// is not overdue, and the picker has handed out where it is to go.
pub proof fn turn_leaves_nothing_behind<
    R: Fn(&Vec<Entry>, &String, &Config) -> Vec<usize>,
    H: Fn(&Vec<Entry>, &Vec<usize>) -> usize,
    C: Fn(&Entry) -> String,
>(
    host: Host<R, H, C>,
    a: Picker,
    now: u64,
    ops: Seq<OpResult>,
    payloads: Seq<Option<Payload>>,
    b: Picker,
    r: (Signal, usize),
)
    requires
        ticked(host, a, now, ops, payloads, b, r),
    ensures
        b.pending_goto is None,
        b.pending_create is Some ==> {
            &&& has_placeholder(b.entries@, (b.pending_create->0).dest@)
            &&& !is_overdue(b.pending_create->0, now)
        },
        r.0 == Signal::Close ==> b.quit,
{
    let (xs, ys, z) = choose|xs: Seq<Picker>, ys: Seq<Picker>, z: Picker|
        {
            &&& #[trigger] ops_run(host, xs, ops)
            &&& #[trigger] payloads_run(host, ys, payloads)
            &&& #[trigger] reconciled(host, ys.last(), now, z)
            &&& xs[0] == a
            &&& ys[0] == xs.last()
            &&& b == (Picker { pending_goto: None, ..z })
            &&& r.0 == signal_of(z)
            &&& r.1 == refreshes(xs, ops, ops.len() as int)
        };
    what_is_in_the_making_has_an_entry(host, ys.last(), now, z);
    if ys.last().pending_create is Some && is_overdue(ys.last().pending_create->0, now) {
        no_making_lasts_for_ever(host, ys.last(), now, z);
    }
}

/// The name that a session gets has no colons and no full stops, and a name
/// without them is kept. Underscores stand for them, and no other character
/// changes.
pub proof fn session_names_are_plain(s: Seq<char>)
    ensures
        !session_name(s).contains(':'),
        !session_name(s).contains('.'),
        !s.contains(':') && !s.contains('.') ==> session_name(s) == s,
        session_name(s).len() == s.len(),
        forall|i: int|
            0 <= i < s.len() ==> #[trigger] session_name(s)[i] == if s[i] == ':' || s[i] == '.' {
                '_'
            } else {
                s[i]
            },
{
    if !s.contains(':') && !s.contains('.') {
        assert forall|i: int| 0 <= i < s.len() implies session_name(s)[i] == s[i] by {
            assert(s.contains(s[i]));
        }
        assert(session_name(s) =~= s);
    }
}

// ---------------------------------------------------------------------
// The tree
// ---------------------------------------------------------------------
/// The entry `k` steps above `i`, or -1 if there is none.
pub open spec fn above(ps: Seq<Option<usize>>, i: int, k: nat) -> int
    decreases k,
{
    if k == 0 {
        i
    } else {
        let j = above(ps, i, (k - 1) as nat);
        if 0 <= j < ps.len() && ps[j] is Some {
            ps[j]->0 as int
        } else {
            -1
        }
    }
}

proof fn lemma_above_shift(ps: Seq<Option<usize>>, i: int, k: nat)
    requires
        0 <= i < ps.len(),
        ps[i] is Some,
    ensures
        above(ps, i, k + 1) == above(ps, ps[i]->0 as int, k),
    decreases k,
{
    reveal_with_fuel(above, 2);
    if k > 0 {
        lemma_above_shift(ps, i, (k - 1) as nat);
    }
}

proof fn lemma_above_ends(ps: Seq<Option<usize>>, i: int, k: nat)
    requires
        k > 0,
        !(0 <= i < ps.len() && ps[i] is Some),
    ensures
        above(ps, i, k) == -1,
    decreases k,
{
    reveal_with_fuel(above, 2);
    if k > 1 {
        lemma_above_ends(ps, i, (k - 1) as nat);
    }
}

proof fn lemma_lies_below_within(ps: Seq<Option<usize>>, i: int, root: int, steps: nat, k: nat)
    requires
        root >= 0,
        0 < k <= steps,
        above(ps, i, k) == root,
    ensures
        lies_below(ps, i, root, steps),
    decreases steps,
{
    if 0 <= i < ps.len() && ps[i] is Some {
        lemma_above_shift(ps, i, (k - 1) as nat);
        if k > 1 {
            lemma_lies_below_within(
                ps,
                ps[i]->0 as int,
                root,
                (steps - 1) as nat,
                (k - 1) as nat,
            );
        }
    } else {
        lemma_above_ends(ps, i, k);
    }
}

proof fn lemma_lies_below_how_far(ps: Seq<Option<usize>>, i: int, root: int, steps: nat) -> (k: nat)
    requires
        lies_below(ps, i, root, steps),
    ensures
        0 < k <= steps,
        above(ps, i, k) == root,
    decreases steps,
{
    let p = ps[i]->0;
    if p == root {
        reveal_with_fuel(above, 2);
        1
    } else {
        let k = lemma_lies_below_how_far(ps, p as int, root, (steps - 1) as nat);
        lemma_above_shift(ps, i, k);
        k + 1
    }
}

proof fn lemma_above_repeats(ps: Seq<Option<usize>>, i: int, a: nat, b: nat, d: nat)
    requires
        above(ps, i, a) == above(ps, i, b),
    ensures
        above(ps, i, a + d) == above(ps, i, b + d),
    decreases d,
{
    if d > 0 {
        lemma_above_repeats(ps, i, a, b, (d - 1) as nat);
    }
}

proof fn lemma_above_in_range(ps: Seq<Option<usize>>, i: int, k: nat, j: nat)
    requires
        j < k,
        above(ps, i, k) >= 0,
    ensures
        0 <= above(ps, i, j) < ps.len(),
    decreases k,
{
    if j < k - 1 {
        lemma_above_in_range(ps, i, (k - 1) as nat, j);
    }
}

/// The least number of steps, from 1 on, that leads from `i` to `root`.
proof fn lemma_least_steps(ps: Seq<Option<usize>>, i: int, root: int, k: nat) -> (l: nat)
    requires
        k > 0,
        above(ps, i, k) == root,
    ensures
        0 < l <= k,
        above(ps, i, l) == root,
        forall|j: nat| 0 < j < l ==> #[trigger] above(ps, i, j) != root,
    decreases k,
{
    if exists|j: nat| 0 < j < k && #[trigger] above(ps, i, j) == root {
        let j = choose|j: nat| 0 < j < k && #[trigger] above(ps, i, j) == root;
        lemma_least_steps(ps, i, root, j)
    } else {
        k
    }
}

/// An entry counts as below another exactly if a way up leads from it to the
/// other, of whatever length: no way need be longer than there are entries.
pub proof fn below_is_any_number_of_steps(ps: Seq<Option<usize>>, i: int, root: int)
    requires
        root >= 0,
    ensures
        lies_below(ps, i, root, ps.len()) <==> exists|k: nat|
            k > 0 && #[trigger] above(ps, i, k) == root,
{
    if lies_below(ps, i, root, ps.len()) {
        let k = lemma_lies_below_how_far(ps, i, root, ps.len());
        assert(above(ps, i, k) == root);
    }
    if exists|k: nat| k > 0 && #[trigger] above(ps, i, k) == root {
        let k = choose|k: nat| k > 0 && #[trigger] above(ps, i, k) == root;
        let l = lemma_least_steps(ps, i, root, k);
        let way = Seq::new(l, |j: int| above(ps, i, j as nat));
        assert forall|a: int, b: int| 0 <= a < way.len() && 0 <= b < way.len() && a != b implies way[a]
            != way[b] by {
            if way[a] == way[b] {
                let x: nat = if a < b { a as nat } else { b as nat };
                let y: nat = if a < b { b as nat } else { a as nat };
                let d = (l - y) as nat;
                lemma_above_repeats(ps, i, x, y, d);
                assert(y + d == l);
                assert(above(ps, i, x + d) == root);
                assert(0 < x + d < l);
            }
        }
        assert(way.no_duplicates());
        way.unique_seq_to_set();
        let bound = vstd::set_lib::set_int_range(0, ps.len() as int);
        vstd::set_lib::lemma_int_range(0, ps.len() as int);
        assert forall|x: int| way.to_set().contains(x) implies bound.contains(x) by {
            let j = choose|j: int| 0 <= j < way.len() && way[j] == x;
            lemma_above_in_range(ps, i, l, j as nat);
        }
        vstd::set_lib::lemma_len_subset(way.to_set(), bound);
        lemma_lies_below_within(ps, i, root, ps.len(), l);
    }
}

proof fn lemma_on_way_how_far(ps: Seq<Option<usize>>, i: int, j: int, steps: nat) -> (k: nat)
    requires
        on_way(ps, i, j, steps),
    ensures
        k < steps,
        above(ps, i, k) == j,
    decreases steps,
{
    if i == j {
        0
    } else {
        let k = lemma_on_way_how_far(ps, ps[i]->0 as int, j, (steps - 1) as nat);
        lemma_above_shift(ps, i, k);
        k + 1
    }
}

proof fn lemma_on_way_within(ps: Seq<Option<usize>>, i: int, j: int, steps: nat, k: nat)
    requires
        way_ends(ps, i, steps),
        j >= 0,
        above(ps, i, k) == j,
    ensures
        on_way(ps, i, j, steps),
    decreases steps,
{
    if k > 0 {
        if ps[i] is Some {
            lemma_above_shift(ps, i, (k - 1) as nat);
            lemma_on_way_within(ps, ps[i]->0 as int, j, (steps - 1) as nat, (k - 1) as nat);
        } else {
            lemma_above_ends(ps, i, k);
        }
    }
}

/// The way up from an entry goes by the entry itself and by every one above it,
/// any number of steps up, and by no other.
pub proof fn the_way_up_goes_by_all_above(ps: Seq<Option<usize>>, i: int, j: int)
    requires
        way_ends(ps, i, ps.len()),
        j >= 0,
    ensures
        on_way(ps, i, j, ps.len()) <==> exists|k: nat| #[trigger] above(ps, i, k) == j,
{
    if on_way(ps, i, j, ps.len()) {
        let k = lemma_on_way_how_far(ps, i, j, ps.len());
        assert(above(ps, i, k) == j);
    }
    if exists|k: nat| #[trigger] above(ps, i, k) == j {
        let k = choose|k: nat| #[trigger] above(ps, i, k) == j;
        lemma_on_way_within(ps, i, j, ps.len(), k);
    }
}

/// A way up ends if some number of steps, fewer than there are entries to go
/// by, leads to an entry with nothing above it.
pub proof fn a_way_ends_at_the_top(ps: Seq<Option<usize>>, i: int, steps: nat)
    ensures
        way_ends(ps, i, steps) <==> exists|k: nat|
            k < steps && 0 <= #[trigger] above(ps, i, k) < ps.len() && ps[above(ps, i, k)] is None,
    decreases steps,
{
    if steps > 0 && 0 <= i < ps.len() && ps[i] is Some {
        let p = ps[i]->0 as int;
        let rest = (steps - 1) as nat;
        a_way_ends_at_the_top(ps, p, rest);
        if way_ends(ps, i, steps) {
            let k = choose|k: nat|
                k < rest && 0 <= #[trigger] above(ps, p, k) < ps.len() && ps[above(ps, p, k)]
                    is None;
            lemma_above_shift(ps, i, k);
            assert(0 <= above(ps, i, k + 1) < ps.len());
        }
        if exists|k: nat|
            k < steps && 0 <= #[trigger] above(ps, i, k) < ps.len() && ps[above(ps, i, k)] is None {
            let k = choose|k: nat|
                k < steps && 0 <= #[trigger] above(ps, i, k) < ps.len() && ps[above(ps, i, k)]
                    is None;
            assert(k > 0);
            lemma_above_shift(ps, i, (k - 1) as nat);
            assert(0 <= above(ps, p, (k - 1) as nat) < ps.len());
        }
    } else {
        if way_ends(ps, i, steps) {
            assert(above(ps, i, 0) == i);
        }
        if exists|k: nat|
            k < steps && 0 <= #[trigger] above(ps, i, k) < ps.len() && ps[above(ps, i, k)] is None {
            let k = choose|k: nat|
                k < steps && 0 <= #[trigger] above(ps, i, k) < ps.len() && ps[above(ps, i, k)]
                    is None;
            if k > 0 {
                lemma_above_ends(ps, i, k);
            }
        }
    }
}

/// What is scrolled to is in the last row shown, or, if it is among the rows
/// that fit without scrolling, the first row is shown again.
pub proof fn what_is_revealed_is_the_last_row(p: Picker, dest: Seq<char>, at: int)
    requires
        p.wf(),
        p.cursor < p.filtered@.len() <= usize::MAX,
        p.slot_entries.height > 0,
        0 <= at < p.filtered@.len(),
        same_path(p.entries@[p.filtered@[at] as int].path@, dest),
        forall|q: int|
            0 <= q < at ==> !same_path(p.entries@[#[trigger] p.filtered@[q] as int].path@, dest),
        row_at(p.entries@, p.filtered@, p.config.style_entries_gap as usize, at) < usize::MAX,
    ensures
        ({
            let row = row_at(p.entries@, p.filtered@, p.config.style_entries_gap as usize, at);
            let h = p.slot_entries.height;
            &&& row < h ==> revealed(p, dest) == 0
            &&& row >= h ==> row == revealed(p, dest) + h - 1
        }),
{
    let f = |i: usize| at_path(dest)(p.entries@[i as int]);
    lemma_first_such_at(p.filtered@, f, at);
}

/// Nothing is scrolled where no rows are shown, where what is to be shown is not
/// in the list, and where the cursor is behind the list.
pub proof fn what_is_not_listed_is_not_revealed(p: Picker, dest: Seq<char>)
    requires
        p.slot_entries.height == 0 || p.cursor >= p.filtered@.len() || forall|q: int|
            0 <= q < p.filtered@.len() ==> !same_path(
                p.entries@[#[trigger] p.filtered@[q] as int].path@,
                dest,
            ),
    ensures
        revealed(p, dest) == p.scroll,
{
    if p.slot_entries.height != 0 && p.cursor < p.filtered@.len() {
        let f = |i: usize| at_path(dest)(p.entries@[i as int]);
        lemma_first_such_at(p.filtered@, f, p.filtered@.len() as int);
    }
}

/// Which buttons an entry has: a live one can be ended, one that is not and that
/// leads somewhere can be opened; a working tree can be made at any entry but an
/// agent, and only a working tree can be deleted. They stand in this order, each
/// behind its key.
pub proof fn each_entry_has_its_buttons(
    e: Entry,
    kill: Seq<char>,
    open: Seq<char>,
    new: Seq<char>,
    delete: Seq<char>,
)
    ensures
        ({
            let r = buttons_of(e, kill, open, new, delete);
            let k = (kill + " Kill Session"@, Action::KillSession);
            let o = (open + " Open Detached"@, Action::OpenDetached);
            let n = (new + " New Worktree"@, Action::WorktreeNew);
            let d = (delete + " Delete Worktree"@, Action::WorktreeDelete);
            &&& e.kind == EntryType::Agent ==> r == seq![k]
            &&& e.kind == EntryType::Dir && e.is_open ==> r == seq![k, n]
            &&& e.kind == EntryType::Dir && !e.is_open && e.goto is Some ==> r == seq![o, n]
            &&& e.kind == EntryType::Dir && !e.is_open && e.goto is None ==> r == seq![n]
            &&& e.kind == EntryType::Worktree && e.is_open ==> r == seq![k, n, d]
            &&& e.kind == EntryType::Worktree && !e.is_open && e.goto is Some ==> r == seq![o, n, d]
            &&& e.kind == EntryType::Worktree && !e.is_open && e.goto is None ==> r == seq![n, d]
        }),
{
    let r = buttons_of(e, kill, open, new, delete);
    let k = (kill + " Kill Session"@, Action::KillSession);
    let o = (open + " Open Detached"@, Action::OpenDetached);
    let n = (new + " New Worktree"@, Action::WorktreeNew);
    let d = (delete + " Delete Worktree"@, Action::WorktreeDelete);
    if e.kind == EntryType::Agent {
        assert(r =~= seq![k]);
    } else if e.kind == EntryType::Dir {
        if e.is_open {
            assert(r =~= seq![k, n]);
        } else if e.goto is Some {
            assert(r =~= seq![o, n]);
        } else {
            assert(r =~= seq![n]);
        }
    } else {
        if e.is_open {
            assert(r =~= seq![k, n, d]);
        } else if e.goto is Some {
            assert(r =~= seq![o, n, d]);
        } else {
            assert(r =~= seq![n, d]);
        }
    }
}

/// Buttons are shown in the command mode alone, for the entry under the cursor,
/// and not while that is in the making. Their keys are those of the settings,
/// in upper case.
pub proof fn buttons_are_for_commands(p: Picker)
    ensures
        p.mode == Mode::Normal ==> buttons_at_cursor(p).len() == 0,
        p.mode == Mode::Help ==> buttons_at_cursor(p).len() == 0,
        p.mode == Mode::HelpEditing ==> buttons_at_cursor(p).len() == 0,
        p.cursor >= p.filtered@.len() ==> buttons_at_cursor(p).len() == 0,
        p.under_cursor().pending ==> buttons_at_cursor(p).len() == 0,
        p.mode == Mode::Command && p.cursor < p.filtered@.len() && !p.under_cursor().pending
            ==> buttons_at_cursor(p) == buttons_of(
            p.under_cursor(),
            uppercase(p.config.bind_command_session_kill@),
            uppercase(p.config.bind_command_open_detached@),
            uppercase(p.config.bind_command_worktree_new@),
            uppercase(p.config.bind_command_worktree_delete@),
        ),
{
}

// ---------------------------------------------------------------------
// One turn
// ---------------------------------------------------------------------
/// The spinner goes on by one frame once the time of a frame has passed, which
/// is 30 ms while there are entries and `spin_up_ms` while there are none; its
/// clock then starts anew. Before that nothing changes.
pub proof fn the_spinner_turns_in_time(a: Picker, now: u64, spin_up_ms: u64)
    ensures
        ({
            let b = spun(a, now, spin_up_ms);
            let frame = if a.entries@.len() > 0 {
                30
            } else {
                spin_up_ms as int
            };
            &&& now - a.last_spinner >= frame * 1_000_000 ==> b.last_spinner == now
            &&& now - a.last_spinner >= frame * 1_000_000 && a.spinner < usize::MAX ==> b.spinner
                == a.spinner + 1
            &&& now - a.last_spinner >= frame * 1_000_000 && a.spinner == usize::MAX ==> b.spinner
                == 0
            &&& now - a.last_spinner < frame * 1_000_000 && frame > 0 ==> b == a
            &&& a == (Picker { spinner: a.spinner, last_spinner: a.last_spinner, ..b })
        }),
{
}

/// Where the picker is to go counts more than that it is to close, and with
/// neither it stays.
pub proof fn going_comes_before_closing(p: Picker)
    ensures
        p.pending_goto matches Some(g) ==> signal_of(p) == Signal::Goto(g),
        p.pending_goto is None && p.quit ==> signal_of(p) == Signal::Close,
        p.pending_goto is None && !p.quit ==> signal_of(p) == Signal::Stay,
{
}

/// Each addition of the working tree in the making calls for one new list, and
/// no other addition does.
pub proof fn each_arrival_calls_for_one_list(states: Seq<Picker>, ops: Seq<OpResult>, n: int)
    requires
        0 <= n < ops.len(),
    ensures
        refreshes(states, ops, 0) == 0,
        refreshes(states, ops, n + 1) == refreshes(states, ops, n) + match ops[n] {
            OpResult::Created { dest } => if states[n].pending_create is Some && same_path(
                (states[n].pending_create->0).dest@,
                dest@,
            ) {
                1nat
            } else {
                0
            },
            OpResult::Failed { dest, msg } => 0,
        },
{
}

/// A turn with no news looks after the working tree in the making, and calls for
/// no list.
pub proof fn a_turn_without_news<
    R: Fn(&Vec<Entry>, &String, &Config) -> Vec<usize>,
    H: Fn(&Vec<Entry>, &Vec<usize>) -> usize,
    C: Fn(&Entry) -> String,
>(host: Host<R, H, C>, a: Picker, now: u64, b: Picker, r: (Signal, usize)) -> (z: Picker)
    requires
        ticked(host, a, now, seq![], seq![], b, r),
    ensures
        reconciled(host, a, now, z),
        b == (Picker { pending_goto: None, ..z }),
        z.pending_goto matches Some(g) ==> r.0 == Signal::Goto(g),
        z.pending_goto is None ==> r.0 == if z.quit {
            Signal::Close
        } else {
            Signal::Stay
        },
        r.1 == 0,
{
    let no_ops = Seq::<OpResult>::empty();
    let no_payloads = Seq::<Option<Payload>>::empty();
    let (xs, ys, z) = choose|xs: Seq<Picker>, ys: Seq<Picker>, z: Picker|
        {
            &&& #[trigger] ops_run(host, xs, no_ops)
            &&& #[trigger] payloads_run(host, ys, no_payloads)
            &&& #[trigger] reconciled(host, ys.last(), now, z)
            &&& xs[0] == a
            &&& ys[0] == xs.last()
            &&& b == (Picker { pending_goto: None, ..z })
            &&& r.0 == signal_of(z)
            &&& r.1 == refreshes(xs, no_ops, no_ops.len() as int)
        };
    z
}

/// A turn takes in what came of an addition first, then what the daemon sent,
/// and then looks after the working tree in the making.
pub proof fn a_turn_takes_the_news_in_order<
    R: Fn(&Vec<Entry>, &String, &Config) -> Vec<usize>,
    H: Fn(&Vec<Entry>, &Vec<usize>) -> usize,
    C: Fn(&Entry) -> String,
>(
    host: Host<R, H, C>,
    a: Picker,
    now: u64,
    op: OpResult,
    sent: Option<Payload>,
    b: Picker,
    r: (Signal, usize),
) -> (states: (Picker, Picker, Picker))
    requires
        ticked(host, a, now, seq![op], seq![sent], b, r),
    ensures
        op_handled(host, a, op, states.0),
        sent matches Some(payload) ==> payload_taken(host, states.0, payload, states.1),
        sent is None ==> states.1 == states.0,
        reconciled(host, states.1, now, states.2),
        b == (Picker { pending_goto: None, ..states.2 }),
        r.0 == signal_of(states.2),
        r.1 == if calls_for_refresh(a, op) {
            1int
        } else {
            0
        },
{
    let ops = seq![op];
    let payloads = seq![sent];
    let (xs, ys, z) = choose|xs: Seq<Picker>, ys: Seq<Picker>, z: Picker|
        {
            &&& #[trigger] ops_run(host, xs, ops)
            &&& #[trigger] payloads_run(host, ys, payloads)
            &&& #[trigger] reconciled(host, ys.last(), now, z)
            &&& xs[0] == a
            &&& ys[0] == xs.last()
            &&& b == (Picker { pending_goto: None, ..z })
            &&& r.0 == signal_of(z)
            &&& r.1 == refreshes(xs, ops, ops.len() as int)
        };
    assert(ops[0] == op && payloads[0] == sent);
    assert(op_handled(host, xs[0], ops[0], xs[1]));
    assert(ys.last() == ys[1]);
    reveal_with_fuel(refreshes, 2);
    (xs[1], ys[1], z)
}

/// A turn takes the additions in one by one, in order: to take in one and then
/// the others is to take in all.
pub proof fn a_turn_takes_additions_one_by_one<
    R: Fn(&Vec<Entry>, &String, &Config) -> Vec<usize>,
    H: Fn(&Vec<Entry>, &Vec<usize>) -> usize,
    C: Fn(&Entry) -> String,
>(
    host: Host<R, H, C>,
    a: Picker,
    now: u64,
    op: OpResult,
    ops: Seq<OpResult>,
    payloads: Seq<Option<Payload>>,
    b: Picker,
    r: (Signal, usize),
) -> (next: (Picker, usize))
    requires
        ticked(host, a, now, seq![op] + ops, payloads, b, r),
    ensures
        op_handled(host, a, op, next.0),
        ticked(host, next.0, now, ops, payloads, b, (r.0, next.1)),
        r.1 == next.1 + if calls_for_refresh(a, op) {
            1int
        } else {
            0
        },
{
    let all = seq![op] + ops;
    let (xs, ys, z) = choose|xs: Seq<Picker>, ys: Seq<Picker>, z: Picker|
        {
            &&& #[trigger] ops_run(host, xs, all)
            &&& #[trigger] payloads_run(host, ys, payloads)
            &&& #[trigger] reconciled(host, ys.last(), now, z)
            &&& xs[0] == a
            &&& ys[0] == xs.last()
            &&& b == (Picker { pending_goto: None, ..z })
            &&& r.0 == signal_of(z)
            &&& r.1 == refreshes(xs, all, all.len() as int)
        };
    let rest = xs.drop_first();
    assert(all[0] == op);
    assert(op_handled(host, xs[0], all[0], xs[1]));
    assert forall|i: int| 0 <= i < ops.len() implies op_handled(
        host,
        rest[i],
        #[trigger] ops[i],
        rest[i + 1],
    ) by {
        assert(all[i + 1] == ops[i]);
    }
    assert(ops_run(host, rest, ops));
    lemma_refreshes_from(xs, all, ops.len() as int);
    assert(all.drop_first() =~= ops);
    let n = refreshes(rest, ops, ops.len() as int);
    (xs[1], n as usize)
}

proof fn lemma_refreshes_from(xs: Seq<Picker>, ops: Seq<OpResult>, n: int)
    requires
        ops.len() > 0,
        xs.len() == ops.len() + 1,
        0 <= n < ops.len(),
    ensures
        refreshes(xs, ops, n + 1) == refreshes(xs.drop_first(), ops.drop_first(), n)
            + if calls_for_refresh(xs[0], ops[0]) {
            1int
        } else {
            0
        },
    decreases n,
{
    reveal_with_fuel(refreshes, 2);
    if n > 0 {
        lemma_refreshes_from(xs, ops, n - 1);
        assert(xs.drop_first()[n - 1] == xs[n]);
        assert(ops.drop_first()[n - 1] == ops[n]);
    }
}

/// A turn takes in what the daemon sent one by one, in order; a fetch that failed
/// changes nothing.
pub proof fn a_turn_takes_payloads_one_by_one<
    R: Fn(&Vec<Entry>, &String, &Config) -> Vec<usize>,
    H: Fn(&Vec<Entry>, &Vec<usize>) -> usize,
    C: Fn(&Entry) -> String,
>(
    host: Host<R, H, C>,
    a: Picker,
    now: u64,
    sent: Option<Payload>,
    payloads: Seq<Option<Payload>>,
    b: Picker,
    r: (Signal, usize),
) -> (next: Picker)
    requires
        ticked(host, a, now, seq![], seq![sent] + payloads, b, r),
    ensures
        sent matches Some(payload) ==> payload_taken(host, a, payload, next),
        sent is None ==> next == a,
        ticked(host, next, now, seq![], payloads, b, r),
{
    let no_ops = Seq::<OpResult>::empty();
    let all = seq![sent] + payloads;
    let (xs, ys, z) = choose|xs: Seq<Picker>, ys: Seq<Picker>, z: Picker|
        {
            &&& #[trigger] ops_run(host, xs, no_ops)
            &&& #[trigger] payloads_run(host, ys, all)
            &&& #[trigger] reconciled(host, ys.last(), now, z)
            &&& xs[0] == a
            &&& ys[0] == xs.last()
            &&& b == (Picker { pending_goto: None, ..z })
            &&& r.0 == signal_of(z)
            &&& r.1 == refreshes(xs, no_ops, no_ops.len() as int)
        };
    let rest = ys.drop_first();
    assert(all[0] == sent);
    assert forall|i: int| 0 <= i < payloads.len() implies match #[trigger] payloads[i] {
        Some(payload) => payload_taken(host, rest[i], payload, rest[i + 1]),
        None => rest[i + 1] == rest[i],
    } by {
        assert(all[i + 1] == payloads[i]);
    }
    assert(payloads_run(host, rest, payloads));
    assert(ops_run(host, seq![ys[1]], no_ops));
    assert(rest.last() == ys.last());
    ys[1]
}

/// Each button is shown by its caption and does its own action.
pub proof fn each_button_has_its_action(buttons: Seq<(String, Action)>, i: int)
    requires
        0 <= i < buttons.len(),
    ensures
        captions(buttons).len() == buttons.len(),
        captions(buttons)[i].0 == buttons[i].0@,
        captions(buttons)[i].1 == buttons[i].1,
{
}

} // verus!
