//! What holds of the help as a whole: its blocks, its lines and its rows.

use crate::help::{
    block_lines, blocks_from, comments_between, filter_words, filtered_upto, is_blank, key_matches,
    key_of, lemma_run_end, lower_keys, matching, run_end, selectable, selectable_between,
    selectable_upto, shown_line, visible_lines,
};
use crate::picker_help::{
    block_rows, help_places, help_rows_of, matched_upto, rows_of_blocks, value_to_edit,
};
use crate::edit_laws::{
    a_line_sets_its_key, all_white, lemma_all_white, lemma_core, lemma_core_exists, plain_key,
    the_comment_starts_at_its_sign, without_its_sign_there_is_no_comment,
};
use crate::model::value_in;
use crate::text::{is_white, lemma_position_at, lowercase, occurs, trimmed, words_of};
use vstd::prelude::*;

verus! {

/// The places that the first `n` blocks hold.
pub open spec fn entries_upto(bs: Seq<(Seq<Seq<char>>, Seq<usize>)>, n: int) -> Seq<usize>
    decreases n,
{
    if n <= 0 {
        seq![]
    } else {
        entries_upto(bs, n - 1) + bs[n - 1].1
    }
}

proof fn lemma_between_splits(ls: Seq<Seq<char>>, i: int, j: int, k: int)
    requires
        i <= j <= k,
    ensures
        selectable_between(ls, i, k) == selectable_between(ls, i, j) + selectable_between(ls, j, k),
    decreases k - j,
{
    if j == k {
        assert(selectable_between(ls, i, j) + Seq::<usize>::empty() =~= selectable_between(
            ls,
            i,
            j,
        ));
    } else {
        lemma_between_splits(ls, i, j, k - 1);
        assert(selectable_between(ls, i, k) =~= selectable_between(ls, i, j) + selectable_between(
            ls,
            j,
            k,
        ));
    }
}

proof fn lemma_between_from_start(ls: Seq<Seq<char>>, n: int)
    ensures
        selectable_between(ls, 0, n) == selectable_upto(ls, n),
    decreases n,
{
    if n > 0 {
        lemma_between_from_start(ls, n - 1);
    }
}

proof fn lemma_entries_behind(
    b: (Seq<Seq<char>>, Seq<usize>),
    rest: Seq<(Seq<Seq<char>>, Seq<usize>)>,
    n: int,
)
    requires
        0 <= n <= rest.len(),
    ensures
        entries_upto(seq![b] + rest, n + 1) == b.1 + entries_upto(rest, n),
    decreases n,
{
    let all = seq![b] + rest;
    if n == 0 {
        assert(entries_upto(all, 0) =~= Seq::<usize>::empty());
        assert(all[0] == b);
        assert(entries_upto(all, 1) =~= b.1 + entries_upto(rest, 0));
    } else {
        lemma_entries_behind(b, rest, n - 1);
        assert(all[n] == rest[n - 1]);
        assert((b.1 + entries_upto(rest, n - 1)) + rest[n - 1].1 =~= b.1 + entries_upto(rest, n));
    }
}

proof fn lemma_blocks_hold(ls: Seq<Seq<char>>, i: int)
    requires
        0 <= i <= ls.len(),
    ensures
        entries_upto(blocks_from(ls, i), blocks_from(ls, i).len() as int) == selectable_between(
            ls,
            i,
            ls.len() as int,
        ),
    decreases ls.len() - i,
{
    let n: int = ls.len() as int;
    let bs = blocks_from(ls, i);
    if i < n {
        if is_blank(ls[i]) {
            lemma_blocks_hold(ls, i + 1);
            lemma_between_splits(ls, i, i + 1, n);
            assert(selectable_between(ls, i, i) =~= Seq::<usize>::empty());
            assert(!selectable(ls[i]));
            assert(selectable_between(ls, i, i + 1) =~= Seq::<usize>::empty());
            assert(Seq::<usize>::empty() + selectable_between(ls, i + 1, n) =~= selectable_between(
                ls,
                i + 1,
                n,
            ));
        } else {
            lemma_run_end(ls, i);
            let j = run_end(ls, i);
            let es = selectable_between(ls, i, j);
            let rest = if j < n {
                blocks_from(ls, j + 1)
            } else {
                seq![]
            };
            lemma_between_splits(ls, i, j, n);
            if j < n {
                lemma_blocks_hold(ls, j + 1);
                lemma_between_splits(ls, j, j + 1, n);
                assert(!selectable(ls[j]));
                assert(selectable_between(ls, j, j) =~= Seq::<usize>::empty());
                assert(selectable_between(ls, j, j + 1) =~= Seq::<usize>::empty());
                assert(Seq::<usize>::empty() + selectable_between(ls, j + 1, n)
                    =~= selectable_between(ls, j + 1, n));
            }
            assert(entries_upto(rest, rest.len() as int) == selectable_between(ls, j, n));
            if es.len() > 0 {
                let b = bs[0];
                assert(bs =~= seq![b] + rest);
                lemma_entries_behind(b, rest, rest.len() as int);
            } else {
                assert(es + selectable_between(ls, j, n) =~= selectable_between(ls, j, n));
            }
        }
    }
}

/// The blocks hold every line that sets a key, once and in order.
pub proof fn blocks_hold_every_setting(ls: Seq<Seq<char>>)
    ensures
        entries_upto(blocks_from(ls, 0), blocks_from(ls, 0).len() as int) == selectable_upto(
            ls,
            ls.len() as int,
        ),
{
    lemma_blocks_hold(ls, 0);
    lemma_between_from_start(ls, ls.len() as int);
}

proof fn lemma_matching_joins(
    x: Seq<usize>,
    y: Seq<usize>,
    keys: Seq<Option<Seq<char>>>,
    ws: Seq<Seq<char>>,
)
    ensures
        matching(x + y, keys, ws) == matching(x, keys, ws) + matching(y, keys, ws),
        matching(y, keys, ws).len() <= y.len(),
    decreases y.len(),
{
    if y.len() == 0 {
        assert(x + y =~= x);
        assert(matching(x, keys, ws) + matching(y, keys, ws) =~= matching(x, keys, ws));
    } else {
        lemma_matching_joins(x, y.drop_last(), keys, ws);
        assert((x + y).drop_last() =~= x + y.drop_last());
        assert((x + y).last() == y.last());
        assert(matching(x + y, keys, ws) =~= matching(x, keys, ws) + matching(y, keys, ws));
    }
}

/// The first `n` blocks have as many rows as lines; the row with a number shows
/// the setting with that number; each has one; and they are in order.
pub open spec fn rows_fit(
    rows: Seq<Option<usize>>,
    lines: Seq<Seq<char>>,
    at: Seq<usize>,
    ls: Seq<Seq<char>>,
    values: Seq<(String, String)>,
    raw: Map<Seq<char>, Seq<char>>,
) -> bool {
    &&& rows.len() == lines.len()
    &&& forall|r: int|
        0 <= r < rows.len() ==> match #[trigger] rows[r] {
            Some(k) => k < at.len() && lines[r] == shown_line(ls[at[k as int] as int], values, raw),
            None => true,
        }
    &&& forall|k: usize| k < at.len() ==> #[trigger] rows.contains(Some(k))
    &&& forall|r: int, q: int|
        0 <= r < q < rows.len() && (#[trigger] rows[r]) is Some && (#[trigger] rows[q]) is Some
            ==> rows[r]->0 < rows[q]->0
}

proof fn lemma_block_rows_fit(
    bs: Seq<(Seq<Seq<char>>, Seq<usize>)>,
    n: int,
    ls: Seq<Seq<char>>,
    keys: Seq<Option<Seq<char>>>,
    ws: Seq<Seq<char>>,
    values: Seq<(String, String)>,
    raw: Map<Seq<char>, Seq<char>>,
)
    requires
        0 <= n <= bs.len(),
        entries_upto(bs, n).len() <= usize::MAX,
    ensures
        matching(entries_upto(bs, n), keys, ws).len() == matched_upto(bs, n, keys, ws),
        matched_upto(bs, n, keys, ws) <= entries_upto(bs, n).len(),
        rows_fit(
            rows_of_blocks(bs, n, keys, ws),
            filtered_upto(bs, n, ls, keys, ws, values, raw),
            matching(entries_upto(bs, n), keys, ws),
            ls,
            values,
            raw,
        ),
    decreases n,
{
    if n > 0 {
        lemma_block_rows_fit(bs, n - 1, ls, keys, ws, values, raw);
        let b = bs[n - 1];
        let e0 = entries_upto(bs, n - 1);
        lemma_matching_joins(e0, b.1, keys, ws);
        let m0 = matching(e0, keys, ws);
        let m1 = matching(b.1, keys, ws);
        let m = m0 + m1;
        let r0 = rows_of_blocks(bs, n - 1, keys, ws);
        let l0 = filtered_upto(bs, n - 1, ls, keys, ws, values, raw);
        let r1 = block_rows(b, keys, ws, m0.len());
        let l1 = block_lines(b, ls, keys, ws, values, raw);
        let rows = r0 + r1;
        let lines = l0 + l1;
        let h = b.0.len();
        assert(r1.len() == l1.len());
        assert forall|r: int| 0 <= r < rows.len() implies match #[trigger] rows[r] {
            Some(k) => k < m.len() && lines[r] == shown_line(ls[m[k as int] as int], values, raw),
            None => true,
        } by {
            if r < r0.len() {
                assert(rows[r] == r0[r]);
                assert(lines[r] == l0[r]);
            } else {
                let q = r - r0.len();
                assert(rows[r] == r1[q]);
                assert(lines[r] == l1[q]);
                if q >= h {
                    assert(r1[q] == Some((m0.len() + (q - h)) as usize));
                    assert(m[m0.len() + (q - h)] == m1[q - h]);
                    assert(l1[q] == shown_line(ls[m1[q - h] as int], values, raw));
                }
            }
        }
        assert forall|k: usize| k < m.len() implies #[trigger] rows.contains(Some(k)) by {
            if k < m0.len() {
                assert(r0.contains(Some(k)));
                let r = choose|r: int| 0 <= r < r0.len() && r0[r] == Some(k);
                assert(rows[r] == Some(k));
            } else {
                let r = r0.len() + h + (k - m0.len());
                assert(rows[r] == r1[r - r0.len()]);
            }
        }
        assert forall|r: int, q: int|
            0 <= r < q < rows.len() && (#[trigger] rows[r]) is Some && (
            #[trigger] rows[q]) is Some implies rows[r]->0 < rows[q]->0 by {
            if q < r0.len() {
                assert(rows[r] == r0[r] && rows[q] == r0[q]);
            } else {
                assert(rows[q] == r1[q - r0.len()]);
                if r < r0.len() {
                    assert(rows[r] == r0[r]);
                    assert(r0[r]->0 < m0.len());
                } else {
                    assert(rows[r] == r1[r - r0.len()]);
                }
            }
        }
    }
}

proof fn lemma_selectable_counts(ls: Seq<Seq<char>>, i: int, n: int)
    requires
        0 <= i <= n <= ls.len() <= usize::MAX,
    ensures
        selectable_upto(ls, i).len() <= selectable_upto(ls, n).len() <= n,
        i < n && selectable(ls[i]) ==> {
            &&& selectable_upto(ls, i).len() < selectable_upto(ls, n).len()
            &&& selectable_upto(ls, n)[selectable_upto(ls, i).len() as int] == i
        },
    decreases n,
{
    if i < n {
        lemma_selectable_counts(ls, i, n - 1);
    } else if n > 0 {
        lemma_selectable_counts(ls, n - 1, n - 1);
    }
}

proof fn lemma_selectable_has_row(ls: Seq<Seq<char>>, n: int, k: int) -> (i: int)
    requires
        0 <= n <= ls.len() <= usize::MAX,
        0 <= k < selectable_upto(ls, n).len(),
    ensures
        0 <= i < n,
        selectable(ls[i]),
        selectable_upto(ls, i).len() == k,
    decreases n,
{
    if selectable(ls[n - 1]) && k == selectable_upto(ls, n - 1).len() {
        n - 1
    } else {
        lemma_selectable_has_row(ls, n - 1, k)
    }
}

/// Whatever the filter, the help has a row for each line that it shows. The
/// settings that the filter leaves are numbered in order, and the row with a
/// number shows the setting with that number.
pub proof fn help_rows_number_the_settings(
    filter: Seq<char>,
    ls: Seq<Seq<char>>,
    values: Seq<(String, String)>,
    raw: Map<Seq<char>, Seq<char>>,
)
    requires
        ls.len() <= usize::MAX,
    ensures
        rows_fit(
            help_rows_of(filter, ls),
            visible_lines(filter, ls, values, raw),
            help_places(filter, ls),
            ls,
            values,
            raw,
        ),
{
    let n: int = ls.len() as int;
    lemma_selectable_counts(ls, n, n);
    if trimmed(filter).len() == 0 {
        let rows = help_rows_of(filter, ls);
        let lines = visible_lines(filter, ls, values, raw);
        let at = help_places(filter, ls);
        assert forall|r: int| 0 <= r < rows.len() implies match #[trigger] rows[r] {
            Some(k) => k < at.len() && lines[r] == shown_line(ls[at[k as int] as int], values, raw),
            None => true,
        } by {
            lemma_selectable_counts(ls, r, n);
        }
        assert forall|k: usize| k < at.len() implies #[trigger] rows.contains(Some(k)) by {
            let i = lemma_selectable_has_row(ls, n, k as int);
            assert(rows[i] == Some(k));
        }
        assert forall|r: int, q: int|
            0 <= r < q < rows.len() && (#[trigger] rows[r]) is Some && (
            #[trigger] rows[q]) is Some implies rows[r]->0 < rows[q]->0 by {
            lemma_selectable_counts(ls, r, q);
            lemma_selectable_counts(ls, q, n);
        }
    } else {
        let bs = blocks_from(ls, 0);
        blocks_hold_every_setting(ls);
        lemma_block_rows_fit(
            bs,
            bs.len() as int,
            ls,
            lower_keys(ls),
            filter_words(filter),
            values,
            raw,
        );
    }
}

/// A filter leaves a setting exactly if every one of its words occurs in the
/// key.
pub proof fn filter_leaves_what_matches(filter: Seq<char>, ls: Seq<Seq<char>>, i: int)
    requires
        trimmed(filter).len() > 0,
        0 <= i < ls.len() <= usize::MAX,
    ensures
        help_places(filter, ls).contains(i as usize) <==> selectable(ls[i]) && key_matches(
            Some(lowercase(key_of(ls[i])->0)),
            filter_words(filter),
        ),
{
    let all = selectable_upto(ls, ls.len() as int);
    let ws = filter_words(filter);
    crate::help::lemma_selectable_upto(ls, ls.len() as int);
    lemma_matching_contains(all, lower_keys(ls), ws, i as usize);
    assert(selectable(ls[i]) <==> all.contains(i as usize));
}

proof fn lemma_matching_contains(
    es: Seq<usize>,
    keys: Seq<Option<Seq<char>>>,
    ws: Seq<Seq<char>>,
    x: usize,
)
    ensures
        matching(es, keys, ws).contains(x) <==> es.contains(x) && key_matches(keys[x as int], ws),
    decreases es.len(),
{
    if es.len() > 0 {
        let d = es.drop_last();
        let m = matching(es, keys, ws);
        let md = matching(d, keys, ws);
        lemma_matching_contains(d, keys, ws, x);
        assert(es.contains(x) <==> d.contains(x) || es.last() == x) by {
            assert(es =~= d.push(es.last()));
            if d.contains(x) {
                let j = choose|j: int| 0 <= j < d.len() && d[j] == x;
                assert(es[j] == x);
            }
            if es.last() == x {
                assert(es[es.len() - 1] == x);
            }
            if es.contains(x) && es.last() != x {
                let j = choose|j: int| 0 <= j < es.len() && es[j] == x;
                assert(d[j] == x);
            }
        }
        if key_matches(keys[es.last() as int], ws) {
            assert(m.contains(x) <==> md.contains(x) || es.last() == x) by {
                if md.contains(x) {
                    let j = choose|j: int| 0 <= j < md.len() && md[j] == x;
                    assert(m[j] == x);
                }
                if es.last() == x {
                    assert(m[m.len() - 1] == x);
                }
                if m.contains(x) && es.last() != x {
                    let j = choose|j: int| 0 <= j < m.len() && m[j] == x;
                    assert(md[j] == x);
                }
            }
        }
    }
}

// ---------------------------------------------------------------------
// What a filter leaves of the lines
// ---------------------------------------------------------------------
/// The line is a comment.
pub open spec fn is_comment(l: Seq<char>) -> bool {
    trimmed(l).len() > 0 && trimmed(l)[0] == '#'
}

/// The comment at `q` belongs to the block whose first setting is at `first`: no
/// blank line is between them.
pub open spec fn heads(ls: Seq<Seq<char>>, first: int, q: int) -> bool {
    &&& 0 <= q < first
    &&& is_comment(ls[q])
    &&& forall|l: int| q <= l < first ==> !is_blank(#[trigger] ls[l])
}

/// The line at `q` is in the header of a block that holds a setting which the
/// words match.
pub open spec fn heads_a_match(
    bs: Seq<(Seq<Seq<char>>, Seq<usize>)>,
    ls: Seq<Seq<char>>,
    keys: Seq<Option<Seq<char>>>,
    ws: Seq<Seq<char>>,
    q: int,
) -> bool {
    exists|k: int|
        0 <= k < bs.len() && matching((#[trigger] bs[k]).1, keys, ws).len() > 0 && heads(
            ls,
            bs[k].1[0] as int,
            q,
        )
}

/// The places of the comments from `i` to before `j`.
pub open spec fn comment_places(ls: Seq<Seq<char>>, i: int, j: int) -> Seq<usize>
    decreases j - i,
{
    if j <= i {
        seq![]
    } else if is_comment(ls[j - 1]) {
        comment_places(ls, i, j - 1).push((j - 1) as usize)
    } else {
        comment_places(ls, i, j - 1)
    }
}

/// The places of the lines that are shown for the words, from `i` on: in each
/// run of lines without a blank one, if a setting matches, the comments above
/// the first setting and the settings that match.
pub open spec fn shown_from(
    ls: Seq<Seq<char>>,
    keys: Seq<Option<Seq<char>>>,
    ws: Seq<Seq<char>>,
    i: int,
) -> Seq<usize>
    decreases ls.len() - i,
    when 0 <= i
{
    if i >= ls.len() {
        seq![]
    } else if is_blank(ls[i]) {
        shown_from(ls, keys, ws, i + 1)
    } else {
        proof {
            lemma_run_end(ls, i);
        }
        let j = run_end(ls, i);
        let es = selectable_between(ls, i, j);
        let m = matching(es, keys, ws);
        let rest = if j < ls.len() {
            shown_from(ls, keys, ws, j + 1)
        } else {
            seq![]
        };
        if m.len() > 0 {
            comment_places(ls, i, es[0] as int) + m + rest
        } else {
            rest
        }
    }
}

/// The places of the lines that a filter leaves.
pub open spec fn shown_places(filter: Seq<char>, ls: Seq<Seq<char>>) -> Seq<usize> {
    shown_from(ls, lower_keys(ls), filter_words(filter), 0)
}

/// Places in order, from `lo` to before `hi`.
pub open spec fn in_order(s: Seq<usize>, lo: int, hi: int) -> bool {
    &&& forall|i: int| 0 <= i < s.len() ==> lo <= #[trigger] s[i] < hi
    &&& forall|i: int, j: int| 0 <= i < j < s.len() ==> #[trigger] s[i] < #[trigger] s[j]
}

proof fn lemma_in_order_joins(a: Seq<usize>, b: Seq<usize>, lo: int, mid: int, hi: int)
    requires
        in_order(a, lo, mid),
        in_order(b, mid, hi),
        lo <= mid <= hi,
    ensures
        in_order(a + b, lo, hi),
{
    let s = a + b;
    assert forall|i: int| 0 <= i < s.len() implies lo <= #[trigger] s[i] < hi by {
        if i < a.len() {
            assert(s[i] == a[i]);
        } else {
            assert(s[i] == b[i - a.len()]);
        }
    }
    assert forall|i: int, j: int| 0 <= i < j < s.len() implies #[trigger] s[i]
        < #[trigger] s[j] by {
        if j < a.len() {
            assert(s[i] == a[i] && s[j] == a[j]);
        } else {
            assert(s[j] == b[j - a.len()]);
            if i < a.len() {
                assert(s[i] == a[i]);
            } else {
                assert(s[i] == b[i - a.len()]);
            }
        }
    }
}

proof fn lemma_matching_in_order(
    es: Seq<usize>,
    keys: Seq<Option<Seq<char>>>,
    ws: Seq<Seq<char>>,
    lo: int,
    hi: int,
)
    requires
        in_order(es, lo, hi),
    ensures
        in_order(matching(es, keys, ws), lo, hi),
    decreases es.len(),
{
    if es.len() > 0 {
        let d = es.drop_last();
        let x = es.last();
        assert(es[es.len() - 1] == x);
        assert forall|i: int| 0 <= i < d.len() implies lo <= #[trigger] d[i] < x by {
            assert(d[i] == es[i]);
        }
        assert forall|i: int, j: int| 0 <= i < j < d.len() implies #[trigger] d[i]
            < #[trigger] d[j] by {
            assert(d[i] == es[i] && d[j] == es[j]);
        }
        lemma_matching_in_order(d, keys, ws, lo, x as int);
    }
}

proof fn lemma_between_in_order(ls: Seq<Seq<char>>, i: int, j: int)
    requires
        0 <= i <= j <= ls.len() <= usize::MAX,
    ensures
        in_order(selectable_between(ls, i, j), i, j),
        forall|q: usize| #[trigger]
            selectable_between(ls, i, j).contains(q) <==> i <= q < j && selectable(ls[q as int]),
    decreases j - i,
{
    if i < j {
        lemma_between_in_order(ls, i, j - 1);
        let a = selectable_between(ls, i, j - 1);
        let b = selectable_between(ls, i, j);
        let x = (j - 1) as usize;
        if selectable(ls[j - 1]) {
            lemma_push_contains(a, x);
        }
        assert forall|q: usize| #[trigger] b.contains(q) <==> i <= q < j && selectable(
            ls[q as int],
        ) by {
            assert(a.contains(q) <==> i <= q < j - 1 && selectable(ls[q as int]));
        }
    }
}

proof fn lemma_push_contains(a: Seq<usize>, x: usize)
    ensures
        forall|q: usize| #[trigger] a.push(x).contains(q) <==> a.contains(q) || q == x,
{
    let b = a.push(x);
    assert forall|q: usize| #[trigger] b.contains(q) <==> a.contains(q) || q == x by {
        if a.contains(q) {
            let k = choose|k: int| 0 <= k < a.len() && a[k] == q;
            assert(b[k] == q);
        }
        if q == x {
            assert(b[a.len() as int] == q);
        }
        if b.contains(q) && q != x {
            let k = choose|k: int| 0 <= k < b.len() && b[k] == q;
            assert(a[k] == q);
        }
    }
}

proof fn lemma_join_contains(a: Seq<usize>, b: Seq<usize>)
    ensures
        forall|q: usize| #[trigger] (a + b).contains(q) <==> a.contains(q) || b.contains(q),
{
    let s = a + b;
    assert forall|q: usize| #[trigger] s.contains(q) <==> a.contains(q) || b.contains(q) by {
        if a.contains(q) {
            let k = choose|k: int| 0 <= k < a.len() && a[k] == q;
            assert(s[k] == q);
        }
        if b.contains(q) {
            let k = choose|k: int| 0 <= k < b.len() && b[k] == q;
            assert(s[k + a.len()] == q);
        }
        if s.contains(q) {
            let k = choose|k: int| 0 <= k < s.len() && s[k] == q;
            if k < a.len() {
                assert(a[k] == q);
            } else {
                assert(b[k - a.len()] == q);
            }
        }
    }
}

proof fn lemma_comment_places(
    ls: Seq<Seq<char>>,
    i: int,
    j: int,
    values: Seq<(String, String)>,
    raw: Map<Seq<char>, Seq<char>>,
)
    requires
        0 <= i <= j <= ls.len() <= usize::MAX,
    ensures
        in_order(comment_places(ls, i, j), i, j),
        forall|q: usize| #[trigger]
            comment_places(ls, i, j).contains(q) <==> i <= q < j && is_comment(ls[q as int]),
        comments_between(ls, i, j) == comment_places(ls, i, j).map_values(
            |p: usize| shown_line(ls[p as int], values, raw),
        ),
        comments_between(ls, i, j) == comment_places(ls, i, j).map_values(|p: usize| ls[p as int]),
    decreases j - i,
{
    let f = |p: usize| shown_line(ls[p as int], values, raw);
    let g = |p: usize| ls[p as int];
    let b = comment_places(ls, i, j);
    if i < j {
        lemma_comment_places(ls, i, j - 1, values, raw);
        let a = comment_places(ls, i, j - 1);
        let x = (j - 1) as usize;
        if is_comment(ls[j - 1]) {
            lemma_push_contains(a, x);
            assert(f(x) == ls[j - 1]);
            assert(a.push(x).map_values(f) =~= a.map_values(f).push(ls[j - 1]));
            assert(a.push(x).map_values(g) =~= a.map_values(g).push(ls[j - 1]));
        }
        assert forall|q: usize| #[trigger] b.contains(q) <==> i <= q < j && is_comment(
            ls[q as int],
        ) by {
            assert(a.contains(q) <==> i <= q < j - 1 && is_comment(ls[q as int]));
        }
    } else {
        assert(comments_between(ls, i, j) =~= b.map_values(f));
        assert(comments_between(ls, i, j) =~= b.map_values(g));
    }
}

proof fn lemma_filtered_behind(
    b: (Seq<Seq<char>>, Seq<usize>),
    rest: Seq<(Seq<Seq<char>>, Seq<usize>)>,
    n: int,
    ls: Seq<Seq<char>>,
    keys: Seq<Option<Seq<char>>>,
    ws: Seq<Seq<char>>,
    values: Seq<(String, String)>,
    raw: Map<Seq<char>, Seq<char>>,
)
    requires
        0 <= n <= rest.len(),
    ensures
        filtered_upto(seq![b] + rest, n + 1, ls, keys, ws, values, raw) == block_lines(
            b,
            ls,
            keys,
            ws,
            values,
            raw,
        ) + filtered_upto(rest, n, ls, keys, ws, values, raw),
    decreases n,
{
    let all = seq![b] + rest;
    let first = block_lines(b, ls, keys, ws, values, raw);
    if n == 0 {
        assert(all[0] == b);
        assert(filtered_upto(all, 0, ls, keys, ws, values, raw) =~= Seq::<Seq<char>>::empty());
        assert(filtered_upto(all, 1, ls, keys, ws, values, raw) =~= first + filtered_upto(
            rest,
            0,
            ls,
            keys,
            ws,
            values,
            raw,
        ));
    } else {
        lemma_filtered_behind(b, rest, n - 1, ls, keys, ws, values, raw);
        assert(all[n] == rest[n - 1]);
        let before = filtered_upto(rest, n - 1, ls, keys, ws, values, raw);
        let last = block_lines(rest[n - 1], ls, keys, ws, values, raw);
        assert((first + before) + last =~= first + (before + last));
    }
}

proof fn lemma_heads_behind(
    b: (Seq<Seq<char>>, Seq<usize>),
    rest: Seq<(Seq<Seq<char>>, Seq<usize>)>,
    ls: Seq<Seq<char>>,
    keys: Seq<Option<Seq<char>>>,
    ws: Seq<Seq<char>>,
    q: int,
)
    ensures
        heads_a_match(seq![b] + rest, ls, keys, ws, q) <==> (matching(b.1, keys, ws).len() > 0
            && heads(ls, b.1[0] as int, q)) || heads_a_match(rest, ls, keys, ws, q),
{
    let all = seq![b] + rest;
    assert(all[0] == b);
    if heads_a_match(rest, ls, keys, ws, q) {
        let k = choose|k: int|
            0 <= k < rest.len() && matching((#[trigger] rest[k]).1, keys, ws).len() > 0 && heads(
                ls,
                rest[k].1[0] as int,
                q,
            );
        assert(all[k + 1] == rest[k]);
    }
    if heads_a_match(all, ls, keys, ws, q) {
        let k = choose|k: int|
            0 <= k < all.len() && matching((#[trigger] all[k]).1, keys, ws).len() > 0 && heads(
                ls,
                all[k].1[0] as int,
                q,
            );
        if k > 0 {
            assert(rest[k - 1] == all[k]);
        }
    }
}

proof fn lemma_blocks_start_behind(ls: Seq<Seq<char>>, i: int)
    requires
        0 <= i <= ls.len() <= usize::MAX,
    ensures
        forall|k: int|
            0 <= k < blocks_from(ls, i).len() ==> i <= (#[trigger] blocks_from(ls, i)[k]).1[0],
    decreases ls.len() - i,
{
    if i < ls.len() {
        if is_blank(ls[i]) {
            lemma_blocks_start_behind(ls, i + 1);
            assert(blocks_from(ls, i) == blocks_from(ls, i + 1));
            assert forall|k: int| 0 <= k < blocks_from(ls, i).len() implies i <= (
            #[trigger] blocks_from(ls, i)[k]).1[0] by {
                assert(i + 1 <= blocks_from(ls, i + 1)[k].1[0]);
            }
        } else {
            lemma_run_end(ls, i);
            let j = run_end(ls, i);
            lemma_between_in_order(ls, i, j);
            if j < ls.len() {
                lemma_blocks_start_behind(ls, j + 1);
            }
            let bs = blocks_from(ls, i);
            let rest = if j < ls.len() {
                blocks_from(ls, j + 1)
            } else {
                seq![]
            };
            assert forall|k: int| 0 <= k < bs.len() implies i <= (#[trigger] bs[k]).1[0] by {
                if selectable_between(ls, i, j).len() > 0 {
                    if k > 0 {
                        assert(bs[k] == rest[k - 1]);
                    }
                } else {
                    assert(bs[k] == rest[k]);
                }
            }
        }
    }
}

proof fn lemma_header(ls: Seq<Seq<char>>, i: int, k: int) -> (cs: Seq<usize>)
    requires
        0 <= i <= ls.len() <= usize::MAX,
        i == 0 || is_blank(ls[i - 1]),
        0 <= k < blocks_from(ls, i).len(),
    ensures
        in_order(cs, 0, blocks_from(ls, i)[k].1[0] as int),
        forall|q: usize| #[trigger]
            cs.contains(q) <==> heads(ls, blocks_from(ls, i)[k].1[0] as int, q as int),
        blocks_from(ls, i)[k].0 == cs.map_values(|p: usize| ls[p as int]),
    decreases ls.len() - i,
{
    let bs = blocks_from(ls, i);
    if is_blank(ls[i]) {
        lemma_header(ls, i + 1, k)
    } else {
        lemma_run_end(ls, i);
        let j = run_end(ls, i);
        let es = selectable_between(ls, i, j);
        lemma_between_in_order(ls, i, j);
        let rest = if j < ls.len() {
            blocks_from(ls, j + 1)
        } else {
            seq![]
        };
        if es.len() == 0 {
            assert(bs == rest);
            lemma_header(ls, j + 1, k)
        } else if k > 0 {
            assert(bs[k] == rest[k - 1]);
            lemma_header(ls, j + 1, k - 1)
        } else {
            let first = es[0] as int;
            let cs = comment_places(ls, i, first);
            lemma_comment_places(ls, i, first, Seq::empty(), Map::empty());
            assert forall|q: usize| #[trigger] cs.contains(q) <==> heads(ls, first, q as int) by {
                assert(cs.contains(q) <==> i <= q < first && is_comment(ls[q as int]));
                if heads(ls, first, q as int) && q < i {
                    assert(is_blank(ls[i - 1]));
                }
            }
            cs
        }
    }
}

/// The header of a block is made of the comments above its first setting that no
/// blank line parts from it, in order.
pub proof fn header_is_the_comments_above(ls: Seq<Seq<char>>, k: int)
    requires
        ls.len() <= usize::MAX,
        0 <= k < blocks_from(ls, 0).len(),
    ensures
        exists|cs: Seq<usize>|
            {
                &&& #[trigger] in_order(cs, 0, blocks_from(ls, 0)[k].1[0] as int)
                &&& forall|q: usize| #[trigger]
                    cs.contains(q) <==> heads(ls, blocks_from(ls, 0)[k].1[0] as int, q as int)
                &&& blocks_from(ls, 0)[k].0 == cs.map_values(|p: usize| ls[p as int])
            },
{
    let cs = lemma_header(ls, 0, k);
    assert(in_order(cs, 0, blocks_from(ls, 0)[k].1[0] as int));
}

/// The lines that are shown for the words from the start of a run on.
proof fn lemma_shown_from(
    ls: Seq<Seq<char>>,
    keys: Seq<Option<Seq<char>>>,
    ws: Seq<Seq<char>>,
    i: int,
    values: Seq<(String, String)>,
    raw: Map<Seq<char>, Seq<char>>,
)
    requires
        0 <= i <= ls.len() <= usize::MAX,
        i == 0 || is_blank(ls[i - 1]),
    ensures
        in_order(shown_from(ls, keys, ws, i), i, ls.len() as int),
        filtered_upto(
            blocks_from(ls, i),
            blocks_from(ls, i).len() as int,
            ls,
            keys,
            ws,
            values,
            raw,
        ) == shown_from(ls, keys, ws, i).map_values(
            |p: usize| shown_line(ls[p as int], values, raw),
        ),
        forall|q: usize| #[trigger]
            shown_from(ls, keys, ws, i).contains(q) <==> i <= q < ls.len() && ((selectable(
                ls[q as int],
            ) && key_matches(keys[q as int], ws)) || heads_a_match(
                blocks_from(ls, i),
                ls,
                keys,
                ws,
                q as int,
            )),
    decreases ls.len() - i,
{
    let n: int = ls.len() as int;
    let f = |p: usize| shown_line(ls[p as int], values, raw);
    let bs = blocks_from(ls, i);
    let at = shown_from(ls, keys, ws, i);
    if i >= n {
        assert(at.map_values(f) =~= Seq::<Seq<char>>::empty());
    } else if is_blank(ls[i]) {
        lemma_shown_from(ls, keys, ws, i + 1, values, raw);
        assert forall|q: usize| #[trigger] at.contains(q) <==> i <= q < n && ((selectable(
            ls[q as int],
        ) && key_matches(keys[q as int], ws)) || heads_a_match(bs, ls, keys, ws, q as int)) by {
            if q == i {
                assert(!selectable(ls[i]));
                assert(!is_comment(ls[i]));
            }
        }
    } else {
        lemma_run_end(ls, i);
        let j = run_end(ls, i);
        let es = selectable_between(ls, i, j);
        let m = matching(es, keys, ws);
        let rest = if j < n {
            blocks_from(ls, j + 1)
        } else {
            seq![]
        };
        let rs = if j < n {
            shown_from(ls, keys, ws, j + 1)
        } else {
            seq![]
        };
        lemma_between_in_order(ls, i, j);
        if j < n {
            lemma_shown_from(ls, keys, ws, j + 1, values, raw);
            lemma_blocks_start_behind(ls, j + 1);
        } else {
            assert(rs.map_values(f) =~= Seq::<Seq<char>>::empty());
        }
        assert(in_order(rs, j, n));
        let more = filtered_upto(rest, rest.len() as int, ls, keys, ws, values, raw);
        assert(more == rs.map_values(f));
        if es.len() > 0 {
            let first = es[0] as int;
            let cs = comment_places(ls, i, first);
            let b = bs[0];
            assert(bs =~= seq![b] + rest);
            assert(b == (comments_between(ls, i, first), es));
            lemma_filtered_behind(b, rest, rest.len() as int, ls, keys, ws, values, raw);
            lemma_comment_places(ls, i, first, values, raw);
            assert(in_order(es, first, j));
            lemma_matching_in_order(es, keys, ws, first, j);
            lemma_in_order_joins(cs, m, i, first, j);
            lemma_in_order_joins(cs + m, rs, i, j, n);
            lemma_join_contains(cs, m);
            lemma_join_contains(cs + m, rs);
            if m.len() > 0 {
                assert(at.map_values(f) =~= (cs.map_values(f) + m.map_values(f)) + rs.map_values(
                    f,
                ));
            } else {
                assert(Seq::<Seq<char>>::empty() + more =~= more);
            }
        } else {
            assert(m.len() == 0);
        }
        assert forall|q: usize| #[trigger] at.contains(q) <==> i <= q < n && ((selectable(
            ls[q as int],
        ) && key_matches(keys[q as int], ws)) || heads_a_match(bs, ls, keys, ws, q as int)) by {
            lemma_matching_contains(es, keys, ws, q);
            assert(es.contains(q) <==> i <= q < j && selectable(ls[q as int]));
            if m.contains(q) {
                assert(m.len() > 0);
            }
            if es.len() > 0 {
                lemma_heads_behind(bs[0], rest, ls, keys, ws, q as int);
                assert(comment_places(ls, i, es[0] as int).contains(q) <==> i <= q < es[0]
                    && is_comment(ls[q as int]));
                if heads(ls, es[0] as int, q as int) {
                    if q < i {
                        assert(is_blank(ls[i - 1]));
                    }
                }
            }
            // A block behind the run has no comment in it.
            if heads_a_match(rest, ls, keys, ws, q as int) && q <= j {
                let k = choose|k: int|
                    0 <= k < rest.len() && matching((#[trigger] rest[k]).1, keys, ws).len() > 0
                        && heads(ls, rest[k].1[0] as int, q as int);
                assert(j < rest[k].1[0]);
                assert(is_blank(ls[j]));
            }
            if rs.contains(q) {
                let k = choose|k: int| 0 <= k < rs.len() && rs[k] == q;
                assert(j <= rs[k]);
            }
            if j < n {
                assert(rs.contains(q) <==> j + 1 <= q < n && ((selectable(ls[q as int])
                    && key_matches(keys[q as int], ws)) || heads_a_match(
                    rest,
                    ls,
                    keys,
                    ws,
                    q as int,
                )));
                if q == j {
                    assert(!selectable(ls[j]));
                    assert(!is_comment(ls[j]));
                }
            }
        }
    }
}

/// Without a filter the help shows all lines. A filter leaves some of them, in
/// the same order and with the same text: the settings whose keys hold every
/// word of it, and the header of each block that holds such a setting.
pub proof fn filtered_lines_are_among_all(
    filter: Seq<char>,
    ls: Seq<Seq<char>>,
    values: Seq<(String, String)>,
    raw: Map<Seq<char>, Seq<char>>,
)
    requires
        ls.len() <= usize::MAX,
    ensures
        ({
            let all = ls.map_values(|l: Seq<char>| shown_line(l, values, raw));
            let shown = visible_lines(filter, ls, values, raw);
            let at = shown_places(filter, ls);
            let ws = filter_words(filter);
            if trimmed(filter).len() == 0 {
                shown == all
            } else {
                &&& shown == at.map_values(|p: usize| all[p as int])
                &&& in_order(at, 0, ls.len() as int)
                &&& forall|q: usize| #[trigger]
                    at.contains(q) <==> q < ls.len() && ((selectable(ls[q as int]) && key_matches(
                        Some(lowercase(key_of(ls[q as int])->0)),
                        ws,
                    )) || heads_a_match(blocks_from(ls, 0), ls, lower_keys(ls), ws, q as int))
            }
        }),
{
    if trimmed(filter).len() > 0 {
        let ws = filter_words(filter);
        let keys = lower_keys(ls);
        let at = shown_places(filter, ls);
        let all = ls.map_values(|l: Seq<char>| shown_line(l, values, raw));
        lemma_shown_from(ls, keys, ws, 0, values, raw);
        assert forall|k: int| 0 <= k < at.len() implies all[#[trigger] at[k] as int] == shown_line(
            ls[at[k] as int],
            values,
            raw,
        ) by {}
        assert(visible_lines(filter, ls, values, raw) =~= at.map_values(|p: usize| all[p as int]));
    }
}

proof fn lemma_no_match(
    bs: Seq<(Seq<Seq<char>>, Seq<usize>)>,
    n: int,
    ls: Seq<Seq<char>>,
    keys: Seq<Option<Seq<char>>>,
    ws: Seq<Seq<char>>,
    values: Seq<(String, String)>,
    raw: Map<Seq<char>, Seq<char>>,
)
    requires
        0 <= n <= bs.len(),
        matching(entries_upto(bs, n), keys, ws).len() == 0,
    ensures
        filtered_upto(bs, n, ls, keys, ws, values, raw).len() == 0,
        rows_of_blocks(bs, n, keys, ws).len() == 0,
    decreases n,
{
    if n > 0 {
        lemma_matching_joins(entries_upto(bs, n - 1), bs[n - 1].1, keys, ws);
        lemma_no_match(bs, n - 1, ls, keys, ws, values, raw);
    }
}

/// A filter that no key matches leaves no setting, no line and no row.
pub proof fn filter_without_a_match_shows_nothing(
    filter: Seq<char>,
    ls: Seq<Seq<char>>,
    values: Seq<(String, String)>,
    raw: Map<Seq<char>, Seq<char>>,
)
    requires
        trimmed(filter).len() > 0,
        ls.len() <= usize::MAX,
        forall|i: int|
            0 <= i < ls.len() && selectable(#[trigger] ls[i]) ==> !key_matches(
                Some(lowercase(key_of(ls[i])->0)),
                filter_words(filter),
            ),
    ensures
        help_places(filter, ls).len() == 0,
        visible_lines(filter, ls, values, raw).len() == 0,
        help_rows_of(filter, ls).len() == 0,
{
    let at = help_places(filter, ls);
    if at.len() > 0 {
        crate::picker_help::lemma_places_set_keys(filter, ls);
        let i = at[0] as int;
        assert(at.contains(at[0]));
        filter_leaves_what_matches(filter, ls, i);
        assert(selectable(ls[i]));
    }
    let bs = blocks_from(ls, 0);
    blocks_hold_every_setting(ls);
    lemma_no_match(
        bs,
        bs.len() as int,
        ls,
        lower_keys(ls),
        filter_words(filter),
        values,
        raw,
    );
}

// ---------------------------------------------------------------------
// What a filter leaves, line by line
// ---------------------------------------------------------------------
/// Every word of the filter occurs in the key, whatever the case of either.
pub open spec fn holds_the_words(key: Seq<char>, filter: Seq<char>) -> bool {
    forall|j: int|
        0 <= j < words_of(lowercase(trimmed(filter))).len() ==> occurs(
            lowercase(key),
            #[trigger] words_of(lowercase(trimmed(filter)))[j],
        )
}

/// The lines from `a` to before `b` are a run: none of them is blank, and it
/// does not go on at either end.
pub open spec fn is_run(ls: Seq<Seq<char>>, a: int, b: int) -> bool {
    &&& 0 <= a < b <= ls.len()
    &&& forall|l: int| a <= l < b ==> !is_blank(#[trigger] ls[l])
    &&& a == 0 || is_blank(ls[a - 1])
    &&& b == ls.len() || is_blank(ls[b])
}

/// Each block is what a run sets.
proof fn lemma_block_is_a_run(ls: Seq<Seq<char>>, i: int, k: int) -> (ends: (int, int))
    requires
        0 <= i <= ls.len() <= usize::MAX,
        i == 0 || is_blank(ls[i - 1]),
        0 <= k < blocks_from(ls, i).len(),
    ensures
        i <= ends.0,
        is_run(ls, ends.0, ends.1),
        blocks_from(ls, i)[k].1 == selectable_between(ls, ends.0, ends.1),
        blocks_from(ls, i)[k].1.len() > 0,
    decreases ls.len() - i,
{
    let bs = blocks_from(ls, i);
    if is_blank(ls[i]) {
        lemma_block_is_a_run(ls, i + 1, k)
    } else {
        lemma_run_end(ls, i);
        let j = run_end(ls, i);
        let es = selectable_between(ls, i, j);
        let rest = if j < ls.len() {
            blocks_from(ls, j + 1)
        } else {
            seq![]
        };
        if es.len() == 0 {
            assert(bs == rest);
            lemma_block_is_a_run(ls, j + 1, k)
        } else if k > 0 {
            assert(bs[k] == rest[k - 1]);
            lemma_block_is_a_run(ls, j + 1, k - 1)
        } else {
            (i, j)
        }
    }
}

/// Each line that sets a key is in a block.
proof fn lemma_setting_is_in_a_block(ls: Seq<Seq<char>>, i: int, m: int) -> (k: int)
    requires
        0 <= i <= m < ls.len() <= usize::MAX,
        selectable(ls[m]),
    ensures
        0 <= k < blocks_from(ls, i).len(),
        blocks_from(ls, i)[k].1.contains(m as usize),
    decreases ls.len() - i,
{
    let bs = blocks_from(ls, i);
    if is_blank(ls[i]) {
        lemma_setting_is_in_a_block(ls, i + 1, m)
    } else {
        lemma_run_end(ls, i);
        let j = run_end(ls, i);
        let es = selectable_between(ls, i, j);
        lemma_between_in_order(ls, i, j);
        let rest = if j < ls.len() {
            blocks_from(ls, j + 1)
        } else {
            seq![]
        };
        if m < j {
            assert(es.contains(m as usize));
            0
        } else {
            let k = lemma_setting_is_in_a_block(ls, j + 1, m);
            if es.len() > 0 {
                assert(bs[k + 1] == rest[k]);
                k + 1
            } else {
                k
            }
        }
    }
}

/// The settings of a block stand together: no blank line is among them, and one
/// parts each block from the next.
pub proof fn blank_lines_part_the_blocks(ls: Seq<Seq<char>>, k: int, x: usize, y: usize)
    requires
        ls.len() <= usize::MAX,
        0 <= k < blocks_from(ls, 0).len(),
        blocks_from(ls, 0)[k].1.contains(x),
        x < ls.len(),
        y < ls.len(),
        selectable(ls[y as int]),
    ensures
        blocks_from(ls, 0)[k].1.contains(y) <==> forall|l: int|
            (x <= l <= y || y <= l <= x) ==> !is_blank(#[trigger] ls[l]),
{
    let (a, b) = lemma_block_is_a_run(ls, 0, k);
    lemma_between_in_order(ls, a, b);
    assert(a <= x < b);
    if !(a <= y < b) {
        if y < a {
            assert(is_blank(ls[a - 1]));
        } else {
            assert(is_blank(ls[b]));
        }
    }
}

/// The comment at `q` is above the first setting of a run, and the run holds a
/// setting with the words of the filter.
pub open spec fn is_above_a_match(ls: Seq<Seq<char>>, filter: Seq<char>, q: int) -> bool {
    &&& is_comment(ls[q])
    &&& exists|m: int|
        {
            &&& q < m < ls.len()
            &&& selectable(#[trigger] ls[m])
            &&& holds_the_words(key_of(ls[m])->0, filter)
            &&& forall|l: int| q <= l <= m ==> !is_blank(#[trigger] ls[l])
        }
    &&& forall|s: int|
        0 <= s < q && selectable(#[trigger] ls[s]) ==> exists|l: int|
            s <= l <= q && is_blank(#[trigger] ls[l])
}

proof fn lemma_key_matches(key: Seq<char>, filter: Seq<char>)
    ensures
        key_matches(Some(lowercase(key)), filter_words(filter)) <==> holds_the_words(key, filter),
{
}

proof fn lemma_heads_a_match(ls: Seq<Seq<char>>, filter: Seq<char>, q: int)
    requires
        0 <= q < ls.len() <= usize::MAX,
    ensures
        heads_a_match(blocks_from(ls, 0), ls, lower_keys(ls), filter_words(filter), q)
            <==> is_above_a_match(ls, filter, q),
{
    let bs = blocks_from(ls, 0);
    let keys = lower_keys(ls);
    let ws = filter_words(filter);
    if heads_a_match(bs, ls, keys, ws, q) {
        let k: int = choose|k: int|
            0 <= k < bs.len() && matching((#[trigger] bs[k]).1, keys, ws).len() > 0 && heads(
                ls,
                bs[k].1[0] as int,
                q,
            );
        let es = bs[k].1;
        let (a, b) = lemma_block_is_a_run(ls, 0, k);
        lemma_between_in_order(ls, a, b);
        let first = es[0] as int;
        let m = matching(es, keys, ws)[0];
        crate::picker_help::lemma_matching_within(es, keys, ws);
        assert(es.contains(m));
        assert(matching(es, keys, ws).contains(m));
        lemma_matching_contains(es, keys, ws, m);
        lemma_key_matches(key_of(ls[m as int])->0, filter);
        assert(first <= m) by {
            let x: int = choose|x: int| 0 <= x < es.len() && es[x] == m;
            if x > 0 {
                assert(es[0] < es[x]);
            }
        }
        assert(es.contains(es[0]));
        assert forall|l: int| q <= l <= m implies !is_blank(#[trigger] ls[l]) by {}
        assert(selectable(ls[m as int]));
        assert forall|s: int| 0 <= s < q && selectable(#[trigger] ls[s]) implies exists|l: int|
            s <= l <= q && is_blank(#[trigger] ls[l]) by {
            if forall|l: int| s <= l <= q ==> !is_blank(#[trigger] ls[l]) {
                if s < a {
                    assert(is_blank(ls[a - 1]));
                    assert(!is_blank(ls[a - 1])) by {
                        if a - 1 > q {
                            assert(q <= a - 1 < first);
                        }
                    }
                }
                assert(es.contains(s as usize));
                let x: int = choose|x: int| 0 <= x < es.len() && es[x] == s as usize;
                if x > 0 {
                    assert(es[0] < es[x]);
                }
            }
        }
    }
    if is_above_a_match(ls, filter, q) {
        let m: int = choose|m: int|
            {
                &&& q < m < ls.len()
                &&& selectable(#[trigger] ls[m])
                &&& holds_the_words(key_of(ls[m])->0, filter)
                &&& forall|l: int| q <= l <= m ==> !is_blank(#[trigger] ls[l])
            };
        let k = lemma_setting_is_in_a_block(ls, 0, m);
        let es = bs[k].1;
        let (a, b) = lemma_block_is_a_run(ls, 0, k);
        lemma_between_in_order(ls, a, b);
        lemma_key_matches(key_of(ls[m])->0, filter);
        lemma_matching_contains(es, keys, ws, m as usize);
        assert(matching(es, keys, ws).contains(m as usize));
        let first = es[0] as int;
        assert(es.contains(es[0]));
        if q < a {
            assert(is_blank(ls[a - 1]));
        }
        assert(first <= m) by {
            let x: int = choose|x: int| 0 <= x < es.len() && es[x] == m as usize;
            if x > 0 {
                assert(es[0] < es[x]);
            }
        }
        assert(q < first) by {
            if first <= q {
                assert(selectable(ls[first]));
                if first < q {
                    let l: int = choose|l: int| first <= l <= q && is_blank(#[trigger] ls[l]);
                    assert(a <= l < b);
                }
            }
        }
        assert(heads(ls, first, q));
    }
}

/// What a filter leaves of the help are the lines at the places `at`, in order:
/// the settings whose keys hold every word of it, and the comments above the
/// first setting of a run of lines that holds such a setting.
pub proof fn a_filter_leaves_settings_and_their_comments(
    filter: Seq<char>,
    ls: Seq<Seq<char>>,
    values: Seq<(String, String)>,
    raw: Map<Seq<char>, Seq<char>>,
) -> (at: Seq<usize>)
    requires
        trimmed(filter).len() > 0,
        ls.len() <= usize::MAX,
    ensures
        forall|x: int, y: int| 0 <= x < y < at.len() ==> at[x] < at[y],
        forall|q: usize| #[trigger]
            at.contains(q) <==> q < ls.len() && ((selectable(ls[q as int]) && holds_the_words(
                key_of(ls[q as int])->0,
                filter,
            )) || is_above_a_match(ls, filter, q as int)),
        visible_lines(filter, ls, values, raw).len() == at.len(),
        forall|x: int|
            0 <= x < at.len() ==> #[trigger] visible_lines(filter, ls, values, raw)[x] == shown_line(
                ls[at[x] as int],
                values,
                raw,
            ),
{
    filtered_lines_are_among_all(filter, ls, values, raw);
    let at = shown_places(filter, ls);
    assert forall|q: usize| #[trigger]
        at.contains(q) <==> q < ls.len() && ((selectable(ls[q as int]) && holds_the_words(
            key_of(ls[q as int])->0,
            filter,
        )) || is_above_a_match(ls, filter, q as int)) by {
        if q < ls.len() {
            lemma_key_matches(key_of(ls[q as int])->0, filter);
            lemma_heads_a_match(ls, filter, q as int);
        }
    }
    at
}

/// Without a filter each line of the template is shown, in its place; each that
/// sets a key has a row with a number, counted from 0, and no other line has
/// one.
pub proof fn without_a_filter_all_is_shown(
    filter: Seq<char>,
    ls: Seq<Seq<char>>,
    values: Seq<(String, String)>,
    raw: Map<Seq<char>, Seq<char>>,
    i: int,
)
    requires
        all_white(filter),
        0 <= i < ls.len() <= usize::MAX,
    ensures
        visible_lines(filter, ls, values, raw).len() == ls.len(),
        visible_lines(filter, ls, values, raw)[i] == shown_line(ls[i], values, raw),
        help_rows_of(filter, ls).len() == ls.len(),
        help_rows_of(filter, ls)[i] is Some <==> selectable(ls[i]),
        help_rows_of(filter, ls)[i] matches Some(k) ==> k < help_places(filter, ls).len()
            && help_places(filter, ls)[k as int] == i,
        help_places(filter, ls).contains(i as usize) <==> selectable(ls[i]),
{
    lemma_all_white(filter);
    crate::help::lemma_selectable_upto(ls, ls.len() as int);
    lemma_selectable_counts(ls, i, ls.len() as int);
}

/// The settings that a filter leaves are in the order of the template. One is
/// left exactly if every word of the filter occurs in its key, whatever the case
/// of either.
pub proof fn a_filter_goes_by_the_words(filter: Seq<char>, ls: Seq<Seq<char>>, i: int)
    requires
        !all_white(filter),
        0 <= i < ls.len() <= usize::MAX,
    ensures
        help_places(filter, ls).contains(i as usize) <==> selectable(ls[i]) && holds_the_words(
            key_of(ls[i])->0,
            filter,
        ),
        forall|x: int, y: int|
            0 <= x < y < help_places(filter, ls).len() ==> help_places(filter, ls)[x]
                < help_places(filter, ls)[y],
{
    let (a, b) = lemma_core_exists(filter);
    lemma_core(filter, a, b);
    filter_leaves_what_matches(filter, ls, i);
    lemma_key_matches(key_of(ls[i])->0, filter);
    crate::help::lemma_selectable_upto(ls, ls.len() as int);
    let all = selectable_upto(ls, ls.len() as int);
    assert(in_order(all, 0, ls.len() as int));
    lemma_matching_in_order(all, lower_keys(ls), filter_words(filter), 0, ls.len() as int);
}

/// A line is blank exactly if it holds nothing but white space.
pub proof fn blank_is_white_space(l: Seq<char>)
    ensures
        is_blank(l) <==> all_white(l),
{
    let (a, b) = lemma_core_exists(l);
    if all_white(l) {
        lemma_all_white(l);
    } else {
        lemma_core(l, a, b);
    }
}

// ---------------------------------------------------------------------
// What is shown of a setting
// ---------------------------------------------------------------------
/// The first pair of a key gives its value, and a key without a pair has none.
pub proof fn the_first_pair_of_a_key_counts(values: Seq<(String, String)>, k: Seq<char>, i: int)
    requires
        0 <= i <= values.len(),
        forall|j: int| 0 <= j < i ==> (#[trigger] values[j]).0@ != k,
        i < values.len() ==> values[i].0@ == k,
    ensures
        i < values.len() ==> value_in(values, k) == Some(values[i].1@),
        i == values.len() ==> value_in(values, k) is None,
    decreases values.len(),
{
    if i > 0 {
        let d = values.drop_first();
        assert(values[0].0@ != k);
        assert forall|j: int| 0 <= j < i - 1 implies (#[trigger] d[j]).0@ != k by {
            assert(d[j] == values[j + 1]);
        }
        if i < values.len() {
            assert(d[i - 1] == values[i]);
        }
        the_first_pair_of_a_key_counts(d, k, i - 1);
    }
}

/// The line of a key shows what the file sets it to; else the value in use, with
/// the comment of the template; else the line of the template as it is.
pub proof fn the_file_counts_more_than_the_value_in_use(
    x: Seq<char>,
    k: Seq<char>,
    y: Seq<char>,
    v: Seq<char>,
    c: Seq<char>,
    values: Seq<(String, String)>,
    raw: Map<Seq<char>, Seq<char>>,
)
    requires
        all_white(x),
        all_white(y),
        plain_key(k),
        !v.contains('#'),
    ensures
        ({
            let bare = x + k + y + seq!['='] + v;
            let line = bare + seq!['#'] + c;
            let eq = seq![' ', '=', ' '];
            &&& raw.contains_key(k) ==> shown_line(line, values, raw) == k + eq + raw[k]
            &&& raw.contains_key(k) ==> shown_line(bare, values, raw) == k + eq + raw[k]
            &&& !raw.contains_key(k) && value_in(values, k) is Some ==> shown_line(line, values, raw)
                == k + eq + value_in(values, k)->0 + seq![' '] + trimmed(seq!['#'] + c)
            &&& !raw.contains_key(k) && value_in(values, k) is Some ==> shown_line(bare, values, raw)
                == k + eq + value_in(values, k)->0
            &&& !raw.contains_key(k) && value_in(values, k) is None ==> shown_line(line, values, raw)
                == line
            &&& !raw.contains_key(k) && value_in(values, k) is None ==> shown_line(bare, values, raw)
                == bare
        }),
{
    let bare = x + k + y + seq!['='] + v;
    let line = bare + seq!['#'] + c;
    let m = Map::<Seq<char>, Seq<char>>::empty();
    let before = x + k + y;
    assert(line =~= x + k + y + seq!['='] + (v + seq!['#'] + c));
    a_line_sets_its_key(x, k, y, v, m, k);
    a_line_sets_its_key(x, k, y, v + seq!['#'] + c, m, k);
    assert(!before.contains('=')) by {
        if before.contains('=') {
            let i: int = choose|i: int| 0 <= i < before.len() && before[i] == '=';
            if i < x.len() {
                assert(is_white(x[i]));
            } else if i < x.len() + k.len() {
                assert(k[i - x.len()] == '=');
            } else {
                assert(is_white(y[i - x.len() - k.len()]));
            }
        }
    }
    assert(line =~= before + seq!['='] + v + seq!['#'] + c);
    assert(bare =~= before + seq!['='] + v);
    the_comment_starts_at_its_sign(before, v, c);
    without_its_sign_there_is_no_comment(before, v);
}

/// A line that sets no key is shown as it is.
pub proof fn other_lines_are_shown_as_they_are(
    l: Seq<char>,
    values: Seq<(String, String)>,
    raw: Map<Seq<char>, Seq<char>>,
)
    requires
        key_of(l) is None,
    ensures
        shown_line(l, values, raw) == l,
{
}

/// The value that an editing starts from is the one in the file, else the one in
/// use, and else nothing; what stands from its first `#` on is left out.
pub proof fn an_editing_starts_from_the_value(
    k: Seq<char>,
    values: Seq<(String, String)>,
    raw: Map<Seq<char>, Seq<char>>,
    v: Seq<char>,
    c: Seq<char>,
)
    requires
        !v.contains('#'),
    ensures
        raw.contains_key(k) && raw[k] == v ==> value_to_edit(k, values, raw) == trimmed(v),
        raw.contains_key(k) && raw[k] == v + seq!['#'] + c ==> value_to_edit(k, values, raw)
            == trimmed(v),
        !raw.contains_key(k) && value_in(values, k) == Some(v) ==> value_to_edit(k, values, raw)
            == trimmed(v),
        !raw.contains_key(k) && value_in(values, k) == Some(v + seq!['#'] + c) ==> value_to_edit(
            k,
            values,
            raw,
        ) == trimmed(v),
        !raw.contains_key(k) && value_in(values, k) is None ==> value_to_edit(k, values, raw).len()
            == 0,
{
    let s = v + seq!['#'] + c;
    assert forall|i: int| 0 <= i < v.len() implies v[i] != '#' && s[i] != '#' by {
        assert(v.contains(v[i]));
    }
    lemma_position_at(v, '#', v.len() as int);
    lemma_position_at(s, '#', v.len() as int);
    assert(v.take(v.len() as int) =~= v);
    assert(s.take(v.len() as int) =~= v);
    let none = Seq::<char>::empty();
    lemma_position_at(none, '#', 0);
    assert(none.take(0) =~= none);
    lemma_all_white(none);
}

} // verus!
