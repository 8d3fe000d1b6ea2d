//! What holds of the user's file before and after a surgical edit.

use crate::edit::{
    any_names, any_selectable, deleted, edited, ends_line, first_naming, lemma_first_naming,
    names_key, rewritten, temp_path, unlines, without_key, write_failure, written,
};
use crate::help::{assignment, is_idle, key_of, raw_of, raw_step, selectable, suffix_of};
use crate::path::{the_name_is_behind_the_last_slash, the_stem_is_before_the_last_dot};
use crate::text::{
    chomp, is_white, joined, lemma_position, lemma_position_at, lemma_strip, lemma_strip_end_at,
    lemma_strip_start_at, lines_follow_each_other, lines_of, one_line_is_one_line, position,
    split_once, split_once_takes_apart, trimmed,
};
use vstd::prelude::*;

verus! {

// ---------------------------------------------------------------------
// Trimming
// ---------------------------------------------------------------------
/// The white space predicate, as trimming uses it.
pub open spec fn space() -> spec_fn(char) -> bool {
    |c: char| is_white(c)
}

/// Every character is white space.
pub open spec fn all_white(s: Seq<char>) -> bool {
    forall|i: int| 0 <= i < s.len() ==> is_white(#[trigger] s[i])
}

/// `a` and `b` are the ends of what trimming leaves of `s`.
pub open spec fn is_core(s: Seq<char>, a: int, b: int) -> bool {
    &&& 0 <= a < b <= s.len()
    &&& forall|i: int| 0 <= i < a ==> is_white(#[trigger] s[i])
    &&& forall|i: int| b <= i < s.len() ==> is_white(#[trigger] s[i])
    &&& !is_white(s[a])
    &&& !is_white(s[b - 1])
}

/// Trimming leaves what lies between the outermost characters that are no
/// white space.
pub proof fn lemma_core(s: Seq<char>, a: int, b: int)
    requires
        is_core(s, a, b),
    ensures
        trimmed(s) == s.subrange(a, b),
{
    let p = space();
    lemma_strip_start_at(s, p, a);
    let t = s.skip(a);
    assert forall|i: int| b - a <= i < t.len() implies p(#[trigger] t[i]) by {
        assert(is_white(s[i + a]));
    }
    assert(!p(t[b - a - 1]));
    lemma_strip_end_at(t, p, b - a);
    assert(t.take(b - a) =~= s.subrange(a, b));
}

/// Of white space alone, trimming leaves nothing.
pub proof fn lemma_all_white(s: Seq<char>)
    requires
        all_white(s),
    ensures
        trimmed(s) == Seq::<char>::empty(),
{
    let p = space();
    lemma_strip_start_at(s, p, s.len() as int);
    assert(s.skip(s.len() as int) =~= Seq::<char>::empty());
}

/// A text is white space alone or has a core.
pub proof fn lemma_core_exists(s: Seq<char>) -> (ends: (int, int))
    ensures
        all_white(s) || is_core(s, ends.0, ends.1),
    decreases s.len(),
{
    if s.len() == 0 {
        (0, 0)
    } else if all_white(s) {
        (0, 0)
    } else {
        let t = s.drop_last();
        let (a, b) = lemma_core_exists(t);
        if all_white(t) {
            assert forall|i: int| 0 <= i < s.len() - 1 implies is_white(#[trigger] s[i]) by {
                assert(t[i] == s[i]);
            }
            assert(!is_white(s.last()));
            (s.len() - 1, s.len() as int)
        } else {
            assert forall|i: int| 0 <= i < a implies is_white(#[trigger] s[i]) by {
                assert(t[i] == s[i]);
            }
            assert(t[a] == s[a] && t[b - 1] == s[b - 1]);
            if is_white(s.last()) {
                assert forall|i: int| b <= i < s.len() implies is_white(#[trigger] s[i]) by {
                    if i < s.len() - 1 {
                        assert(t[i] == s[i]);
                    }
                }
                (a, b)
            } else {
                (a, s.len() as int)
            }
        }
    }
}

/// White space around a text is trimmed away.
pub proof fn lemma_trim_around(x: Seq<char>, s: Seq<char>, y: Seq<char>)
    requires
        all_white(x),
        all_white(y),
    ensures
        trimmed(x + s + y) == trimmed(s),
{
    let w = x + s + y;
    let (a, b) = lemma_core_exists(s);
    if all_white(s) {
        assert forall|i: int| 0 <= i < w.len() implies is_white(#[trigger] w[i]) by {
            if i < x.len() {
                assert(w[i] == x[i]);
            } else if i < x.len() + s.len() {
                assert(w[i] == s[i - x.len()]);
            } else {
                assert(w[i] == y[i - x.len() - s.len()]);
            }
        }
        lemma_all_white(w);
        lemma_all_white(s);
    } else {
        let n: int = x.len() as int;
        assert forall|i: int| 0 <= i < a + n implies is_white(#[trigger] w[i]) by {
            if i < n {
                assert(w[i] == x[i]);
            } else {
                assert(w[i] == s[i - n]);
            }
        }
        assert forall|i: int| b + n <= i < w.len() implies is_white(#[trigger] w[i]) by {
            if i < n + s.len() {
                assert(w[i] == s[i - n]);
            } else {
                assert(w[i] == y[i - n - s.len()]);
            }
        }
        assert(w[a + n] == s[a] && w[b + n - 1] == s[b - 1]);
        lemma_core(w, a + n, b + n);
        lemma_core(s, a, b);
        assert(w.subrange(a + n, b + n) =~= s.subrange(a, b));
    }
}

/// The carriage return at the end of a line is trimmed away with the rest.
pub proof fn lemma_trim_chomp(l: Seq<char>)
    ensures
        trimmed(chomp(l)) == trimmed(l),
{
    if l.len() > 0 && l.last() == '\r' {
        lemma_trim_around(Seq::<char>::empty(), l.drop_last(), seq!['\r']);
        assert(Seq::<char>::empty() + l.drop_last() + seq!['\r'] =~= l);
    }
}

// ---------------------------------------------------------------------
// Lines to text and back
// ---------------------------------------------------------------------
/// No line holds a line feed.
pub open spec fn line_free(ls: Seq<Seq<char>>) -> bool {
    forall|i: int| 0 <= i < ls.len() ==> !(#[trigger] ls[i]).contains('\n')
}

/// The lines as they read back from a text: a carriage return before a line
/// feed belongs to the line ending.
pub open spec fn reread(ls: Seq<Seq<char>>, closed: bool) -> Seq<Seq<char>> {
    Seq::new(
        ls.len(),
        |i: int|
            if i + 1 < ls.len() || closed {
                chomp(ls[i])
            } else {
                ls[i]
            },
    )
}

proof fn lemma_joined_front(ls: Seq<Seq<char>>, sep: Seq<char>)
    requires
        ls.len() >= 2,
    ensures
        joined(ls, sep) == ls[0] + sep + joined(ls.drop_first(), sep),
    decreases ls.len(),
{
    let r = ls.drop_first();
    if ls.len() == 2 {
        assert(ls.drop_last()[0] == ls[0]);
        assert(joined(ls.drop_last(), sep) == ls[0]);
        assert(r[0] == ls[1]);
    } else {
        lemma_joined_front(ls.drop_last(), sep);
        assert(ls.drop_last().drop_first() =~= r.drop_last());
        assert(r.last() == ls.last());
        assert(joined(r, sep) == joined(r.drop_last(), sep) + sep + r.last());
        assert((ls[0] + sep + joined(r.drop_last(), sep)) + sep + ls.last() =~= ls[0] + sep + (
        joined(r.drop_last(), sep) + sep + ls.last()));
    }
}

proof fn lemma_lines_first(a: Seq<char>, rest: Seq<char>)
    requires
        !a.contains('\n'),
    ensures
        lines_of(a + seq!['\n'] + rest) == seq![chomp(a)] + lines_of(rest),
{
    let s = a + seq!['\n'] + rest;
    assert forall|i: int| 0 <= i < a.len() implies s[i] != '\n' by {
        assert(s[i] == a[i]);
    }
    lemma_position_at(s, '\n', a.len() as int);
    assert(s.take(a.len() as int) =~= a);
    assert(s.skip(a.len() as int + 1) =~= rest);
}

/// Lines put together as a text read back as lines.
pub proof fn lemma_unlines(ls: Seq<Seq<char>>, closed: bool)
    requires
        line_free(ls),
        ls.len() > 0,
        closed || ls.last().len() > 0,
    ensures
        lines_of(unlines(ls, closed)) == reread(ls, closed),
    decreases ls.len(),
{
    let nl = seq!['\n'];
    if ls.len() == 1 {
        let a = ls[0];
        if closed {
            assert(unlines(ls, closed) =~= a + nl + Seq::<char>::empty());
            lemma_lines_first(a, Seq::<char>::empty());
            assert(seq![chomp(a)] + lines_of(Seq::<char>::empty()) =~= reread(ls, closed));
        } else {
            lemma_position(a, '\n');
            if position(a, '\n') < a.len() {
                assert(a[position(a, '\n')] == '\n');
            }
            assert(seq![a] =~= reread(ls, closed));
        }
    } else {
        let r = ls.drop_first();
        assert forall|i: int| 0 <= i < r.len() implies !(#[trigger] r[i]).contains('\n') by {
            assert(r[i] == ls[i + 1]);
        }
        lemma_unlines(r, closed);
        lemma_joined_front(ls, nl);
        assert(unlines(ls, closed) =~= ls[0] + nl + unlines(r, closed));
        lemma_lines_first(ls[0], unlines(r, closed));
        assert(seq![chomp(ls[0])] + reread(r, closed) =~= reread(ls, closed));
    }
}

/// Lines that are read hold no line feed, and a text that does not end in
/// one has a last line that is not empty.
pub proof fn lemma_lines_free(s: Seq<char>)
    ensures
        line_free(lines_of(s)),
        s.len() > 0 <==> lines_of(s).len() > 0,
        s.len() > 0 && !ends_line(s) ==> lines_of(s).last().len() > 0,
    decreases s.len(),
{
    lemma_position(s, '\n');
    let p: int = position(s, '\n');
    if s.len() == 0 {
    } else if p < s.len() {
        let rest = s.skip(p + 1);
        lemma_lines_free(rest);
        let ls = lines_of(s);
        let l = chomp(s.take(p));
        assert(!l.contains('\n')) by {
            if l.contains('\n') {
                let i: int = choose|i: int| 0 <= i < l.len() && l[i] == '\n';
                assert(l[i] == s[i]);
            }
        }
        assert forall|i: int| 0 <= i < ls.len() implies !(#[trigger] ls[i]).contains('\n') by {
            if i > 0 {
                assert(ls[i] == lines_of(rest)[i - 1]);
            }
        }
        if !ends_line(s) {
            assert(rest.len() > 0);
            assert(rest.last() == s.last());
            assert(ls.last() == lines_of(rest).last());
        }
    } else {
        assert(!s.contains('\n')) by {
            if s.contains('\n') {
                let i: int = choose|i: int| 0 <= i < s.len() && s[i] == '\n';
                assert(s[i] != '\n');
            }
        }
    }
}

/// Line endings make no difference to what a file sets.
pub proof fn lemma_raw_reread(ls: Seq<Seq<char>>, closed: bool)
    ensures
        raw_of(reread(ls, closed)) == raw_of(ls),
    decreases ls.len(),
{
    if ls.len() > 0 {
        let a = reread(ls, closed);
        assert(a.drop_last() =~= reread(ls.drop_last(), true));
        lemma_raw_reread(ls.drop_last(), true);
        lemma_trim_chomp(ls.last());
    } else {
        assert(reread(ls, closed) =~= ls);
    }
}

// ---------------------------------------------------------------------
// Which keys a line touches
// ---------------------------------------------------------------------
/// A line that names `key` touches no other key.
pub proof fn lemma_step_names(m: Map<Seq<char>, Seq<char>>, line: Seq<char>, key: Seq<char>)
    requires
        names_key(line, key),
    ensures
        raw_step(m, line).remove(key) == m.remove(key),
{
    assert(raw_step(m, line).remove(key) =~= m.remove(key));
}

/// A line that does not name `key` leaves it as it was.
pub proof fn lemma_step_other(m: Map<Seq<char>, Seq<char>>, line: Seq<char>, key: Seq<char>)
    requires
        !names_key(line, key),
    ensures
        raw_step(m, line).contains_key(key) == m.contains_key(key),
        m.contains_key(key) ==> raw_step(m, line)[key] == m[key],
        raw_step(m, line).remove(key) == raw_step(m.remove(key), line),
{
    assert(raw_step(m, line).remove(key) =~= raw_step(m.remove(key), line));
}

proof fn lemma_raw_update(ls: Seq<Seq<char>>, i: int, line: Seq<char>, key: Seq<char>)
    requires
        0 <= i < ls.len(),
        names_key(ls[i], key),
        names_key(line, key),
    ensures
        raw_of(ls.update(i, line)).remove(key) == raw_of(ls).remove(key),
    decreases ls.len(),
{
    let a = ls.update(i, line);
    if i == ls.len() - 1 {
        assert(a.drop_last() =~= ls.drop_last());
        lemma_step_names(raw_of(ls.drop_last()), line, key);
        lemma_step_names(raw_of(ls.drop_last()), ls.last(), key);
    } else {
        assert(a.drop_last() =~= ls.drop_last().update(i, line));
        lemma_raw_update(ls.drop_last(), i, line, key);
        let l = ls.last();
        let m = raw_of(a.drop_last());
        let n = raw_of(ls.drop_last());
        if names_key(l, key) {
            lemma_step_names(m, l, key);
            lemma_step_names(n, l, key);
        } else {
            lemma_step_other(m, l, key);
            lemma_step_other(n, l, key);
        }
    }
}

proof fn lemma_raw_after(ls: Seq<Seq<char>>, i: int, key: Seq<char>)
    requires
        0 <= i < ls.len(),
        forall|j: int| i < j < ls.len() ==> !names_key(#[trigger] ls[j], key),
    ensures
        raw_of(ls).contains_key(key) == raw_of(ls.take(i + 1)).contains_key(key),
        raw_of(ls).contains_key(key) ==> raw_of(ls)[key] == raw_of(ls.take(i + 1))[key],
    decreases ls.len(),
{
    if i == ls.len() - 1 {
        assert(ls.take(i + 1) =~= ls);
    } else {
        let d = ls.drop_last();
        assert forall|j: int| i < j < d.len() implies !names_key(#[trigger] d[j], key) by {
            assert(d[j] == ls[j]);
        }
        lemma_raw_after(d, i, key);
        assert(d.take(i + 1) =~= ls.take(i + 1));
        assert(!names_key(ls[ls.len() - 1], key));
        lemma_step_other(raw_of(d), ls.last(), key);
    }
}

// ---------------------------------------------------------------------
// A line that was written reads back
// ---------------------------------------------------------------------
/// A key that a line of settings can name.
pub open spec fn plain_key(k: Seq<char>) -> bool {
    &&& k.len() > 0
    &&& trimmed(k) == k
    &&& k[0] != '#'
    &&& !k.contains('=')
    &&& !k.contains('\n')
}

/// A line that sets a key, whatever follows the value, reads back as that
/// key and that value.
pub proof fn lemma_assignment_reads(k: Seq<char>, w: Seq<char>)
    requires
        plain_key(k),
    ensures
        !is_idle(assignment(k, w)),
        names_key(assignment(k, w), k),
        split_once(trimmed(assignment(k, w)), '=') is Some,
        trimmed((split_once(trimmed(assignment(k, w)), '=')->0).1) == trimmed(w),
        key_of(assignment(k, w)) == Some(k),
{
    let line = assignment(k, w);
    let n: int = k.len() as int;
    lemma_strip(k, space());
    assert(!is_white(k[0]) && !is_white(k[n - 1]));
    assert(line[0] == k[0]);
    assert(line[n] == ' ' && line[n + 1] == '=' && line[n + 2] == ' ');
    // Where what trimming leaves of the line ends.
    let (a, b) = lemma_core_exists(w);
    let e: int = if all_white(w) {
        n + 2
    } else {
        n + 3 + b
    };
    assert forall|i: int| e <= i < line.len() implies is_white(#[trigger] line[i]) by {
        if i > n + 2 {
            assert(line[i] == w[i - n - 3]);
        }
    }
    assert(!is_white(line[e - 1])) by {
        if !all_white(w) {
            assert(line[e - 1] == w[b - 1]);
        }
    }
    lemma_core(line, 0, e);
    let t = line.subrange(0, e);
    assert(trimmed(line) == t);
    assert(t[0] == k[0]);
    assert forall|i: int| 0 <= i < n + 1 implies t[i] != '=' by {
        if i < n {
            assert(t[i] == k[i]);
            assert(k.contains(k[i]));
        }
    }
    assert(t[n + 1] == '=');
    lemma_position_at(t, '=', n + 1);
    let before = t.take(n + 1);
    let after = t.skip(n + 2);
    assert(before =~= Seq::<char>::empty() + k + seq![' ']);
    lemma_trim_around(Seq::<char>::empty(), k, seq![' ']);
    if all_white(w) {
        assert(after =~= Seq::<char>::empty());
        lemma_all_white(after);
        lemma_all_white(w);
    } else {
        assert(after =~= seq![' '] + w.take(b) + Seq::<char>::empty());
        lemma_trim_around(seq![' '], w.take(b), Seq::<char>::empty());
        assert(w =~= Seq::<char>::empty() + w.take(b) + w.skip(b));
        assert forall|i: int| 0 <= i < w.skip(b).len() implies is_white(#[trigger] w.skip(b)[i]) by {
            assert(w.skip(b)[i] == w[i + b]);
        }
        lemma_trim_around(Seq::<char>::empty(), w.take(b), w.skip(b));
    }
}

/// What follows the value in the line that sets the key.
pub open spec fn tail_of(ls: Seq<Seq<char>>, key: Seq<char>) -> Seq<char> {
    let i = first_naming(ls, key);
    if i < ls.len() && split_once(trimmed(ls[i]), '=') is Some && suffix_of(ls[i]) is Some {
        seq![' '] + suffix_of(ls[i])->0
    } else {
        seq![]
    }
}

/// The lines of the file, if there is one.
pub open spec fn lines_in(existing: Option<Seq<char>>) -> Seq<Seq<char>> {
    match existing {
        Some(content) => lines_of(content),
        None => seq![],
    }
}

/// The line that holds the key after it was written.
pub proof fn lemma_new_line(ls: Seq<Seq<char>>, key: Seq<char>, value: Seq<char>)
    ensures
        0 <= first_naming(ls, key) < edited(ls, key, value).len(),
        edited(ls, key, value)[first_naming(ls, key)] == assignment(key, value + tail_of(ls, key)),
        forall|j: int|
            0 <= j < ls.len() && j != first_naming(ls, key) ==> edited(ls, key, value)[j] == #[trigger] ls[j],
{
    lemma_first_naming(ls, key);
    let i: int = first_naming(ls, key);
    let tail = tail_of(ls, key);
    let l = edited(ls, key, value)[i];
    assert(l =~= assignment(key, value + tail));
}

/// A comment holds no line feed, for the line that it is cut from holds none.
proof fn lemma_suffix_free(line: Seq<char>)
    requires
        suffix_of(line) is Some,
        !line.contains('\n'),
    ensures
        !(suffix_of(line)->0).contains('\n'),
{
    let kv = split_once(line, '=')->0;
    lemma_position(line, '=');
    let h: int = position(kv.1, '#');
    lemma_position(kv.1, '#');
    let c = kv.1.skip(h);
    lemma_strip(c, space());
    if trimmed(c).contains('\n') {
        assert(c.contains('\n'));
        let i: int = choose|i: int| 0 <= i < c.len() && c[i] == '\n';
        assert(line[position(line, '=') + 1 + h + i] == '\n');
    }
}

/// The lines after an edit hold no line feed.
proof fn lemma_edited_free(ls: Seq<Seq<char>>, key: Seq<char>, value: Seq<char>)
    requires
        line_free(ls),
        !key.contains('\n'),
        !value.contains('\n'),
    ensures
        line_free(edited(ls, key, value)),
{
    lemma_new_line(ls, key, value);
    lemma_first_naming(ls, key);
    let i: int = first_naming(ls, key);
    let tail = tail_of(ls, key);
    assert(!tail.contains('\n')) by {
        if tail.len() > 0 {
            lemma_suffix_free(ls[i]);
            if tail.contains('\n') {
                let k: int = choose|k: int| 0 <= k < tail.len() && tail[k] == '\n';
                assert(suffix_of(ls[i])->0[k - 1] == '\n');
            }
        }
    }
    let l = assignment(key, value + tail);
    assert(!l.contains('\n')) by {
        if l.contains('\n') {
            let k: int = choose|k: int| 0 <= k < l.len() && l[k] == '\n';
            if k < key.len() {
                assert(key[k] == '\n');
            } else if k < key.len() + 3 {
            } else if k < key.len() + 3 + value.len() {
                assert(value[k - key.len() - 3] == '\n');
            } else {
                assert(tail[k - key.len() - 3 - value.len()] == '\n');
            }
        }
    }
    let es = edited(ls, key, value);
    assert forall|j: int| 0 <= j < es.len() implies !(#[trigger] es[j]).contains('\n') by {
        if j != i {
            assert(es[j] == ls[j]);
        }
    }
}

/// Whether the text written ends in a line feed.
pub open spec fn written_closed(existing: Option<Seq<char>>, key: Seq<char>) -> bool {
    match existing {
        Some(content) => ends_line(content) || first_naming(lines_of(content), key) == lines_of(
            content,
        ).len(),
        None => true,
    }
}

/// What a write does to the lines, up to the form of the line endings.
proof fn lemma_written_lines(existing: Option<Seq<char>>, key: Seq<char>, value: Seq<char>)
    requires
        !key.contains('\n'),
        !value.contains('\n'),
    ensures
        lines_of(written(existing, key, value)) == reread(
            edited(lines_in(existing), key, value),
            written_closed(existing, key),
        ),
{
    let ls = lines_in(existing);
    let es = edited(ls, key, value);
    let closed = written_closed(existing, key);
    if existing is Some {
        lemma_lines_free(existing->0);
    }
    lemma_first_naming(ls, key);
    lemma_new_line(ls, key, value);
    lemma_edited_free(ls, key, value);
    if !closed {
        let i: int = first_naming(ls, key);
        if i == es.len() - 1 {
            assert(es.last().len() > 0);
        } else {
            assert(es.last() == ls.last());
        }
    }
    lemma_unlines(es, closed);
    if ls.len() == 0 {
        assert(es =~= seq![assignment(key, value)]);
        assert(joined(es, seq!['\n']) == assignment(key, value));
    }
}

// ---------------------------------------------------------------------
// The laws
// ---------------------------------------------------------------------
/// A write changes one line of the file, or adds one at its end, and keeps
/// every other line. A line feed in the key or the value would make more
/// lines of one, and a line that ends in a carriage return loses it to the
/// line ending.
pub proof fn write_keeps_other_lines(
    existing: Option<Seq<char>>,
    key: Seq<char>,
    value: Seq<char>,
)
    requires
        !key.contains('\n'),
        !value.contains('\n'),
        forall|i: int|
            0 <= i < edited(lines_in(existing), key, value).len() && (i + 1 < edited(
                lines_in(existing),
                key,
                value,
            ).len() || written_closed(existing, key)) ==> chomp(
                #[trigger] edited(lines_in(existing), key, value)[i],
            ) == edited(lines_in(existing), key, value)[i],
    ensures
        lines_of(written(existing, key, value)) == edited(lines_in(existing), key, value),
        forall|j: int|
            0 <= j < lines_in(existing).len() && j != first_naming(lines_in(existing), key)
                ==> lines_of(written(existing, key, value))[j] == #[trigger] lines_in(existing)[j],
{
    lemma_written_lines(existing, key, value);
    let es = edited(lines_in(existing), key, value);
    assert(reread(es, written_closed(existing, key)) =~= es);
    lemma_new_line(lines_in(existing), key, value);
}

/// A write changes what the file sets for no key but the one written.
pub proof fn write_keeps_other_keys(existing: Option<Seq<char>>, key: Seq<char>, value: Seq<char>)
    requires
        plain_key(key),
        !value.contains('\n'),
    ensures
        raw_of(lines_of(written(existing, key, value))).remove(key) == raw_of(
            lines_in(existing),
        ).remove(key),
{
    let ls = lines_in(existing);
    let es = edited(ls, key, value);
    lemma_written_lines(existing, key, value);
    lemma_raw_reread(es, written_closed(existing, key));
    lemma_first_naming(ls, key);
    lemma_new_line(ls, key, value);
    let i: int = first_naming(ls, key);
    lemma_assignment_reads(key, value + tail_of(ls, key));
    if i < ls.len() {
        assert(es =~= ls.update(i, es[i]));
        lemma_raw_update(ls, i, es[i], key);
    } else {
        assert(es.drop_last() =~= ls);
        lemma_step_names(raw_of(ls), es.last(), key);
    }
}

/// What was written is what the file then sets: the value, and behind it the
/// comment that the line had. A later line for the same key would win over
/// the one written, so there must be none.
pub proof fn write_reads_back(existing: Option<Seq<char>>, key: Seq<char>, value: Seq<char>)
    requires
        plain_key(key),
        !value.contains('\n'),
        forall|j: int|
            first_naming(lines_in(existing), key) < j < lines_in(existing).len() ==> !names_key(
                #[trigger] lines_in(existing)[j],
                key,
            ),
    ensures
        raw_of(lines_of(written(existing, key, value))).contains_key(key),
        raw_of(lines_of(written(existing, key, value)))[key] == trimmed(
            value + tail_of(lines_in(existing), key),
        ),
{
    let ls = lines_in(existing);
    let es = edited(ls, key, value);
    lemma_written_lines(existing, key, value);
    lemma_raw_reread(es, written_closed(existing, key));
    lemma_first_naming(ls, key);
    lemma_new_line(ls, key, value);
    let i: int = first_naming(ls, key);
    let w = value + tail_of(ls, key);
    lemma_assignment_reads(key, w);
    assert forall|j: int| i < j < es.len() implies !names_key(#[trigger] es[j], key) by {
        assert(es[j] == ls[j]);
    }
    lemma_raw_after(es, i, key);
    let t = es.take(i + 1);
    assert(t.last() == assignment(key, w));
    assert(raw_of(t) == raw_step(raw_of(t.drop_last()), t.last()));
}

proof fn lemma_without_key(ls: Seq<Seq<char>>, key: Seq<char>)
    ensures
        raw_of(without_key(ls, key)) == raw_of(ls).remove(key),
        line_free(ls) ==> line_free(without_key(ls, key)),
    decreases ls.len(),
{
    if ls.len() == 0 {
        assert(Map::<Seq<char>, Seq<char>>::empty().remove(key) =~= Map::empty());
    } else {
        let d = ls.drop_last();
        lemma_without_key(d, key);
        if line_free(ls) {
            assert forall|i: int| 0 <= i < d.len() implies !(#[trigger] d[i]).contains('\n') by {
                assert(d[i] == ls[i]);
            }
            assert(!ls[ls.len() - 1].contains('\n'));
        }
        if names_key(ls.last(), key) {
            lemma_step_names(raw_of(d), ls.last(), key);
        } else {
            lemma_step_other(raw_of(d), ls.last(), key);
            assert(without_key(ls, key).drop_last() =~= without_key(d, key));
        }
    }
}

/// A deletion takes the key out of what the file sets and leaves every other
/// key as it was.
pub proof fn delete_removes_only_the_key(content: Seq<char>, key: Seq<char>)
    requires
        deleted(Some(content), key) is Some,
    ensures
        raw_of(lines_of(deleted(Some(content), key)->0)) == raw_of(lines_of(content)).remove(key),
{
    let ls = lines_of(content);
    let kept = without_key(ls, key);
    lemma_lines_free(content);
    lemma_without_key(ls, key);
    if !any_names(ls, key) {
        lemma_unnamed(ls, key);
    } else {
        let out = joined(kept, seq!['\n']);
        let closed = ends_line(content) || (out.len() > 0 && !ends_line(out));
        assert(kept.len() > 0);
        if closed || kept.last().len() > 0 {
            lemma_unlines(kept, closed);
            lemma_raw_reread(kept, closed);
        } else {
            // The text ends in an empty line that is not closed and so not read.
            let d = kept.drop_last();
            assert(trimmed(kept.last()) =~= Seq::<char>::empty()) by {
                lemma_all_white(kept.last());
            }
            assert(raw_of(kept) == raw_of(d));
            assert(d.len() > 0) by {
                if d.len() == 0 {
                    assert(kept[0] == kept.last());
                    assert(selectable(kept[0]));
                }
            }
            assert(out =~= unlines(d, true));
            assert forall|i: int| 0 <= i < d.len() implies !(#[trigger] d[i]).contains('\n') by {
                assert(d[i] == kept[i]);
            }
            lemma_unlines(d, true);
            lemma_raw_reread(d, true);
        }
    }
}

proof fn lemma_unnamed(ls: Seq<Seq<char>>, key: Seq<char>)
    requires
        !any_names(ls, key),
    ensures
        raw_of(ls).remove(key) == raw_of(ls),
    decreases ls.len(),
{
    if ls.len() > 0 {
        let d = ls.drop_last();
        assert(!names_key(ls[ls.len() - 1], key));
        assert(!any_names(d, key)) by {
            assert forall|i: int| 0 <= i < d.len() implies !names_key(#[trigger] d[i], key) by {
                assert(d[i] == ls[i]);
            }
        }
        lemma_unnamed(d, key);
        lemma_step_other(raw_of(d), ls.last(), key);
    } else {
        assert(raw_of(ls).remove(key) =~= raw_of(ls));
    }
}

/// Writing a key and then deleting it leaves every other key of the file as
/// it was.
pub proof fn delete_undoes_write(existing: Option<Seq<char>>, key: Seq<char>, value: Seq<char>)
    requires
        plain_key(key),
        !value.contains('\n'),
        deleted(Some(written(existing, key, value)), key) is Some,
    ensures
        raw_of(lines_of(deleted(Some(written(existing, key, value)), key)->0)) == raw_of(
            lines_in(existing),
        ).remove(key),
{
    write_keeps_other_keys(existing, key, value);
    delete_removes_only_the_key(written(existing, key, value), key);
}

/// A text without carriage returns is its lines with a line feed between each
/// two, and one at the end if it ends in one.
proof fn lemma_lines_rejoin(s: Seq<char>)
    requires
        s.len() > 0,
        !s.contains('\r'),
    ensures
        unlines(lines_of(s), ends_line(s)) == s,
        forall|i: int| 0 <= i < lines_of(s).len() ==> chomp(#[trigger] lines_of(s)[i]) == lines_of(
            s,
        )[i],
    decreases s.len(),
{
    let nl = seq!['\n'];
    lemma_position(s, '\n');
    let p: int = position(s, '\n');
    let closed = ends_line(s);
    let ls = lines_of(s);
    if p == s.len() {
        assert(s[s.len() - 1] != '\n');
        assert(s.contains(s.last()));
        assert(ls =~= seq![s]);
    } else {
        let a = s.take(p);
        let rest = s.skip(p + 1);
        assert(a.len() > 0 ==> s.contains(a.last())) by {
            if a.len() > 0 {
                assert(s[p - 1] == a.last());
            }
        }
        assert(chomp(a) == a);
        assert(s =~= a + nl + rest);
        if rest.len() == 0 {
            assert(lines_of(rest) =~= Seq::<Seq<char>>::empty());
            assert(ls =~= seq![a]);
            assert(unlines(ls, closed) =~= s);
        } else {
            assert(rest.last() == s.last());
            assert(!rest.contains('\r')) by {
                if rest.contains('\r') {
                    let i: int = choose|i: int| 0 <= i < rest.len() && rest[i] == '\r';
                    assert(s[i + p + 1] == '\r');
                }
            }
            lemma_lines_rejoin(rest);
            lemma_lines_free(rest);
            assert(ls.drop_first() =~= lines_of(rest));
            lemma_joined_front(ls, nl);
            assert(unlines(ls, closed) =~= a + nl + unlines(lines_of(rest), closed));
            assert forall|i: int| 0 <= i < ls.len() implies chomp(#[trigger] ls[i]) == ls[i] by {
                if i > 0 {
                    assert(ls[i] == lines_of(rest)[i - 1]);
                }
            }
        }
    }
}

proof fn lemma_without_unnamed(ls: Seq<Seq<char>>, key: Seq<char>)
    requires
        !any_names(ls, key),
    ensures
        without_key(ls, key) == ls,
    decreases ls.len(),
{
    if ls.len() > 0 {
        let d = ls.drop_last();
        assert(!names_key(ls[ls.len() - 1], key));
        assert forall|i: int| 0 <= i < d.len() implies !names_key(#[trigger] d[i], key) by {
            assert(d[i] == ls[i]);
        }
        lemma_without_unnamed(d, key);
        assert(d.push(ls.last()) =~= ls);
    }
}

/// Writing a key that the file did not name and then deleting it gives back the
/// text of the file, to the letter, where that ends in a line feed and sets
/// something. A text that does not end in a line feed gets one, a carriage
/// return before a line feed is lost, and a file that sets nothing goes.
pub proof fn delete_gives_the_text_back(content: Seq<char>, key: Seq<char>, value: Seq<char>)
    requires
        plain_key(key),
        !value.contains('\n'),
        ends_line(content),
        !content.contains('\r'),
        !any_names(lines_of(content), key),
        any_selectable(lines_of(content)),
    ensures
        deleted(Some(written(Some(content), key, value)), key) == Some(content),
{
    let ls = lines_of(content);
    let text = written(Some(content), key, value);
    let a = assignment(key, value);
    lemma_first_naming(ls, key);
    assert(first_naming(ls, key) == ls.len());
    let es = edited(ls, key, value);
    assert(es == ls.push(a));
    lemma_written_lines(Some(content), key, value);
    lemma_lines_rejoin(content);
    lemma_assignment_reads(key, value);
    lemma_trim_chomp(a);
    let got = lines_of(text);
    assert(got =~= ls.push(chomp(a)));
    assert(names_key(chomp(a), key));
    assert(got[ls.len() as int] == chomp(a));
    assert(any_names(got, key));
    assert(got.drop_last() =~= ls);
    lemma_without_unnamed(ls, key);
    assert(without_key(got, key) == ls);
    assert(text == unlines(es, true));
    assert(ends_line(text));
}

/// A file that was made for one key goes with that key.
pub proof fn delete_of_only_key_removes_file(key: Seq<char>, value: Seq<char>)
    requires
        plain_key(key),
        !value.contains('\n'),
    ensures
        deleted(Some(written(None, key, value)), key) is None,
{
    let content = written(None, key, value);
    lemma_written_lines(None, key, value);
    let none = Seq::<Seq<char>>::empty();
    lemma_new_line(none, key, value);
    assert(value + tail_of(none, key) =~= value);
    lemma_assignment_reads(key, value);
    let ls = lines_of(content);
    assert(ls.len() == 1);
    lemma_trim_chomp(assignment(key, value));
    assert(names_key(ls[0], key));
    assert(ls.last() == ls[0]);
    assert(ls.drop_last() =~= none);
    assert(without_key(none, key) =~= none);
    assert(without_key(ls, key) =~= none);
}

// ---------------------------------------------------------------------
// What one line says
// ---------------------------------------------------------------------
/// The comment of a line starts at the first `#` behind its first `=`,
/// whatever follows that sign.
pub proof fn the_comment_starts_at_its_sign(k: Seq<char>, v: Seq<char>, c: Seq<char>)
    requires
        !k.contains('='),
        !v.contains('#'),
    ensures
        suffix_of(k + seq!['='] + v + seq!['#'] + c) == Some(trimmed(seq!['#'] + c)),
{
    let line = k + seq!['='] + v + seq!['#'] + c;
    let after = v + seq!['#'] + c;
    assert(line =~= k + seq!['='] + after);
    split_once_takes_apart(k, '=', after);
    assert forall|i: int| 0 <= i < v.len() implies after[i] != '#' by {
        assert(after[i] == v[i]);
        assert(v.contains(v[i]));
    }
    lemma_position_at(after, '#', v.len() as int);
    assert(after.skip(v.len() as int) =~= seq!['#'] + c);
}

/// A line without a `#` behind its first `=` has no comment.
pub proof fn without_its_sign_there_is_no_comment(k: Seq<char>, v: Seq<char>)
    requires
        !k.contains('='),
        !v.contains('#'),
    ensures
        suffix_of(k) is None,
        suffix_of(k + seq!['='] + v) is None,
{
    split_once_takes_apart(k, '=', v);
    lemma_position(v, '#');
    if position(v, '#') < v.len() {
        assert(v.contains(v[position(v, '#')]));
    }
}

/// A line with `=` in it has one in what trimming leaves of it.
proof fn lemma_equals_stays(k: Seq<char>, v: Seq<char>)
    ensures
        split_once(trimmed(k + seq!['='] + v), '=') is Some,
{
    let line = k + seq!['='] + v;
    assert(line[k.len() as int] == '=');
    let (a, b) = lemma_core_exists(line);
    assert(!all_white(line)) by {
        if all_white(line) {
            assert(is_white(line[k.len() as int]));
        }
    }
    lemma_core(line, a, b);
    let t = trimmed(line);
    assert(t[k.len() - a] == '=');
    lemma_position(t, '=');
}

/// The line that is written sets the new value and keeps the comment, which
/// is parted from the value by one space.
pub proof fn a_comment_is_kept(
    k: Seq<char>,
    v: Seq<char>,
    c: Seq<char>,
    key: Seq<char>,
    value: Seq<char>,
)
    requires
        !k.contains('='),
        !v.contains('#'),
    ensures
        rewritten(k + seq!['='] + v + seq!['#'] + c, key, value) == key + seq![' ', '=', ' ']
            + value + seq![' '] + trimmed(seq!['#'] + c),
        rewritten(k + seq!['='] + v, key, value) == key + seq![' ', '=', ' '] + value,
        rewritten(k, key, value) == key + seq![' ', '=', ' '] + value,
{
    the_comment_starts_at_its_sign(k, v, c);
    without_its_sign_there_is_no_comment(k, v);
    lemma_equals_stays(k, v + seq!['#'] + c);
    assert(k + seq!['='] + (v + seq!['#'] + c) =~= k + seq!['='] + v + seq!['#'] + c);
}

/// What is trimmed of a line with a key and a value, taken apart at its `=`.
proof fn lemma_assignment_parts(x: Seq<char>, k: Seq<char>, y: Seq<char>, v: Seq<char>)
    requires
        all_white(x),
        all_white(y),
        k.len() == 0 ==> y.len() == 0,
        k.len() > 0 ==> trimmed(k) == k && k[0] != '#',
        !k.contains('='),
    ensures
        !is_idle(x + k + y + seq!['='] + v),
        split_once(trimmed(x + k + y + seq!['='] + v), '=') is Some,
        trimmed((split_once(trimmed(x + k + y + seq!['='] + v), '=')->0).0) == k,
        trimmed((split_once(trimmed(x + k + y + seq!['='] + v), '=')->0).1) == trimmed(v),
{
    let none = Seq::<char>::empty();
    let line = k + y + seq!['='] + v;
    assert(x + k + y + seq!['='] + v =~= x + line + none);
    lemma_trim_around(x, line, none);
    let n: int = k.len() as int;
    let q: int = n + y.len();
    assert(line[q] == '=');
    if n > 0 {
        lemma_strip(k, space());
        assert(line[0] == k[0]);
    }
    assert(!is_white(line[0]));
    let (a, b) = lemma_core_exists(v);
    let e: int = if all_white(v) {
        0
    } else {
        b
    };
    assert forall|i: int| q + 1 + e <= i < line.len() implies is_white(#[trigger] line[i]) by {
        assert(line[i] == v[i - q - 1]);
    }
    assert(!is_white(line[q + e])) by {
        if e > 0 {
            assert(line[q + e] == v[b - 1]);
        }
    }
    lemma_core(line, 0, q + 1 + e);
    let t = line.subrange(0, q + 1 + e);
    assert(t =~= (k + y) + seq!['='] + v.take(e));
    assert(t[0] == line[0]);
    assert(!(k + y).contains('=')) by {
        if (k + y).contains('=') {
            let i: int = choose|i: int| 0 <= i < (k + y).len() && (k + y)[i] == '=';
            if i < n {
                assert(k[i] == '=');
            } else {
                assert(is_white(y[i - n]));
            }
        }
    }
    split_once_takes_apart(k + y, '=', v.take(e));
    assert(k + y =~= none + k + y);
    lemma_trim_around(none, k, y);
    if n == 0 {
        lemma_all_white(k);
    }
    assert forall|i: int| 0 <= i < v.skip(e).len() implies is_white(#[trigger] v.skip(e)[i]) by {
        assert(v.skip(e)[i] == v[i + e]);
    }
    assert(v =~= none + v.take(e) + v.skip(e));
    lemma_trim_around(none, v.take(e), v.skip(e));
}

/// A line with a key, a `=` and a value, whatever white space stands round
/// them, names that key alone and sets it to that value. It can be selected.
pub proof fn a_line_sets_its_key(
    x: Seq<char>,
    k: Seq<char>,
    y: Seq<char>,
    v: Seq<char>,
    m: Map<Seq<char>, Seq<char>>,
    other: Seq<char>,
)
    requires
        all_white(x),
        all_white(y),
        plain_key(k),
    ensures
        key_of(x + k + y + seq!['='] + v) == Some(k),
        selectable(x + k + y + seq!['='] + v),
        names_key(x + k + y + seq!['='] + v, other) <==> other == k,
        raw_step(m, x + k + y + seq!['='] + v) == m.insert(k, trimmed(v)),
{
    lemma_assignment_parts(x, k, y, v);
}

/// A line with nothing before its `=` cannot be selected.
pub proof fn a_line_without_a_key_is_not_selected(x: Seq<char>, v: Seq<char>)
    requires
        all_white(x),
    ensures
        !selectable(x + seq!['='] + v),
{
    let none = Seq::<char>::empty();
    lemma_assignment_parts(x, none, none, v);
    assert(x + none + none + seq!['='] + v =~= x + seq!['='] + v);
}

/// A line that is a key alone names that key and takes it out of what is set.
/// It cannot be selected.
pub proof fn a_bare_key_resets(
    x: Seq<char>,
    k: Seq<char>,
    y: Seq<char>,
    m: Map<Seq<char>, Seq<char>>,
    other: Seq<char>,
)
    requires
        all_white(x),
        all_white(y),
        plain_key(k),
    ensures
        key_of(x + k + y) is None,
        !selectable(x + k + y),
        names_key(x + k + y, other) <==> other == k,
        raw_step(m, x + k + y) == m.remove(k),
{
    lemma_trim_around(x, k, y);
    lemma_position(k, '=');
    if position(k, '=') < k.len() {
        assert(k.contains(k[position(k, '=')]));
    }
}

/// Blank lines and comments name no key, set none and cannot be selected.
pub proof fn blank_lines_and_comments_set_nothing(
    x: Seq<char>,
    c: Seq<char>,
    m: Map<Seq<char>, Seq<char>>,
    key: Seq<char>,
)
    requires
        all_white(x),
    ensures
        !selectable(x),
        !names_key(x, key),
        raw_step(m, x) == m,
        !selectable(x + seq!['#'] + c),
        !names_key(x + seq!['#'] + c, key),
        raw_step(m, x + seq!['#'] + c) == m,
{
    lemma_all_white(x);
    let none = Seq::<char>::empty();
    let s = seq!['#'] + c;
    assert(x + seq!['#'] + c =~= x + s + none);
    lemma_trim_around(x, s, none);
    let (a, b) = lemma_core_exists(s);
    assert(s[0] == '#');
    assert(!all_white(s)) by {
        if all_white(s) {
            assert(is_white(s[0]));
        }
    }
    if a > 0 {
        assert(is_white(s[0]));
    }
    lemma_core(s, a, b);
}

/// The last line that names a key decides what the file sets it to, and a key
/// that no line names is not set.
pub proof fn the_last_line_of_a_key_counts(
    before: Seq<Seq<char>>,
    line: Seq<char>,
    behind: Seq<Seq<char>>,
    key: Seq<char>,
)
    requires
        names_key(line, key),
        forall|j: int| 0 <= j < behind.len() ==> !names_key(#[trigger] behind[j], key),
    ensures
        raw_of(before.push(line) + behind).contains_key(key) <==> split_once(
            trimmed(line),
            '=',
        ) is Some,
        split_once(trimmed(line), '=') matches Some(kv) ==> raw_of(before.push(line) + behind)[key]
            == trimmed(kv.1),
        !raw_of(behind).contains_key(key),
{
    let ls = before.push(line) + behind;
    let i: int = before.len() as int;
    assert forall|j: int| i < j < ls.len() implies !names_key(#[trigger] ls[j], key) by {
        assert(ls[j] == behind[j - i - 1]);
    }
    lemma_raw_after(ls, i, key);
    assert(ls.take(i + 1) =~= before.push(line));
    assert(before.push(line).drop_last() =~= before);
    assert(!any_names(behind, key));
    lemma_unnamed(behind, key);
    assert(!raw_of(behind).remove(key).contains_key(key));
}

// ---------------------------------------------------------------------
// What an edit does to the text
// ---------------------------------------------------------------------
proof fn lemma_unlines_parts(a: Seq<Seq<char>>, b: Seq<Seq<char>>, closed: bool)
    requires
        a.len() > 0,
        b.len() > 0,
    ensures
        unlines(a + b, closed) == unlines(a, true) + unlines(b, closed),
    decreases a.len(),
{
    let nl = seq!['\n'];
    lemma_joined_front(a + b, nl);
    assert((a + b)[0] == a[0]);
    if a.len() == 1 {
        assert((a + b).drop_first() =~= b);
        assert(joined(a, nl) == a[0]);
    } else {
        let r = a.drop_first();
        assert((a + b).drop_first() =~= r + b);
        lemma_unlines_parts(r, b, closed);
        lemma_joined_front(a, nl);
        assert(unlines(a, true) =~= a[0] + nl + unlines(r, true));
    }
    assert(unlines(a + b, closed) =~= unlines(a, true) + unlines(b, closed));
}

/// Lines in front of others are a text in front of another.
proof fn lemma_unlines_behind(pre: Seq<char>, b: Seq<Seq<char>>, closed: bool)
    requires
        pre.len() == 0 || ends_line(pre),
        !pre.contains('\r'),
        b.len() > 0,
    ensures
        unlines(lines_of(pre) + b, closed) == pre + unlines(b, closed),
{
    lemma_lines_free(pre);
    if pre.len() == 0 {
        assert(lines_of(pre) + b =~= b);
        assert(pre + unlines(b, closed) =~= unlines(b, closed));
    } else {
        lemma_lines_rejoin(pre);
        lemma_unlines_parts(lines_of(pre), b, closed);
    }
}

/// A line and a text behind it, put together.
proof fn lemma_unlines_line(line: Seq<char>, post: Seq<char>)
    requires
        !post.contains('\r'),
    ensures
        unlines(seq![line] + lines_of(post), post.len() == 0 || ends_line(post)) == line.push('\n')
            + post,
{
    lemma_lines_free(post);
    let one = seq![line];
    assert(joined(one, seq!['\n']) == line);
    if post.len() == 0 {
        assert(one + lines_of(post) =~= one);
        assert(line.push('\n') + post =~= line.push('\n'));
    } else {
        lemma_lines_rejoin(post);
        lemma_unlines_parts(one, lines_of(post), ends_line(post));
    }
}

/// A line that names a key is not empty.
proof fn lemma_naming_line(line: Seq<char>, key: Seq<char>)
    requires
        names_key(line, key),
    ensures
        line.len() > 0,
{
    if line.len() == 0 {
        lemma_all_white(line);
    }
}

/// A write changes the first line that names the key and no other character of
/// the text before or behind that line.
pub proof fn a_write_changes_one_line(
    pre: Seq<char>,
    line: Seq<char>,
    post: Seq<char>,
    key: Seq<char>,
    value: Seq<char>,
)
    requires
        pre.len() == 0 || ends_line(pre),
        !line.contains('\n'),
        !pre.contains('\r'),
        !line.contains('\r'),
        !post.contains('\r'),
        !any_names(lines_of(pre), key),
        names_key(line, key),
    ensures
        written(Some(pre + line.push('\n') + post), key, value) == pre + rewritten(
            line,
            key,
            value,
        ).push('\n') + post,
        written(Some(pre + line), key, value) == pre + rewritten(line, key, value),
{
    let a = lines_of(pre);
    let b = lines_of(post);
    let n = rewritten(line, key, value);
    lemma_naming_line(line, key);
    one_line_is_one_line(line);
    lines_follow_each_other(pre, line);
    lines_follow_each_other(pre, line.push('\n'));
    lines_follow_each_other(pre + line.push('\n'), post);
    let content = pre + line.push('\n') + post;
    let ls = lines_of(content);
    assert(ls =~= a + (seq![line] + b));
    assert(ls[a.len() as int] == line);
    lemma_first_naming(ls, key);
    assert(first_naming(ls, key) == a.len()) by {
        let f: int = first_naming(ls, key);
        if f < a.len() {
            assert(ls[f] == a[f]);
        } else if f > a.len() {
            assert(!names_key(ls[a.len() as int], key));
        }
    }
    assert(edited(ls, key, value) =~= a + (seq![n] + b));
    if post.len() > 0 {
        assert(content.last() == post.last());
    }
    let closed = post.len() == 0 || ends_line(post);
    assert(ends_line(content) == closed);
    lemma_unlines_line(n, post);
    lemma_unlines_behind(pre, seq![n] + b, closed);
    assert(pre + (n.push('\n') + post) =~= pre + n.push('\n') + post);

    let open = pre + line;
    let os = lines_of(open);
    assert(os =~= a + seq![line]);
    assert(os[a.len() as int] == line);
    lemma_first_naming(os, key);
    assert(first_naming(os, key) == a.len()) by {
        let f: int = first_naming(os, key);
        if f < a.len() {
            assert(os[f] == a[f]);
        }
    }
    assert(edited(os, key, value) =~= a + seq![n]);
    assert(open.last() == line.last());
    assert(line.contains(line.last()));
    lemma_unlines_behind(pre, seq![n], false);
    assert(joined(seq![n], seq!['\n']) == n);
}

/// A key that the file does not name is set in a line of its own at the end;
/// what the file held stays in front of it.
pub proof fn a_new_key_is_added_at_the_end(content: Seq<char>, key: Seq<char>, value: Seq<char>)
    requires
        !content.contains('\r'),
        !any_names(lines_of(content), key),
    ensures
        written(Some(content), key, value) == if content.len() == 0 || ends_line(content) {
            content + (key + seq![' ', '=', ' '] + value).push('\n')
        } else {
            content.push('\n') + (key + seq![' ', '=', ' '] + value).push('\n')
        },
        written(None, key, value) == (key + seq![' ', '=', ' '] + value).push('\n'),
{
    let a = key + seq![' ', '=', ' '] + value;
    if content.len() == 0 {
        assert(content + a.push('\n') =~= a.push('\n'));
    } else {
        let ls = lines_of(content);
        lemma_first_naming(ls, key);
        assert(first_naming(ls, key) == ls.len());
        lemma_lines_free(content);
        lemma_lines_rejoin(content);
        assert(ls.push(a) =~= ls + seq![a]);
        lemma_unlines_parts(ls, seq![a], true);
        assert(joined(seq![a], seq!['\n']) == a);
    }
}

proof fn lemma_without_parts(a: Seq<Seq<char>>, b: Seq<Seq<char>>, key: Seq<char>)
    ensures
        without_key(a + b, key) == without_key(a, key) + without_key(b, key),
    decreases b.len(),
{
    if b.len() == 0 {
        assert(a + b =~= a);
        assert(without_key(a, key) + without_key(b, key) =~= without_key(a, key));
    } else {
        assert((a + b).drop_last() =~= a + b.drop_last());
        assert((a + b).last() == b.last());
        lemma_without_parts(a, b.drop_last(), key);
        assert(without_key(a + b, key) =~= without_key(a, key) + without_key(b, key));
    }
}

/// A deletion takes out the line that names the key, and no other character
/// before or behind that line, as long as some setting is left.
pub proof fn a_deletion_takes_one_line(
    pre: Seq<char>,
    line: Seq<char>,
    post: Seq<char>,
    key: Seq<char>,
)
    requires
        pre.len() == 0 || ends_line(pre),
        post.len() == 0 || ends_line(post),
        !line.contains('\n'),
        !pre.contains('\r'),
        !line.contains('\r'),
        !post.contains('\r'),
        !any_names(lines_of(pre), key),
        !any_names(lines_of(post), key),
        names_key(line, key),
        any_selectable(lines_of(pre + post)),
    ensures
        deleted(Some(pre + line.push('\n') + post), key) == Some(pre + post),
{
    let a = lines_of(pre);
    let b = lines_of(post);
    one_line_is_one_line(line);
    lines_follow_each_other(pre, post);
    lines_follow_each_other(pre, line.push('\n'));
    lines_follow_each_other(pre + line.push('\n'), post);
    let content = pre + line.push('\n') + post;
    let ls = lines_of(content);
    let one = seq![line];
    assert(ls =~= a + (one + b));
    assert(ls[a.len() as int] == line);
    assert(any_names(ls, key));
    lemma_without_unnamed(a, key);
    lemma_without_unnamed(b, key);
    assert(one.drop_last() =~= Seq::<Seq<char>>::empty());
    assert(one.last() == line);
    assert(without_key(one, key) == without_key(one.drop_last(), key));
    assert(without_key(one.drop_last(), key) =~= Seq::<Seq<char>>::empty());
    lemma_without_parts(one, b, key);
    lemma_without_parts(a, one + b, key);
    assert(without_key(ls, key) =~= a + b);
    if post.len() > 0 {
        assert(content.last() == post.last());
    }
    assert(ends_line(content));
    lemma_lines_free(pre);
    lemma_lines_free(post);
    if post.len() == 0 {
        assert(a + b =~= a);
        assert(pre + post =~= pre);
        lemma_lines_rejoin(pre);
    } else {
        lemma_lines_rejoin(post);
        lemma_unlines_behind(pre, b, true);
    }
}

/// The line stays without the ones that name the key exactly if it does not
/// name the key itself.
proof fn lemma_without_has(ls: Seq<Seq<char>>, key: Seq<char>, line: Seq<char>)
    ensures
        without_key(ls, key).contains(line) <==> ls.contains(line) && !names_key(line, key),
    decreases ls.len(),
{
    if ls.len() > 0 {
        let d = ls.drop_last();
        lemma_without_has(d, key, line);
        assert(ls =~= d.push(ls.last()));
        assert(ls.contains(line) <==> d.contains(line) || line == ls.last()) by {
            if d.contains(line) {
                let i: int = choose|i: int| 0 <= i < d.len() && d[i] == line;
                assert(ls[i] == line);
            }
            if line == ls.last() {
                assert(ls[ls.len() - 1] == line);
            }
            if ls.contains(line) && line != ls.last() {
                let i: int = choose|i: int| 0 <= i < ls.len() && ls[i] == line;
                assert(d[i] == line);
            }
        }
        let k = without_key(d, key);
        let w = k.push(ls.last());
        assert(w.contains(line) <==> k.contains(line) || line == ls.last()) by {
            if k.contains(line) {
                let i: int = choose|i: int| 0 <= i < k.len() && k[i] == line;
                assert(w[i] == line);
            }
            if line == ls.last() {
                assert(w[w.len() - 1] == line);
            }
            if w.contains(line) && line != ls.last() {
                let i: int = choose|i: int| 0 <= i < w.len() && w[i] == line;
                assert(k[i] == line);
            }
        }
    }
}

/// A deletion leaves no file exactly if there was none, or if the key was named
/// and no line sets another key. A file that does not name the key stays as it
/// is.
pub proof fn the_file_goes_with_its_last_setting(content: Seq<char>, key: Seq<char>)
    ensures
        deleted(None, key) is None,
        deleted(Some(content), key) is None <==> any_names(lines_of(content), key) && (forall|i: int|
            0 <= i < lines_of(content).len() && selectable(#[trigger] lines_of(content)[i])
                ==> names_key(lines_of(content)[i], key)),
        !any_names(lines_of(content), key) ==> deleted(Some(content), key) == Some(content),
{
    let ls = lines_of(content);
    let kept = without_key(ls, key);
    if any_selectable(kept) {
        let i: int = choose|i: int| 0 <= i < kept.len() && selectable(#[trigger] kept[i]);
        lemma_without_has(ls, key, kept[i]);
        assert(kept.contains(kept[i]));
        let j: int = choose|j: int| 0 <= j < ls.len() && ls[j] == kept[i];
        assert(selectable(ls[j]) && !names_key(ls[j], key));
    } else {
        assert forall|i: int| 0 <= i < ls.len() && selectable(#[trigger] ls[i]) implies names_key(
            ls[i],
            key,
        ) by {
            lemma_without_has(ls, key, ls[i]);
            if !names_key(ls[i], key) {
                assert(ls.contains(ls[i]));
                let j: int = choose|j: int| 0 <= j < kept.len() && kept[j] == ls[i];
                assert(selectable(kept[j]));
            }
        }
    }
}

/// After a deletion no line of the file names the key any more.
pub proof fn a_deleted_key_is_named_no_more(content: Seq<char>, key: Seq<char>)
    requires
        deleted(Some(content), key) is Some,
    ensures
        !any_names(lines_of(deleted(Some(content), key)->0), key),
{
    let ls = lines_of(content);
    let kept = without_key(ls, key);
    lemma_lines_free(content);
    lemma_without_key(ls, key);
    if any_names(ls, key) {
        let out = joined(kept, seq!['\n']);
        let closed = ends_line(content) || (out.len() > 0 && !ends_line(out));
        assert(kept.len() > 0);
        let shorter = !closed && kept.last().len() == 0;
        let read = if shorter {
            kept.drop_last()
        } else {
            kept
        };
        if shorter {
            // The text ends in an empty line that is not closed and so not read.
            assert(read.len() > 0) by {
                if read.len() == 0 {
                    assert(kept[0] == kept.last());
                    lemma_all_white(kept[0]);
                    assert(selectable(kept[0]));
                }
            }
            assert(out =~= unlines(read, true));
        }
        assert forall|i: int| 0 <= i < read.len() implies !(#[trigger] read[i]).contains('\n') by {
            assert(read[i] == kept[i]);
        }
        let got = reread(read, closed || shorter);
        lemma_unlines(read, closed || shorter);
        assert forall|i: int| 0 <= i < got.len() implies !names_key(#[trigger] got[i], key) by {
            lemma_trim_chomp(read[i]);
            lemma_without_has(ls, key, read[i]);
            assert(kept[i] == read[i]);
        }
    }
}

/// A file that could not be written is named in the message, and the text first
/// goes to a file beside it that has the extension `tmp`.
pub proof fn a_failed_write_names_its_file(
    dir: Seq<char>,
    name: Seq<char>,
    ext: Seq<char>,
    e: Seq<char>,
)
    requires
        name.len() > 0,
        !name.contains('/'),
        !ext.contains('/'),
        !ext.contains('.'),
        name != seq!['.'],
    ensures
        write_failure(dir, e) == "cannot write config file '"@ + dir + "': "@ + e,
        temp_path(dir + seq!['/'] + (name + seq!['.'] + ext)) == dir + seq!['/'] + name + seq!['.']
            + "tmp"@,
{
    let n = name + seq!['.'] + ext;
    assert(!n.contains('/')) by {
        if n.contains('/') {
            let i: int = choose|i: int| 0 <= i < n.len() && n[i] == '/';
            if i < name.len() {
                assert(name[i] == '/');
            } else if i > name.len() {
                assert(ext[i - name.len() - 1] == '/');
            }
        }
    }
    assert(n[name.len() as int] == '.');
    assert(n != seq!['.', '.']) by {
        if n == seq!['.', '.'] {
            assert(seq!['.', '.'].len() == 2 && seq!['.', '.'][0] == '.');
            assert(n.len() == name.len() + 1 + ext.len());
            assert(name[0] == n[0]);
            assert(name =~= seq!['.']);
        }
    }
    the_stem_is_before_the_last_dot(name, ext);
    the_name_is_behind_the_last_slash(dir, n, "tmp"@);
}

/// A deletion from a text that does not end in a line feed closes what is left of
/// it with one.
pub proof fn a_deletion_closes_the_text(
    pre: Seq<char>,
    line: Seq<char>,
    post: Seq<char>,
    key: Seq<char>,
)
    requires
        pre.len() == 0 || ends_line(pre),
        post.len() > 0,
        !ends_line(post),
        !line.contains('\n'),
        !pre.contains('\r'),
        !line.contains('\r'),
        !post.contains('\r'),
        !any_names(lines_of(pre), key),
        !any_names(lines_of(post), key),
        names_key(line, key),
        any_selectable(lines_of(pre + post)),
    ensures
        deleted(Some(pre + line.push('\n') + post), key) == Some((pre + post).push('\n')),
        pre.len() > 0 && any_selectable(lines_of(pre)) && lines_of(pre).last().len() > 0
            ==> deleted(Some(pre + line), key) == Some(pre),
{
    let a = lines_of(pre);
    let b = lines_of(post);
    let nl = seq!['\n'];
    one_line_is_one_line(line);
    lemma_naming_line(line, key);
    lines_follow_each_other(pre, post);
    lines_follow_each_other(pre, line);
    lines_follow_each_other(pre, line.push('\n'));
    lines_follow_each_other(pre + line.push('\n'), post);
    let one = seq![line];
    assert(one.drop_last() =~= Seq::<Seq<char>>::empty());
    assert(one.last() == line);
    assert(without_key(one, key) == without_key(one.drop_last(), key));
    assert(without_key(one.drop_last(), key) =~= Seq::<Seq<char>>::empty());
    lemma_without_unnamed(a, key);
    lemma_without_unnamed(b, key);
    lemma_lines_free(pre);
    lemma_lines_free(post);
    lemma_lines_rejoin(post);

    let content = pre + line.push('\n') + post;
    let ls = lines_of(content);
    assert(ls =~= a + (one + b));
    assert(ls[a.len() as int] == line);
    assert(any_names(ls, key));
    lemma_without_parts(one, b, key);
    lemma_without_parts(a, one + b, key);
    let kept = a + b;
    assert(without_key(ls, key) =~= kept);
    lemma_unlines_behind(pre, b, false);
    lemma_unlines_behind(pre, b, true);
    let out = joined(kept, nl);
    assert(out == pre + post);
    assert(out.last() == post.last());
    assert(unlines(kept, true) =~= (pre + post).push('\n'));

    if pre.len() > 0 && any_selectable(a) && a.last().len() > 0 {
        let open = pre + line;
        let os = lines_of(open);
        assert(os =~= a + one);
        assert(os[a.len() as int] == line);
        assert(any_names(os, key));
        lemma_without_parts(a, one, key);
        assert(without_key(os, key) =~= a);
        lemma_lines_rejoin(pre);
        let rest = joined(a, nl);
        assert(rest.push('\n') == pre);
        assert(rest.len() > 0 && !ends_line(rest)) by {
            assert(rest.last() == a.last().last());
            assert(!a[a.len() - 1].contains('\n'));
            assert(a.last().contains(a.last().last()));
        }
    }
}

} // verus!
