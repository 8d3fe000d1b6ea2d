//! Text over character sequences: trimming, splitting, joining, searching and
//! the case of letters.

use vstd::prelude::*;
use vstd::string::*;

verus! {

// ---------------------------------------------------------------------
// Characters
// ---------------------------------------------------------------------
/// The Unicode `White_Space` characters.
pub open spec fn is_white(c: char) -> bool {
    ||| '\u{9}' <= c <= '\u{d}'
    ||| c == ' '
    ||| c == '\u{85}'
    ||| c == '\u{a0}'
    ||| c == '\u{1680}'
    ||| '\u{2000}' <= c <= '\u{200a}'
    ||| c == '\u{2028}'
    ||| c == '\u{2029}'
    ||| c == '\u{202f}'
    ||| c == '\u{205f}'
    ||| c == '\u{3000}'
}

/// Tells whether `c` is white space.
pub fn white(c: char) -> (r: bool)
    ensures
        r == is_white(c),
{
    ('\u{9}' <= c && c <= '\u{d}') || c == ' ' || c == '\u{85}' || c == '\u{a0}' || c == '\u{1680}'
        || ('\u{2000}' <= c && c <= '\u{200a}') || c == '\u{2028}' || c == '\u{2029}' || c
        == '\u{202f}' || c == '\u{205f}' || c == '\u{3000}'
}

// ---------------------------------------------------------------------
// Between strings and characters
// ---------------------------------------------------------------------
/// `String::push` appends one character.
pub assume_specification[ String::push ](s: &mut String, c: char)
    ensures
        final(s)@ == old(s)@.push(c),
;

/// The characters of `s`.
pub fn chars_of(s: &str) -> (r: Vec<char>)
    ensures
        r@ == s@,
{
    let mut r: Vec<char> = Vec::new();
    for c in it: s.chars()
        invariant
            r@ == it.seq().take(it.index() as int),
            it.seq() == s@,
    {
        r.push(c);
    }
    r
}

/// The text made of the characters `s[from..to]`.
pub fn string_between(s: &Vec<char>, from: usize, to: usize) -> (r: String)
    requires
        from <= to <= s@.len(),
    ensures
        r@ == s@.subrange(from as int, to as int),
{
    let mut r: String = String::new();
    let mut i: usize = from;
    while i < to
        invariant
            from <= i <= to <= s@.len(),
            r@ == s@.subrange(from as int, i as int),
        decreases to - i,
    {
        r.push(s[i]);
        i += 1;
    }
    r
}

/// The text made of the characters `s`.
pub fn string_of(s: &Vec<char>) -> (r: String)
    ensures
        r@ == s@,
{
    string_between(s, 0, s.len())
}

/// The texts of a list of strings.
pub open spec fn texts(v: Seq<String>) -> Seq<Seq<char>> {
    v.map_values(|s: String| s@)
}

/// The text in an optional string slice.
pub open spec fn opt_str(o: Option<&str>) -> Option<Seq<char>> {
    match o {
        Some(s) => Some(s@),
        None => None,
    }
}

/// Tells whether two texts are the same.
pub fn same(a: &str, b: &str) -> (r: bool)
    ensures
        r == (a@ == b@),
{
    let x: String = a.to_owned();
    let y: String = b.to_owned();
    x == y
}

/// `a` followed by `b`.
pub fn concat2(a: &str, b: &str) -> (r: String)
    ensures
        r@ == a@ + b@,
{
    let mut r: String = a.to_owned();
    r.append(b);
    r
}

/// `a`, `b` and `c` in a row.
pub fn concat3(a: &str, b: &str, c: &str) -> (r: String)
    ensures
        r@ == a@ + b@ + c@,
{
    let mut r: String = a.to_owned();
    r.append(b);
    r.append(c);
    r
}

// ---------------------------------------------------------------------
// Trimming
// ---------------------------------------------------------------------
/// `s` without its leading characters in `p`.
pub open spec fn strip_start(s: Seq<char>, p: spec_fn(char) -> bool) -> Seq<char>
    decreases s.len(),
{
    if s.len() > 0 && p(s[0]) {
        strip_start(s.drop_first(), p)
    } else {
        s
    }
}

/// `s` without its trailing characters in `p`.
pub open spec fn strip_end(s: Seq<char>, p: spec_fn(char) -> bool) -> Seq<char>
    decreases s.len(),
{
    if s.len() > 0 && p(s.last()) {
        strip_end(s.drop_last(), p)
    } else {
        s
    }
}

/// `s` without its leading and trailing characters in `p`.
pub open spec fn strip(s: Seq<char>, p: spec_fn(char) -> bool) -> Seq<char> {
    strip_end(strip_start(s, p), p)
}

/// `s` without leading and trailing white space.
pub open spec fn trimmed(s: Seq<char>) -> Seq<char> {
    strip(s, |c: char| is_white(c))
}

/// Stripping from the front drops the longest prefix made of `p`.
pub proof fn lemma_strip_start_at(s: Seq<char>, p: spec_fn(char) -> bool, n: int)
    requires
        0 <= n <= s.len(),
        forall|i: int| 0 <= i < n ==> p(#[trigger] s[i]),
        n < s.len() ==> !p(s[n]),
    ensures
        strip_start(s, p) == s.skip(n),
    decreases n,
{
    if n == 0 {
        assert(s.skip(0) == s);
    } else {
        assert(p(s[0]));
        assert forall|i: int| 0 <= i < n - 1 implies p(#[trigger] s.drop_first()[i]) by {
            assert(p(s[i + 1]));
        }
        lemma_strip_start_at(s.drop_first(), p, n - 1);
        assert(s.drop_first().skip(n - 1) == s.skip(n));
    }
}

/// Stripping from the back drops the longest suffix made of `p`.
pub proof fn lemma_strip_end_at(s: Seq<char>, p: spec_fn(char) -> bool, n: int)
    requires
        0 <= n <= s.len(),
        forall|i: int| n <= i < s.len() ==> p(#[trigger] s[i]),
        n > 0 ==> !p(s[n - 1]),
    ensures
        strip_end(s, p) == s.take(n),
    decreases s.len() - n,
{
    if n == s.len() {
        assert(s.take(n) == s);
    } else {
        assert(p(s[s.len() - 1]));
        lemma_strip_end_at(s.drop_last(), p, n);
        assert(s.drop_last().take(n) == s.take(n));
    }
}

/// What stripping leaves is a part of the text whose ends are not in `p`.
pub proof fn lemma_strip(s: Seq<char>, p: spec_fn(char) -> bool)
    ensures
        strip(s, p).len() > 0 ==> !p(strip(s, p)[0]) && !p(strip(s, p).last()),
        forall|c: char| strip(s, p).contains(c) ==> s.contains(c),
        strip(s, p).len() <= s.len(),
{
    lemma_strip_start(s, p);
    lemma_strip_end(strip_start(s, p), p);
}

pub proof fn lemma_strip_start(s: Seq<char>, p: spec_fn(char) -> bool)
    ensures
        strip_start(s, p).len() > 0 ==> !p(strip_start(s, p)[0]),
        forall|c: char| strip_start(s, p).contains(c) ==> s.contains(c),
        strip_start(s, p).len() <= s.len(),
    decreases s.len(),
{
    if s.len() > 0 && p(s[0]) {
        lemma_strip_start(s.drop_first(), p);
        assert forall|c: char| s.drop_first().contains(c) implies s.contains(c) by {
            let i: int = choose|i: int| 0 <= i < s.drop_first().len() && s.drop_first()[i] == c;
            assert(s[i + 1] == c);
        }
    }
}

proof fn lemma_strip_end(s: Seq<char>, p: spec_fn(char) -> bool)
    ensures
        strip_end(s, p).len() > 0 ==> !p(strip_end(s, p).last()) && strip_end(s, p)[0] == s[0],
        forall|c: char| strip_end(s, p).contains(c) ==> s.contains(c),
        strip_end(s, p).len() <= s.len(),
    decreases s.len(),
{
    if s.len() > 0 && p(s.last()) {
        lemma_strip_end(s.drop_last(), p);
        assert forall|c: char| s.drop_last().contains(c) implies s.contains(c) by {
            let i: int = choose|i: int| 0 <= i < s.drop_last().len() && s.drop_last()[i] == c;
            assert(s[i] == c);
        }
    }
}

/// A text whose ends are not in `p` is left alone.
pub proof fn lemma_strip_id(s: Seq<char>, p: spec_fn(char) -> bool)
    requires
        s.len() > 0 ==> !p(s[0]) && !p(s.last()),
    ensures
        strip(s, p) == s,
{
}

/// `s` without leading and trailing white space.
pub fn trim<'a>(s: &'a str) -> (r: &'a str)
    ensures
        r@ == trimmed(s@),
{
    let cs: Vec<char> = chars_of(s);
    let mut from: usize = 0;
    while from < cs.len() && white(cs[from])
        invariant
            from <= cs@.len(),
            forall|i: int| 0 <= i < from ==> is_white(#[trigger] cs@[i]),
        decreases cs@.len() - from,
    {
        from += 1;
    }
    let mut to: usize = cs.len();
    while to > from && white(cs[to - 1])
        invariant
            from <= to <= cs@.len(),
            forall|i: int| to <= i < cs@.len() ==> is_white(#[trigger] cs@[i]),
        decreases to,
    {
        to -= 1;
    }
    proof {
        let p = |c: char| is_white(c);
        lemma_strip_start_at(s@, p, from as int);
        let t = s@.skip(from as int);
        assert forall|i: int| to - from <= i < t.len() implies p(#[trigger] t[i]) by {
            assert(is_white(cs@[i + from]));
        }
        lemma_strip_end_at(t, p, to - from);
        assert(t.take(to - from) == s@.subrange(from as int, to as int));
    }
    s.substring_char(from, to)
}

// ---------------------------------------------------------------------
// Searching and splitting
// ---------------------------------------------------------------------
/// The place of the first `c` in `s`, or the length of `s` if it has none.
pub open spec fn position(s: Seq<char>, c: char) -> int
    decreases s.len(),
{
    if s.len() == 0 || s[0] == c {
        0
    } else {
        1 + position(s.drop_first(), c)
    }
}

/// What [`position`] finds.
pub proof fn lemma_position(s: Seq<char>, c: char)
    ensures
        0 <= position(s, c) <= s.len(),
        forall|i: int| 0 <= i < position(s, c) ==> s[i] != c,
        position(s, c) < s.len() ==> s[position(s, c)] == c,
    decreases s.len(),
{
    if s.len() > 0 && s[0] != c {
        lemma_position(s.drop_first(), c);
        assert forall|i: int| 0 <= i < position(s, c) implies s[i] != c by {
            if i > 0 {
                assert(s[i] == s.drop_first()[i - 1]);
            }
        }
    }
}

/// The first `c` is where all before it differ from `c`.
pub proof fn lemma_position_at(s: Seq<char>, c: char, n: int)
    requires
        0 <= n <= s.len(),
        forall|i: int| 0 <= i < n ==> s[i] != c,
        n < s.len() ==> s[n] == c,
    ensures
        position(s, c) == n,
{
    lemma_position(s, c);
    let p: int = position(s, c);
    if p < n {
        assert(s[p] != c);
    } else if n < p {
        assert(s[n] != c);
    }
}

/// The texts before and after the first `c`.
pub open spec fn split_once(s: Seq<char>, c: char) -> Option<(Seq<char>, Seq<char>)> {
    let p = position(s, c);
    if p < s.len() {
        Some((s.take(p), s.skip(p + 1)))
    } else {
        None
    }
}

/// The place of the first `c` at or after `from`, or the length.
pub fn find_from(s: &Vec<char>, from: usize, c: char) -> (r: usize)
    requires
        from <= s@.len(),
    ensures
        from <= r <= s@.len(),
        r == from + position(s@.skip(from as int), c),
{
    let mut i: usize = from;
    while i < s.len() && s[i] != c
        invariant
            from <= i <= s@.len(),
            forall|j: int| from <= j < i ==> s@[j] != c,
        decreases s@.len() - i,
    {
        i += 1;
    }
    proof {
        lemma_position_at(s@.skip(from as int), c, i - from);
    }
    i
}

/// The texts before and after the first `c`, if there is one.
pub fn cut<'a>(s: &'a str, c: char) -> (r: Option<(&'a str, &'a str)>)
    ensures
        r is Some <==> split_once(s@, c) is Some,
        r matches Some(kv) ==> split_once(s@, c) == Some((kv.0@, kv.1@)),
{
    let cs: Vec<char> = chars_of(s);
    let p: usize = find_from(&cs, 0, c);
    proof {
        assert(s@.skip(0) == s@);
    }
    if p < cs.len() {
        proof {
            assert(s@.subrange(0, p as int) == s@.take(p as int));
            assert(s@.subrange(p + 1, s@.len() as int) == s@.skip(p + 1));
        }
        Some((s.substring_char(0, p), s.substring_char(p + 1, cs.len())))
    } else {
        None
    }
}

/// The pieces of `s` between the occurrences of `c`; always at least one.
pub open spec fn pieces(s: Seq<char>, c: char) -> Seq<Seq<char>>
    decreases s.len(),
{
    proof {
        lemma_position(s, c);
    }
    let p = position(s, c);
    if p < s.len() {
        seq![s.take(p)] + pieces(s.skip(p + 1), c)
    } else {
        seq![s]
    }
}

/// The pieces of `s` between the occurrences of `c`.
pub fn split(s: &str, c: char) -> (r: Vec<String>)
    ensures
        texts(r@) == pieces(s@, c),
{
    let cs: Vec<char> = chars_of(s);
    let mut r: Vec<String> = Vec::new();
    let mut i: usize = 0;
    let mut more: bool = true;
    proof {
        assert(s@.skip(0) == s@);
        assert(texts(r@) + pieces(s@, c) == pieces(s@, c));
    }
    while more
        invariant
            cs@ == s@,
            i <= cs@.len(),
            more ==> texts(r@) + pieces(s@.skip(i as int), c) == pieces(s@, c),
            !more ==> texts(r@) == pieces(s@, c),
        decreases cs@.len() - i, (if more { 1int } else { 0int }),
    {
        let e: usize = find_from(&cs, i, c);
        let piece: String = string_between(&cs, i, e);
        let ghost before = texts(r@);
        let ghost rest = s@.skip(i as int);
        r.push(piece);
        proof {
            assert(rest.take(e - i) == piece@);
            assert(texts(r@) == before.push(piece@));
        }
        if e < cs.len() {
            proof {
                assert(rest.skip(e - i + 1) == s@.skip(e + 1));
                assert(before + (seq![piece@] + pieces(s@.skip(e + 1), c)) == before.push(piece@)
                    + pieces(s@.skip(e + 1), c));
            }
            i = e + 1;
        } else {
            proof {
                assert(rest == piece@);
                assert(before + seq![piece@] == before.push(piece@));
            }
            more = false;
        }
    }
    r
}

// ---------------------------------------------------------------------
// Lines
// ---------------------------------------------------------------------
/// A line without the carriage return that may end it.
pub open spec fn chomp(l: Seq<char>) -> Seq<char> {
    if l.len() > 0 && l.last() == '\r' {
        l.drop_last()
    } else {
        l
    }
}

/// The lines of `s`. A line ends in a line feed or in a carriage return and a
/// line feed, neither of which belongs to it; the last one may do without.
pub open spec fn lines_of(s: Seq<char>) -> Seq<Seq<char>>
    decreases s.len(),
{
    proof {
        lemma_position(s, '\n');
    }
    let p = position(s, '\n');
    if s.len() == 0 {
        seq![]
    } else if p < s.len() {
        seq![chomp(s.take(p))] + lines_of(s.skip(p + 1))
    } else {
        seq![s]
    }
}

/// The lines of `s`.
pub fn lines(s: &str) -> (r: Vec<String>)
    ensures
        texts(r@) == lines_of(s@),
{
    let cs: Vec<char> = chars_of(s);
    let mut r: Vec<String> = Vec::new();
    let mut i: usize = 0;
    proof {
        assert(s@.skip(0) == s@);
        assert(texts(r@) + lines_of(s@) == lines_of(s@));
    }
    while i < cs.len()
        invariant
            cs@ == s@,
            i <= cs@.len(),
            texts(r@) + lines_of(s@.skip(i as int)) == lines_of(s@),
        decreases cs@.len() - i,
    {
        let e: usize = find_from(&cs, i, '\n');
        let ghost before = texts(r@);
        let ghost rest = s@.skip(i as int);
        if e < cs.len() {
            let to: usize = if e > i && cs[e - 1] == '\r' {
                e - 1
            } else {
                e
            };
            let line: String = string_between(&cs, i, to);
            r.push(line);
            proof {
                assert(rest.take(e - i).drop_last() == s@.subrange(i as int, e - 1) || e == i);
                assert(line@ == chomp(rest.take(e - i)));
                assert(rest.skip(e - i + 1) == s@.skip(e + 1));
                assert(texts(r@) == before.push(line@));
                assert(before + (seq![line@] + lines_of(s@.skip(e + 1))) == before.push(line@)
                    + lines_of(s@.skip(e + 1)));
            }
            i = e + 1;
        } else {
            let line: String = string_between(&cs, i, e);
            r.push(line);
            proof {
                assert(line@ == rest);
                assert(texts(r@) == before.push(line@));
                assert(before + seq![line@] == before.push(line@));
                assert(s@.skip(e as int).len() == 0);
            }
            i = e;
        }
    }
    proof {
        assert(s@.skip(i as int).len() == 0);
        assert(texts(r@) + lines_of(s@.skip(i as int)) == texts(r@));
    }
    r
}

/// `parts` in a row with `sep` between each two.
pub open spec fn joined(parts: Seq<Seq<char>>, sep: Seq<char>) -> Seq<char>
    decreases parts.len(),
{
    if parts.len() == 0 {
        seq![]
    } else if parts.len() == 1 {
        parts[0]
    } else {
        joined(parts.drop_last(), sep) + sep + parts.last()
    }
}

/// The lines in a row with a line feed between each two.
pub fn join_lines(parts: &Vec<String>) -> (r: String)
    ensures
        r@ == joined(texts(parts@), seq!['\n']),
{
    let mut r: String = String::new();
    let mut i: usize = 0;
    proof {
        assert(texts(parts@).take(0).len() == 0);
    }
    while i < parts.len()
        invariant
            i <= parts@.len(),
            r@ == joined(texts(parts@).take(i as int), seq!['\n']),
        decreases parts@.len() - i,
    {
        proof {
            let t = texts(parts@).take(i + 1);
            assert(t.drop_last() == texts(parts@).take(i as int));
            assert(t.last() == parts@[i as int]@);
        }
        if i > 0 {
            r.push('\n');
        }
        r.append(parts[i].as_str());
        proof {
            let a = joined(texts(parts@).take(i as int), seq!['\n']);
            if i > 0 {
                assert(r@ == a + seq!['\n'] + parts@[i as int]@);
            } else {
                assert(r@ == parts@[0]@);
            }
        }
        i += 1;
    }
    proof {
        assert(texts(parts@).take(i as int) == texts(parts@));
    }
    r
}

// ---------------------------------------------------------------------
// Words
// ---------------------------------------------------------------------
/// The place of the first white space in `s`, or the length of `s`.
pub open spec fn white_position(s: Seq<char>) -> int
    decreases s.len(),
{
    if s.len() == 0 || is_white(s[0]) {
        0
    } else {
        1 + white_position(s.drop_first())
    }
}

proof fn lemma_white_position_at(s: Seq<char>, n: int)
    requires
        0 <= n <= s.len(),
        forall|i: int| 0 <= i < n ==> !is_white(#[trigger] s[i]),
        n < s.len() ==> is_white(s[n]),
    ensures
        white_position(s) == n,
    decreases n,
{
    if n > 0 {
        assert(!is_white(s[0]));
        assert forall|i: int| 0 <= i < n - 1 implies !is_white(#[trigger] s.drop_first()[i]) by {
            assert(!is_white(s[i + 1]));
        }
        lemma_white_position_at(s.drop_first(), n - 1);
    }
}

/// What [`white_position`] finds.
pub proof fn lemma_white_position(s: Seq<char>)
    ensures
        0 <= white_position(s) <= s.len(),
        s.len() > 0 && !is_white(s[0]) ==> white_position(s) > 0,
    decreases s.len(),
{
    if s.len() > 0 && !is_white(s[0]) {
        lemma_white_position(s.drop_first());
    }
}

/// The words of `s`: the longest runs without white space.
pub open spec fn words_of(s: Seq<char>) -> Seq<Seq<char>>
    decreases s.len(),
{
    let t = strip_start(s, |c: char| is_white(c));
    proof {
        lemma_strip_start(s, |c: char| is_white(c));
        lemma_white_position(t);
    }
    if t.len() == 0 {
        seq![]
    } else {
        seq![t.take(white_position(t))] + words_of(t.skip(white_position(t)))
    }
}

/// The words of `s`.
pub fn words(s: &str) -> (r: Vec<String>)
    ensures
        texts(r@) == words_of(s@),
{
    let cs: Vec<char> = chars_of(s);
    let mut r: Vec<String> = Vec::new();
    let mut i: usize = 0;
    let ghost p = |c: char| is_white(c);
    proof {
        assert(s@.skip(0) == s@);
        assert(texts(r@) + words_of(s@) == words_of(s@));
    }
    loop
        invariant
            cs@ == s@,
            i <= cs@.len(),
            p == (|c: char| is_white(c)),
            texts(r@) + words_of(s@.skip(i as int)) == words_of(s@),
        ensures
            texts(r@) == words_of(s@),
        decreases cs@.len() - i,
    {
        let mut b: usize = i;
        while b < cs.len() && white(cs[b])
            invariant
                i <= b <= cs@.len(),
                forall|j: int| i <= j < b ==> is_white(#[trigger] cs@[j]),
            decreases cs@.len() - b,
        {
            b += 1;
        }
        let ghost rest = s@.skip(i as int);
        let ghost before = texts(r@);
        proof {
            assert forall|j: int| 0 <= j < b - i implies p(#[trigger] rest[j]) by {
                assert(is_white(cs@[j + i]));
            }
            lemma_strip_start_at(rest, p, b - i);
            assert(rest.skip(b - i) == s@.skip(b as int));
        }
        if b == cs.len() {
            proof {
                assert(words_of(rest) == Seq::<Seq<char>>::empty());
                assert(before + words_of(rest) == before);
            }
            break;
        }
        let mut e: usize = b;
        while e < cs.len() && !white(cs[e])
            invariant
                b <= e <= cs@.len(),
                forall|j: int| b <= j < e ==> !is_white(#[trigger] cs@[j]),
            decreases cs@.len() - e,
        {
            e += 1;
        }
        let word: String = string_between(&cs, b, e);
        r.push(word);
        proof {
            let t = s@.skip(b as int);
            assert forall|j: int| 0 <= j < e - b implies !is_white(#[trigger] t[j]) by {
                assert(!is_white(cs@[j + b]));
            }
            lemma_white_position_at(t, e - b);
            assert(t.take(e - b) == word@);
            assert(t.skip(e - b) == s@.skip(e as int));
            assert(words_of(rest) == seq![word@] + words_of(s@.skip(e as int)));
            assert(texts(r@) == before.push(word@));
            assert(before + (seq![word@] + words_of(s@.skip(e as int))) == before.push(word@)
                + words_of(s@.skip(e as int)));
        }
        i = e;
    }
    r
}

// ---------------------------------------------------------------------
// Contents
// ---------------------------------------------------------------------
/// `needle` starts at place `i` of `s`.
pub open spec fn occurs_at(s: Seq<char>, needle: Seq<char>, i: int) -> bool {
    0 <= i && i + needle.len() <= s.len() && s.subrange(i, i + needle.len()) == needle
}

/// `needle` occurs in `s`.
pub open spec fn occurs(s: Seq<char>, needle: Seq<char>) -> bool {
    exists|i: int| occurs_at(s, needle, i)
}

/// Tells whether `needle` occurs in `s`.
pub fn contains(s: &str, needle: &str) -> (r: bool)
    ensures
        r == occurs(s@, needle@),
{
    let cs: Vec<char> = chars_of(s);
    let ns: Vec<char> = chars_of(needle);
    let n: usize = cs.len();
    let m: usize = ns.len();
    let mut i: usize = 0;
    while m <= n - i
        invariant
            cs@ == s@,
            ns@ == needle@,
            n == cs@.len(),
            m == ns@.len(),
            i <= n,
            forall|j: int| 0 <= j < i ==> !occurs_at(s@, needle@, j),
        decreases n - i,
    {
        let mut k: usize = 0;
        while k < m && cs[i + k] == ns[k]
            invariant
                n == cs@.len(),
                m == ns@.len(),
                i <= n,
                m <= n - i,
                k <= m,
                forall|j: int| 0 <= j < k ==> cs@[i + j] == #[trigger] ns@[j],
            decreases m - k,
        {
            k += 1;
        }
        if k == m {
            proof {
                assert(s@.subrange(i as int, i + m) =~= needle@);
                assert(occurs_at(s@, needle@, i as int));
            }
            return true;
        }
        proof {
            if occurs_at(s@, needle@, i as int) {
                assert(s@.subrange(i as int, i + m)[k as int] == cs@[i + k]);
            }
        }
        i += 1;
    }
    false
}

/// Tells whether `s` ends in `c`.
pub fn ends_with(s: &str, c: char) -> (r: bool)
    ensures
        r == (s@.len() > 0 && s@.last() == c),
{
    let n: usize = s.unicode_len();
    n > 0 && s.get_char(n - 1) == c
}

/// Tells whether `s` starts with `c`.
pub fn starts_with(s: &str, c: char) -> (r: bool)
    ensures
        r == (s@.len() > 0 && s@[0] == c),
{
    let n: usize = s.unicode_len();
    n > 0 && s.get_char(0) == c
}

// ---------------------------------------------------------------------
// Case
// ---------------------------------------------------------------------
/// The lower case of a text.
pub uninterp spec fn lowercase(s: Seq<char>) -> Seq<char>;

/// The upper case of a text.
pub uninterp spec fn uppercase(s: Seq<char>) -> Seq<char>;

/// `str::to_lowercase`: the lower case of `s` under Unicode's rules, which
/// depends on nothing but `s`. Each character of `s` becomes one or more.
#[verifier::external_body]
pub(crate) fn lower(s: &str) -> (r: String)
    ensures
        r@ == lowercase(s@),
        r@.len() == 0 <==> s@.len() == 0,
{
    s.to_lowercase()
}

/// `str::to_uppercase`: the upper case of `s` under Unicode's rules, which
/// depends on nothing but `s`.
#[verifier::external_body]
pub(crate) fn upper(s: &str) -> (r: String)
    ensures
        r@ == uppercase(s@),
{
    s.to_uppercase()
}

// ---------------------------------------------------------------------
// Texts put together and taken apart
// ---------------------------------------------------------------------
/// The first `c` behind a text without one is where that text ends.
pub proof fn split_once_takes_apart(k: Seq<char>, c: char, v: Seq<char>)
    requires
        !k.contains(c),
    ensures
        split_once(k + seq![c] + v, c) == Some((k, v)),
        split_once(k, c) is None,
{
    let s = k + seq![c] + v;
    assert forall|i: int| 0 <= i < k.len() implies k[i] != c by {
        assert(k.contains(k[i]));
    }
    assert forall|i: int| 0 <= i < k.len() implies s[i] != c by {
        assert(s[i] == k[i]);
    }
    lemma_position_at(s, c, k.len() as int);
    lemma_position_at(k, c, k.len() as int);
    assert(s.take(k.len() as int) =~= k);
    assert(s.skip(k.len() as int + 1) =~= v);
}

/// The lines of two texts, the first of which ends in a line feed, are the lines
/// of the one and then those of the other.
pub proof fn lines_follow_each_other(a: Seq<char>, b: Seq<char>)
    requires
        a.len() == 0 || a.last() == '\n',
    ensures
        lines_of(a + b) == lines_of(a) + lines_of(b),
    decreases a.len(),
{
    if a.len() == 0 {
        assert(a + b =~= b);
        assert(lines_of(a) + lines_of(b) =~= lines_of(b));
    } else {
        lemma_position(a, '\n');
        let p: int = position(a, '\n');
        assert(p < a.len()) by {
            if p == a.len() {
                assert(a[a.len() - 1] != '\n');
            }
        }
        let s = a + b;
        assert forall|i: int| 0 <= i < p implies s[i] != '\n' by {
            assert(s[i] == a[i]);
        }
        lemma_position_at(s, '\n', p);
        let rest = a.skip(p + 1);
        if rest.len() > 0 {
            assert(rest.last() == a.last());
        }
        lines_follow_each_other(rest, b);
        assert(s.take(p) =~= a.take(p));
        assert(s.skip(p + 1) =~= rest + b);
        assert(lines_of(s) =~= lines_of(a) + lines_of(b));
    }
}

/// A text without line feeds and carriage returns is one line, whether or not a
/// line feed ends it.
pub proof fn one_line_is_one_line(l: Seq<char>)
    requires
        !l.contains('\n'),
        !l.contains('\r'),
    ensures
        lines_of(l.push('\n')) == seq![l],
        l.len() > 0 ==> lines_of(l) == seq![l],
{
    let s = l.push('\n');
    assert forall|i: int| 0 <= i < l.len() implies l[i] != '\n' && l[i] != '\r' by {
        assert(l.contains(l[i]));
    }
    lemma_position_at(s, '\n', l.len() as int);
    lemma_position_at(l, '\n', l.len() as int);
    assert(s.take(l.len() as int) =~= l);
    assert(s.skip(l.len() as int + 1) =~= Seq::<char>::empty());
    assert(lines_of(Seq::<char>::empty()) =~= Seq::<Seq<char>>::empty());
    assert(chomp(l) == l);
    assert(seq![l] + Seq::<Seq<char>>::empty() =~= seq![l]);
}

/// White space in front of a text makes no difference to its words.
pub proof fn words_skip_white_space(c: char, rest: Seq<char>)
    requires
        is_white(c),
    ensures
        words_of(seq![c] + rest) == words_of(rest),
{
    let p = |c: char| is_white(c);
    let s = seq![c] + rest;
    assert(s.drop_first() =~= rest);
    assert(strip_start(s, p) == strip_start(rest, p));
}

/// A run without white space is a word, and the words behind it follow.
pub proof fn words_follow_each_other(w: Seq<char>, c: char, rest: Seq<char>)
    requires
        w.len() > 0,
        forall|i: int| 0 <= i < w.len() ==> !is_white(#[trigger] w[i]),
        is_white(c),
    ensures
        words_of(w + seq![c] + rest) == seq![w] + words_of(rest),
        words_of(w) == seq![w],
        words_of(Seq::<char>::empty()) == Seq::<Seq<char>>::empty(),
{
    let p = |c: char| is_white(c);
    let s = w + seq![c] + rest;
    let none = Seq::<char>::empty();
    assert(words_of(none) =~= Seq::<Seq<char>>::empty());
    assert forall|i: int| 0 <= i < w.len() implies !is_white(#[trigger] s[i]) by {
        assert(s[i] == w[i]);
    }
    assert(!is_white(w[0]));
    assert(s[0] == w[0]);
    assert(strip_start(s, p) == s);
    assert(strip_start(w, p) == w);
    lemma_white_position_at(s, w.len() as int);
    lemma_white_position_at(w, w.len() as int);
    assert(s.take(w.len() as int) =~= w);
    assert(w.take(w.len() as int) =~= w);
    assert(w.skip(w.len() as int) =~= none);
    assert(s.skip(w.len() as int) =~= seq![c] + rest);
    words_skip_white_space(c, rest);
    assert(seq![w] + Seq::<Seq<char>>::empty() =~= seq![w]);
}

/// What is put in the middle of a text occurs in it, and nothing longer than the
/// text does.
pub proof fn what_is_put_in_occurs(a: Seq<char>, needle: Seq<char>, b: Seq<char>)
    ensures
        occurs(a + needle + b, needle),
        forall|n: Seq<char>| #[trigger] occurs(a, n) ==> n.len() <= a.len(),
        forall|n: Seq<char>| #[trigger]
            occurs(a, n) ==> exists|x: Seq<char>, y: Seq<char>| a == #[trigger] (x + n + y),
{
    let s = a + needle + b;
    let i: int = a.len() as int;
    assert(s.subrange(i, i + needle.len()) =~= needle);
    assert(occurs_at(s, needle, i));
    assert forall|n: Seq<char>| #[trigger] occurs(a, n) implies exists|x: Seq<char>, y: Seq<char>|
        a == #[trigger] (x + n + y) by {
        let k: int = choose|k: int| occurs_at(a, n, k);
        let x = a.take(k);
        let y = a.skip(k + n.len());
        assert(a =~= x + n + y);
    }
}

/// The white space of ASCII is the space, the tab and the line breaks.
pub proof fn ascii_white_space(c: char)
    requires
        c < '\u{80}',
    ensures
        is_white(c) <==> c == ' ' || c == '\t' || c == '\n' || c == '\u{b}' || c == '\u{c}' || c
            == '\r',
{
}

/// White space around a text is trimmed away, and nothing else is.
pub proof fn trimming_takes_white_space_off(x: Seq<char>, s: Seq<char>, y: Seq<char>)
    requires
        forall|i: int| 0 <= i < x.len() ==> is_white(#[trigger] x[i]),
        forall|i: int| 0 <= i < y.len() ==> is_white(#[trigger] y[i]),
        s.len() > 0 ==> !is_white(s[0]) && !is_white(s.last()),
    ensures
        trimmed(x + s + y) == s,
{
    let p = |c: char| is_white(c);
    let w = x + s + y;
    let n: int = x.len() as int;
    if s.len() > 0 {
        assert forall|i: int| 0 <= i < n implies p(#[trigger] w[i]) by {
            assert(w[i] == x[i]);
        }
        assert(w[n] == s[0]);
        lemma_strip_start_at(w, p, n);
        let t = w.skip(n);
        let m: int = s.len() as int;
        assert forall|i: int| m <= i < t.len() implies p(#[trigger] t[i]) by {
            assert(t[i] == y[i - m]);
        }
        assert(t[m - 1] == s.last());
        lemma_strip_end_at(t, p, m);
        assert(t.take(m) =~= s);
    } else {
        assert forall|i: int| 0 <= i < w.len() implies p(#[trigger] w[i]) by {
            if i < n {
                assert(w[i] == x[i]);
            } else {
                assert(w[i] == y[i - n]);
            }
        }
        lemma_strip_start_at(w, p, w.len() as int);
        assert(w.skip(w.len() as int) =~= s);
    }
}

/// A carriage return before a line feed belongs to the line ending.
pub proof fn a_line_may_end_in_two_characters(l: Seq<char>, rest: Seq<char>)
    requires
        !l.contains('\n'),
    ensures
        lines_of(l + seq!['\r', '\n'] + rest) == seq![l] + lines_of(rest),
{
    let a = l.push('\r');
    let s = l + seq!['\r', '\n'] + rest;
    assert(s =~= a + seq!['\n'] + rest);
    assert forall|i: int| 0 <= i < a.len() implies s[i] != '\n' by {
        if i < l.len() {
            assert(s[i] == l[i]);
            assert(l.contains(l[i]));
        }
    }
    lemma_position_at(s, '\n', a.len() as int);
    assert(s.take(a.len() as int) =~= a);
    assert(s.skip(a.len() as int + 1) =~= rest);
    assert(a.drop_last() =~= l);
    assert(chomp(a) == l);
}

} // verus!
