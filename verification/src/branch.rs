//! Names of branches.

use crate::number::{decimal, decimal_of};
use crate::text::{
    chars_of, concat2, is_white, lemma_strip, lemma_strip_end_at, lemma_strip_id,
    lemma_strip_start_at, string_between, string_of, strip, strip_end, strip_start, trim, trimmed,
};
use vstd::prelude::*;

verus! {

/// A letter or a digit of ASCII.
pub open spec fn is_alphanumeric(c: char) -> bool {
    'a' <= c <= 'z' || 'A' <= c <= 'Z' || '0' <= c <= '9'
}

/// A character that a branch name keeps.
pub open spec fn is_allowed(c: char) -> bool {
    is_alphanumeric(c) || c == '_' || c == '/' || c == '.' || c == '-'
}

/// A character that a branch name does not start or end with.
pub open spec fn is_edge(c: char) -> bool {
    c == '-' || c == '/' || c == '.'
}

/// Every character that a branch name does not keep becomes a dash.
pub open spec fn dashed(s: Seq<char>) -> Seq<char> {
    s.map_values(
        |c: char|
            if is_allowed(c) {
                c
            } else {
                '-'
            },
    )
}

/// Every run of `c` becomes a single `c`.
pub open spec fn squeezed(s: Seq<char>, c: char) -> Seq<char>
    decreases s.len(),
{
    if s.len() < 2 {
        s
    } else if s[0] == c && s[1] == c {
        squeezed(s.drop_first(), c)
    } else {
        seq![s[0]] + squeezed(s.drop_first(), c)
    }
}

/// From left to right, every `a` with a `b` behind it becomes one `r`.
pub open spec fn pairs_replaced(s: Seq<char>, a: char, b: char, r: char) -> Seq<char>
    decreases s.len(),
{
    if s.len() < 2 {
        s
    } else if s[0] == a && s[1] == b {
        seq![r] + pairs_replaced(s.skip(2), a, b, r)
    } else {
        seq![s[0]] + pairs_replaced(s.drop_first(), a, b, r)
    }
}

/// The branch name that a text stands for.
pub open spec fn sanitized(raw: Seq<char>) -> Seq<char> {
    let s = strip(dashed(trimmed(raw)), |c: char| is_edge(c));
    let s = squeezed(squeezed(s, '-'), '/');
    pairs_replaced(pairs_replaced(s, '.', '.', '-'), '@', '{', '-')
}

fn allowed(c: char) -> (r: bool)
    ensures
        r == is_allowed(c),
{
    ('a' <= c && c <= 'z') || ('A' <= c && c <= 'Z') || ('0' <= c && c <= '9') || c == '_' || c
        == '/' || c == '.' || c == '-'
}

fn edge(c: char) -> (r: bool)
    ensures
        r == is_edge(c),
{
    c == '-' || c == '/' || c == '.'
}

fn squeeze(s: &Vec<char>, c: char) -> (r: Vec<char>)
    ensures
        r@ == squeezed(s@, c),
{
    let n: usize = s.len();
    let mut r: Vec<char> = Vec::new();
    let mut i: usize = 0;
    proof {
        assert(s@.skip(0) =~= s@);
        assert(r@ + squeezed(s@, c) =~= squeezed(s@, c));
    }
    while i < n
        invariant
            n == s@.len(),
            i <= n,
            r@ + squeezed(s@.skip(i as int), c) == squeezed(s@, c),
        decreases n - i,
    {
        let ghost rest = s@.skip(i as int);
        let ghost before = r@;
        proof {
            assert(rest.drop_first() =~= s@.skip(i + 1));
            assert(rest[0] == s@[i as int]);
        }
        if i + 1 < n && s[i] == c && s[i + 1] == c {
            proof {
                assert(rest[1] == s@[i + 1]);
            }
        } else {
            r.push(s[i]);
            proof {
                if i + 1 < n {
                    assert(rest[1] == s@[i + 1]);
                    assert(before + (seq![s@[i as int]] + squeezed(s@.skip(i + 1), c)) =~= r@
                        + squeezed(s@.skip(i + 1), c));
                } else {
                    assert(s@.skip(i + 1) =~= Seq::<char>::empty());
                    assert(before + rest =~= r@ + Seq::<char>::empty());
                }
            }
        }
        i += 1;
    }
    proof {
        assert(s@.skip(n as int) =~= Seq::<char>::empty());
        assert(r@ + Seq::<char>::empty() =~= r@);
    }
    r
}

fn replace_pairs(s: &Vec<char>, a: char, b: char, with: char) -> (r: Vec<char>)
    ensures
        r@ == pairs_replaced(s@, a, b, with),
{
    let n: usize = s.len();
    let mut r: Vec<char> = Vec::new();
    let mut i: usize = 0;
    proof {
        assert(s@.skip(0) =~= s@);
        assert(r@ + pairs_replaced(s@, a, b, with) =~= pairs_replaced(s@, a, b, with));
    }
    while i < n
        invariant
            n == s@.len(),
            i <= n,
            r@ + pairs_replaced(s@.skip(i as int), a, b, with) == pairs_replaced(s@, a, b, with),
        decreases n - i,
    {
        let ghost rest = s@.skip(i as int);
        let ghost before = r@;
        proof {
            assert(rest.drop_first() =~= s@.skip(i + 1));
            assert(rest[0] == s@[i as int]);
        }
        if i + 1 < n && s[i] == a && s[i + 1] == b {
            r.push(with);
            proof {
                assert(rest[1] == s@[i + 1]);
                assert(rest.skip(2) =~= s@.skip(i + 2));
                assert(before + (seq![with] + pairs_replaced(s@.skip(i + 2), a, b, with)) =~= r@
                    + pairs_replaced(s@.skip(i + 2), a, b, with));
            }
            i += 2;
        } else {
            r.push(s[i]);
            proof {
                if i + 1 < n {
                    assert(rest[1] == s@[i + 1]);
                    assert(before + (seq![s@[i as int]] + pairs_replaced(
                        s@.skip(i + 1),
                        a,
                        b,
                        with,
                    )) =~= r@ + pairs_replaced(s@.skip(i + 1), a, b, with));
                } else {
                    assert(s@.skip(i + 1) =~= Seq::<char>::empty());
                    assert(before + rest =~= r@ + Seq::<char>::empty());
                }
            }
            i += 1;
        }
    }
    proof {
        assert(s@.skip(n as int) =~= Seq::<char>::empty());
        assert(r@ + Seq::<char>::empty() =~= r@);
    }
    r
}

/// The branch name that a text stands for.
pub fn sanitize_branch_name(raw: &str) -> (r: String)
    ensures
        r@ == sanitized(raw@),
{
    let mut cs: Vec<char> = chars_of(trim(raw));
    let ghost t = cs@;
    let n: usize = cs.len();
    let mut i: usize = 0;
    while i < n
        invariant
            n == cs@.len() == t.len(),
            i <= n,
            forall|j: int| 0 <= j < i ==> cs@[j] == #[trigger] dashed(t)[j],
            forall|j: int| i <= j < n ==> cs@[j] == t[j],
        decreases n - i,
    {
        if !allowed(cs[i]) {
            cs.set(i, '-');
        }
        i += 1;
    }
    proof {
        assert(cs@ =~= dashed(t));
    }
    let mut from: usize = 0;
    while from < n && edge(cs[from])
        invariant
            n == cs@.len(),
            from <= n,
            forall|j: int| 0 <= j < from ==> is_edge(#[trigger] cs@[j]),
        decreases n - from,
    {
        from += 1;
    }
    let mut to: usize = n;
    while to > from && edge(cs[to - 1])
        invariant
            n == cs@.len(),
            from <= to <= n,
            forall|j: int| to <= j < n ==> is_edge(#[trigger] cs@[j]),
        decreases to,
    {
        to -= 1;
    }
    proof {
        let p = |c: char| is_edge(c);
        lemma_strip_start_at(cs@, p, from as int);
        let u = cs@.skip(from as int);
        assert forall|j: int| to - from <= j < u.len() implies p(#[trigger] u[j]) by {
            assert(is_edge(cs@[j + from]));
        }
        lemma_strip_end_at(u, p, to - from);
        assert(u.take(to - from) =~= cs@.subrange(from as int, to as int));
    }
    let core: Vec<char> = chars_of(string_between(&cs, from, to).as_str());
    let dashes: Vec<char> = squeeze(&core, '-');
    let slashes: Vec<char> = squeeze(&dashes, '/');
    let dots: Vec<char> = replace_pairs(&slashes, '.', '.', '-');
    let done: Vec<char> = replace_pairs(&dots, '@', '{', '-');
    string_of(&done)
}

/// The name of a branch that was given none: when it was made, in seconds
/// since the epoch, or zero if the clock stands before it.
pub fn auto_branch_name(since_epoch: Option<u64>) -> (r: String)
    ensures
        r@ == "wt-"@ + decimal(
            match since_epoch {
                Some(secs) => secs as nat,
                None => 0,
            },
        ),
{
    let secs: u64 = match since_epoch {
        Some(secs) => secs,
        None => 0,
    };
    concat2("wt-", decimal_of(secs).as_str())
}

// ---------------------------------------------------------------------
// What a branch name looks like
// ---------------------------------------------------------------------
/// No `a` has a `b` right behind it.
pub open spec fn no_pair(s: Seq<char>, a: char, b: char) -> bool {
    forall|i: int| 0 <= i < s.len() - 1 && #[trigger] s[i] == a ==> s[i + 1] != b
}

/// Every character is one that a branch name keeps.
pub open spec fn all_allowed(s: Seq<char>) -> bool {
    forall|i: int| 0 <= i < s.len() ==> is_allowed(#[trigger] s[i])
}

proof fn lemma_squeezed(s: Seq<char>, c: char)
    requires
        all_allowed(s),
    ensures
        s.len() > 0 ==> squeezed(s, c).len() > 0,
        s.len() > 0 ==> squeezed(s, c)[0] == s[0],
        s.len() > 0 ==> squeezed(s, c).last() == s.last(),
        s.len() == 0 ==> squeezed(s, c).len() == 0,
        all_allowed(squeezed(s, c)),
        no_pair(squeezed(s, c), c, c),
        no_pair(s, c, c) ==> squeezed(s, c) == s,
    decreases s.len(),
{
    if s.len() >= 2 {
        let d = s.drop_first();
        assert forall|i: int| 0 <= i < d.len() implies is_allowed(#[trigger] d[i]) by {
            assert(d[i] == s[i + 1]);
        }
        lemma_squeezed(d, c);
        if no_pair(s, c, c) {
            assert(no_pair(d, c, c)) by {
                assert forall|i: int| 0 <= i < d.len() - 1 && #[trigger] d[i] == c implies d[i + 1]
                    != c by {
                    assert(s[i + 1] == c);
                }
            }
            assert(s[0] == c ==> s[1] != c);
        }
        if s[0] == c && s[1] == c {
        } else {
            let q = squeezed(d, c);
            let r = seq![s[0]] + q;
            assert forall|i: int| 0 <= i < r.len() implies is_allowed(#[trigger] r[i]) by {
                if i > 0 {
                    assert(r[i] == q[i - 1]);
                } else {
                    assert(r[0] == s[0]);
                }
            }
            assert forall|i: int| 0 <= i < r.len() - 1 && #[trigger] r[i] == c implies r[i + 1]
                != c by {
                if i > 0 {
                    assert(q[i - 1] == c);
                    assert(r[i + 1] == q[i]);
                } else {
                    assert(r[1] == q[0] == d[0] == s[1]);
                }
            }
            assert(r.last() == q.last());
            if no_pair(s, c, c) {
                assert(r =~= s);
            }
        }
    }
}

proof fn lemma_pairs_replaced(s: Seq<char>, a: char, b: char, r: char)
    requires
        all_allowed(s),
        is_allowed(r),
    ensures
        s.len() > 0 ==> pairs_replaced(s, a, b, r).len() > 0,
        s.len() == 0 ==> pairs_replaced(s, a, b, r).len() == 0,
        all_allowed(pairs_replaced(s, a, b, r)),
        s.len() > 0 && s[0] != a ==> pairs_replaced(s, a, b, r)[0] == s[0],
        s.len() > 0 && s.last() != b ==> pairs_replaced(s, a, b, r).last() == s.last(),
        no_pair(s, a, b) ==> pairs_replaced(s, a, b, r) == s,
    decreases s.len(),
{
    if s.len() >= 2 {
        let n: int = if s[0] == a && s[1] == b {
            2
        } else {
            1
        };
        let h: char = if n == 2 {
            r
        } else {
            s[0]
        };
        let d = s.skip(n);
        assert(s.drop_first() =~= s.skip(1));
        assert forall|i: int| 0 <= i < d.len() implies is_allowed(#[trigger] d[i]) by {
            assert(d[i] == s[i + n]);
        }
        assert(is_allowed(s[0]));
        lemma_pairs_replaced(d, a, b, r);
        let q = pairs_replaced(d, a, b, r);
        let out = seq![h] + q;
        assert(pairs_replaced(s, a, b, r) == out);
        assert forall|i: int| 0 <= i < out.len() implies is_allowed(#[trigger] out[i]) by {
            if i > 0 {
                assert(out[i] == q[i - 1]);
            }
        }
        if d.len() > 0 {
            assert(d.last() == s.last());
            assert(out.last() == q.last());
        }
        if no_pair(s, a, b) {
            assert(s[0] == a ==> s[1] != b);
            assert forall|i: int| 0 <= i < d.len() - 1 && #[trigger] d[i] == a implies d[i + 1]
                != b by {
                assert(s[i + 1] == a);
            }
            assert(out =~= s);
        }
    }
}

/// Replacing the pairs of `a` leaves none, and makes no pair of another `x`.
proof fn lemma_pairs_gone(s: Seq<char>, a: char, x: char, r: char)
    requires
        r != a,
        r != x,
        x == a || no_pair(s, x, x),
    ensures
        no_pair(pairs_replaced(s, a, a, r), x, x),
        pairs_replaced(s, a, a, r).len() > 0 && pairs_replaced(s, a, a, r)[0] == x ==> s.len() > 0
            && s[0] == x && (x == a ==> s.len() == 1 || s[1] != a),
    decreases s.len(),
{
    if s.len() >= 2 {
        let n: int = if s[0] == a && s[1] == a {
            2
        } else {
            1
        };
        let h: char = if n == 2 {
            r
        } else {
            s[0]
        };
        let d = s.skip(n);
        assert(s.drop_first() =~= s.skip(1));
        if x != a {
            assert forall|i: int| 0 <= i < d.len() - 1 && #[trigger] d[i] == x implies d[i + 1]
                != x by {
                assert(s[i + n] == x);
                assert(s[i + n + 1] == d[i + 1]);
            }
        }
        lemma_pairs_gone(d, a, x, r);
        let q = pairs_replaced(d, a, a, r);
        let out = seq![h] + q;
        assert(pairs_replaced(s, a, a, r) == out);
        assert forall|i: int| 0 <= i < out.len() - 1 && #[trigger] out[i] == x implies out[i + 1]
            != x by {
            if i > 0 {
                assert(q[i - 1] == x);
                assert(out[i + 1] == q[i]);
            } else {
                assert(h == s[0] == x);
                assert(out[1] == q[0]);
                if q[0] == x {
                    assert(d[0] == x);
                    assert(s[1] == x);
                    assert(s[0] == x);
                }
            }
        }
    }
}

/// A branch name holds only characters that it keeps, neither two slashes
/// nor two dots in a row, no `@` with a brace behind it, and starts and ends
/// in a letter, a digit or an underscore.
pub proof fn branch_name_is_clean(raw: Seq<char>)
    ensures
        all_allowed(sanitized(raw)),
        no_pair(sanitized(raw), '/', '/'),
        no_pair(sanitized(raw), '.', '.'),
        no_pair(sanitized(raw), '@', '{'),
        sanitized(raw).len() > 0 ==> !is_edge(sanitized(raw)[0]) && !is_edge(sanitized(raw).last()),
{
    let p = |c: char| is_edge(c);
    let t = trimmed(raw);
    let d = dashed(t);
    let s = strip(d, p);
    lemma_strip(d, p);
    assert forall|i: int| 0 <= i < s.len() implies is_allowed(#[trigger] s[i]) by {
        assert(strip(d, p).contains(s[i]));
        assert(d.contains(s[i]));
        let j: int = choose|j: int| 0 <= j < d.len() && d[j] == s[i];
        assert(is_allowed(d[j]));
    }
    let u = squeezed(s, '-');
    lemma_squeezed(s, '-');
    let v = squeezed(u, '/');
    lemma_squeezed(u, '/');
    let w = pairs_replaced(v, '.', '.', '-');
    lemma_pairs_replaced(v, '.', '.', '-');
    lemma_pairs_gone(v, '.', '/', '-');
    lemma_pairs_gone(v, '.', '.', '-');
    assert(no_pair(w, '@', '{')) by {
        assert forall|i: int| 0 <= i < w.len() - 1 && #[trigger] w[i] == '@' implies w[i + 1]
            != '{' by {
            assert(is_allowed(w[i]));
        }
    }
    lemma_pairs_replaced(w, '@', '{', '-');
}

/// A name that is clean already, and without two dashes in a row, is kept as
/// it is.
pub proof fn clean_branch_name_is_kept(raw: Seq<char>)
    requires
        all_allowed(raw),
        no_pair(raw, '-', '-'),
        no_pair(raw, '/', '/'),
        no_pair(raw, '.', '.'),
        raw.len() > 0 ==> !is_edge(raw[0]) && !is_edge(raw.last()),
    ensures
        sanitized(raw) == raw,
{
    if raw.len() > 0 {
        assert(is_allowed(raw[0]) && is_allowed(raw[raw.len() - 1]));
    }
    lemma_strip_id(raw, |c: char| is_white(c));
    assert forall|i: int| 0 <= i < raw.len() implies dashed(raw)[i] == raw[i] by {
        assert(is_allowed(raw[i]));
    }
    assert(dashed(raw) =~= raw);
    lemma_strip_id(raw, |c: char| is_edge(c));
    lemma_squeezed(raw, '-');
    lemma_squeezed(raw, '/');
    lemma_pairs_replaced(raw, '.', '.', '-');
    assert(no_pair(raw, '@', '{')) by {
        assert forall|i: int| 0 <= i < raw.len() - 1 && #[trigger] raw[i] == '@' implies raw[i + 1]
            != '{' by {
            assert(is_allowed(raw[i]));
        }
    }
    lemma_pairs_replaced(raw, '@', '{', '-');
}

/// No pair of another `x` is made by squeezing `c`.
proof fn lemma_squeezed_pairs(s: Seq<char>, c: char, x: char)
    requires
        x != c,
        no_pair(s, x, x),
    ensures
        no_pair(squeezed(s, c), x, x),
        s.len() > 0 ==> squeezed(s, c).len() > 0 && squeezed(s, c)[0] == s[0],
    decreases s.len(),
{
    if s.len() >= 2 {
        let d = s.drop_first();
        assert forall|i: int| 0 <= i < d.len() - 1 && #[trigger] d[i] == x implies d[i + 1]
            != x by {
            assert(s[i + 1] == x);
        }
        lemma_squeezed_pairs(d, c, x);
        if !(s[0] == c && s[1] == c) {
            let q = squeezed(d, c);
            let r = seq![s[0]] + q;
            assert forall|i: int| 0 <= i < r.len() - 1 && #[trigger] r[i] == x implies r[i + 1]
                != x by {
                if i > 0 {
                    assert(q[i - 1] == x);
                    assert(r[i + 1] == q[i]);
                } else {
                    assert(s[0] == x);
                    assert(r[1] == q[0] == d[0] == s[1]);
                }
            }
        }
    }
}

/// What is stripped off leaves a stretch of the text.
proof fn lemma_strip_stretch(s: Seq<char>, p: spec_fn(char) -> bool) -> (r: (int, int))
    ensures
        0 <= r.0 <= r.1 <= s.len(),
        strip(s, p) == s.subrange(r.0, r.1),
        forall|i: int| 0 <= i < r.0 || r.1 <= i < s.len() ==> p(#[trigger] s[i]),
{
    let a = lemma_start_of(s, p);
    let t = s.skip(a);
    let n = lemma_end_of(t, p);
    assert(t.take(n) =~= s.subrange(a, a + n));
    assert forall|i: int| 0 <= i < a || a + n <= i < s.len() implies p(#[trigger] s[i]) by {
        if a + n <= i {
            assert(s[i] == t[i - a]);
        }
    }
    (a, a + n)
}

proof fn lemma_start_of(s: Seq<char>, p: spec_fn(char) -> bool) -> (n: int)
    ensures
        0 <= n <= s.len(),
        strip_start(s, p) == s.skip(n),
        forall|i: int| 0 <= i < n ==> p(#[trigger] s[i]),
    decreases s.len(),
{
    if s.len() > 0 && p(s[0]) {
        let d = s.drop_first();
        let n = lemma_start_of(d, p);
        assert(d.skip(n) =~= s.skip(n + 1));
        assert forall|i: int| 0 <= i < n + 1 implies p(#[trigger] s[i]) by {
            if i > 0 {
                assert(s[i] == d[i - 1]);
            }
        }
        n + 1
    } else {
        assert(s.skip(0) =~= s);
        0
    }
}

proof fn lemma_end_of(s: Seq<char>, p: spec_fn(char) -> bool) -> (n: int)
    ensures
        0 <= n <= s.len(),
        strip_end(s, p) == s.take(n),
        forall|i: int| n <= i < s.len() ==> p(#[trigger] s[i]),
    decreases s.len(),
{
    if s.len() > 0 && p(s.last()) {
        let d = s.drop_last();
        let n = lemma_end_of(d, p);
        assert(d.take(n) =~= s.take(n));
        assert forall|i: int| n <= i < s.len() implies p(#[trigger] s[i]) by {
            if i < s.len() - 1 {
                assert(s[i] == d[i]);
            }
        }
        n
    } else {
        assert(s.take(s.len() as int) =~= s);
        s.len() as int
    }
}

/// Without two dots in a row in the text, the branch name has no two dashes in a
/// row either, and is kept as it is when it is sanitized again.
pub proof fn branch_name_without_dots_is_settled(raw: Seq<char>)
    requires
        no_pair(raw, '.', '.'),
    ensures
        no_pair(sanitized(raw), '-', '-'),
        sanitized(sanitized(raw)) == sanitized(raw),
{
    let e = |c: char| is_edge(c);
    let (a, b) = lemma_strip_stretch(raw, |c: char| is_white(c));
    let t = trimmed(raw);
    assert(no_pair(t, '.', '.')) by {
        assert forall|i: int| 0 <= i < t.len() - 1 && #[trigger] t[i] == '.' implies t[i + 1]
            != '.' by {
            assert(t[i] == raw[i + a] && t[i + 1] == raw[i + 1 + a]);
        }
    }
    let d = dashed(t);
    let (f, g) = lemma_strip_stretch(d, e);
    let s = strip(d, e);
    assert(no_pair(s, '.', '.')) by {
        assert forall|i: int| 0 <= i < s.len() - 1 && #[trigger] s[i] == '.' implies s[i + 1]
            != '.' by {
            assert(s[i] == d[i + f] && s[i + 1] == d[i + 1 + f]);
            assert(t[i + f] == '.');
        }
    }
    assert forall|i: int| 0 <= i < s.len() implies is_allowed(#[trigger] s[i]) by {
        assert(s[i] == d[i + f]);
    }
    let u = squeezed(s, '-');
    lemma_squeezed(s, '-');
    lemma_squeezed_pairs(s, '-', '.');
    let v = squeezed(u, '/');
    lemma_squeezed(u, '/');
    lemma_squeezed_pairs(u, '/', '.');
    lemma_squeezed_pairs(u, '/', '-');
    lemma_pairs_replaced(v, '.', '.', '-');
    assert(no_pair(v, '@', '{')) by {
        assert forall|i: int| 0 <= i < v.len() - 1 && #[trigger] v[i] == '@' implies v[i + 1]
            != '{' by {
            assert(is_allowed(v[i]));
        }
    }
    lemma_pairs_replaced(v, '@', '{', '-');
    assert(sanitized(raw) == v);
    branch_name_is_clean(raw);
    clean_branch_name_is_kept(v);
}

/// A letter, a digit or an underscore.
pub open spec fn is_word(c: char) -> bool {
    is_alphanumeric(c) || c == '_'
}

/// The letters, digits and underscores of a text, in order.
pub open spec fn word_chars(s: Seq<char>) -> Seq<char>
    decreases s.len(),
{
    if s.len() == 0 {
        seq![]
    } else if is_word(s[0]) {
        seq![s[0]] + word_chars(s.drop_first())
    } else {
        word_chars(s.drop_first())
    }
}

proof fn lemma_word_chars_join(a: Seq<char>, b: Seq<char>)
    ensures
        word_chars(a + b) == word_chars(a) + word_chars(b),
    decreases a.len(),
{
    if a.len() == 0 {
        assert(a + b =~= b);
        assert(word_chars(a) + word_chars(b) =~= word_chars(b));
    } else {
        let d = a.drop_first();
        assert((a + b).drop_first() =~= d + b);
        assert((a + b)[0] == a[0]);
        lemma_word_chars_join(d, b);
        assert((seq![a[0]] + word_chars(d)) + word_chars(b) =~= seq![a[0]] + (word_chars(d)
            + word_chars(b)));
    }
}

proof fn lemma_no_word_chars(s: Seq<char>)
    requires
        forall|i: int| 0 <= i < s.len() ==> !is_word(#[trigger] s[i]),
    ensures
        word_chars(s) == Seq::<char>::empty(),
    decreases s.len(),
{
    if s.len() > 0 {
        let d = s.drop_first();
        assert forall|i: int| 0 <= i < d.len() implies !is_word(#[trigger] d[i]) by {
            assert(d[i] == s[i + 1]);
        }
        lemma_no_word_chars(d);
    }
}

proof fn lemma_word_chars_strip(s: Seq<char>, p: spec_fn(char) -> bool)
    requires
        forall|c: char| #[trigger] p(c) ==> !is_word(c),
    ensures
        word_chars(strip(s, p)) == word_chars(s),
{
    let (a, b) = lemma_strip_stretch(s, p);
    let x = s.take(a);
    let m = s.subrange(a, b);
    let y = s.skip(b);
    assert forall|i: int| 0 <= i < x.len() implies !is_word(#[trigger] x[i]) by {
        assert(p(s[i]));
    }
    assert forall|i: int| 0 <= i < y.len() implies !is_word(#[trigger] y[i]) by {
        assert(p(s[i + b]));
    }
    lemma_no_word_chars(x);
    lemma_no_word_chars(y);
    lemma_word_chars_join(x, m);
    lemma_word_chars_join(x + m, y);
    assert(x + m + y =~= s);
    assert(Seq::<char>::empty() + word_chars(m) + Seq::<char>::empty() =~= word_chars(m));
}

proof fn lemma_word_chars_dashed(s: Seq<char>)
    ensures
        word_chars(dashed(s)) == word_chars(s),
    decreases s.len(),
{
    if s.len() > 0 {
        lemma_word_chars_dashed(s.drop_first());
        assert(dashed(s).drop_first() =~= dashed(s.drop_first()));
        assert(dashed(s)[0] == if is_allowed(s[0]) {
            s[0]
        } else {
            '-'
        });
    } else {
        assert(dashed(s) =~= s);
    }
}

proof fn lemma_word_chars_squeezed(s: Seq<char>, c: char)
    requires
        !is_word(c),
    ensures
        word_chars(squeezed(s, c)) == word_chars(s),
    decreases s.len(),
{
    if s.len() >= 2 {
        let d = s.drop_first();
        lemma_word_chars_squeezed(d, c);
        if !(s[0] == c && s[1] == c) {
            let r = seq![s[0]] + squeezed(d, c);
            assert(r.drop_first() =~= squeezed(d, c));
        }
    }
}

proof fn lemma_word_chars_replaced(s: Seq<char>, a: char, b: char, r: char)
    requires
        !is_word(a),
        !is_word(b),
        !is_word(r),
    ensures
        word_chars(pairs_replaced(s, a, b, r)) == word_chars(s),
    decreases s.len(),
{
    if s.len() >= 2 {
        let d = s.drop_first();
        if s[0] == a && s[1] == b {
            let q = pairs_replaced(s.skip(2), a, b, r);
            lemma_word_chars_replaced(s.skip(2), a, b, r);
            assert((seq![r] + q).drop_first() =~= q);
            assert(d.drop_first() =~= s.skip(2));
            assert(d[0] == b);
            assert(word_chars(d) == word_chars(s.skip(2)));
        } else {
            let q = pairs_replaced(d, a, b, r);
            lemma_word_chars_replaced(d, a, b, r);
            assert((seq![s[0]] + q).drop_first() =~= q);
        }
    }
}

/// The letters, digits and underscores of a text all stay, in order.
pub proof fn branch_name_keeps_words(raw: Seq<char>)
    ensures
        word_chars(sanitized(raw)) == word_chars(raw),
{
    let t = trimmed(raw);
    let s = strip(dashed(t), |c: char| is_edge(c));
    let v = squeezed(squeezed(s, '-'), '/');
    lemma_word_chars_strip(raw, |c: char| is_white(c));
    lemma_word_chars_dashed(t);
    lemma_word_chars_strip(dashed(t), |c: char| is_edge(c));
    lemma_word_chars_squeezed(s, '-');
    lemma_word_chars_squeezed(squeezed(s, '-'), '/');
    lemma_word_chars_replaced(v, '.', '.', '-');
    lemma_word_chars_replaced(pairs_replaced(v, '.', '.', '-'), '@', '{', '-');
}

// ---------------------------------------------------------------------
// How the name comes about
// ---------------------------------------------------------------------
proof fn lemma_strip_front(c: char, s: Seq<char>, p: spec_fn(char) -> bool)
    requires
        p(c),
    ensures
        strip(seq![c] + s, p) == strip(s, p),
{
    assert((seq![c] + s).drop_first() =~= s);
}

proof fn lemma_strip_back(s: Seq<char>, c: char, p: spec_fn(char) -> bool)
    requires
        p(c),
    ensures
        strip(s.push(c), p) == strip(s, p),
    decreases s.len(),
{
    if s.len() > 0 && p(s[0]) {
        let d = s.drop_first();
        lemma_strip_back(d, c, p);
        assert(s.push(c).drop_first() =~= d.push(c));
        assert(s.push(c)[0] == s[0]);
    } else if s.len() == 0 {
        assert(s.push(c).drop_first() =~= s);
        assert(s.push(c)[0] == c);
    } else {
        assert(s.push(c)[0] == s[0]);
        assert(s.push(c).drop_last() =~= s);
    }
}

/// White space around a text makes no difference to its branch name.
pub proof fn white_space_around_is_dropped(c: char, raw: Seq<char>)
    requires
        is_white(c),
    ensures
        sanitized(seq![c] + raw) == sanitized(raw),
        sanitized(raw.push(c)) == sanitized(raw),
{
    lemma_strip_front(c, raw, |c: char| is_white(c));
    lemma_strip_back(raw, c, |c: char| is_white(c));
}

/// The text starts and ends in a character that is no white space.
pub open spec fn tight(s: Seq<char>) -> bool {
    s.len() > 0 && !is_white(s[0]) && !is_white(s.last())
}

proof fn lemma_tight(s: Seq<char>)
    requires
        s.len() == 0 || tight(s),
    ensures
        trimmed(s) == s,
{
    lemma_strip_id(s, |c: char| is_white(c));
}

/// Dashes, slashes and dots around a text make no difference to its branch name.
pub proof fn edges_are_dropped(c: char, raw: Seq<char>)
    requires
        c == '-' || c == '/' || c == '.',
        tight(raw),
    ensures
        sanitized(seq![c] + raw) == sanitized(raw),
        sanitized(raw.push(c)) == sanitized(raw),
{
    let a = seq![c] + raw;
    let b = raw.push(c);
    let e = |c: char| is_edge(c);
    lemma_tight(raw);
    assert(a[0] == c && a.last() == raw.last());
    assert(b[0] == raw[0]);
    lemma_tight(a);
    lemma_tight(b);
    assert(dashed(a) =~= seq![c] + dashed(raw));
    assert(dashed(b) =~= dashed(raw).push(c));
    lemma_strip_front(c, dashed(raw), e);
    lemma_strip_back(dashed(raw), c, e);
}

/// A character that a branch name does not keep counts as a dash.
pub proof fn other_characters_count_as_dashes(a: Seq<char>, c: char, b: Seq<char>)
    requires
        !('a' <= c <= 'z' || 'A' <= c <= 'Z' || '0' <= c <= '9' || c == '_' || c == '/' || c == '.'
            || c == '-'),
        tight(a),
        tight(b),
    ensures
        sanitized(a + seq![c] + b) == sanitized(a + seq!['-'] + b),
{
    let x = a + seq![c] + b;
    let y = a + seq!['-'] + b;
    assert(x[0] == a[0] && x.last() == b.last());
    assert(y[0] == a[0] && y.last() == b.last());
    lemma_tight(x);
    lemma_tight(y);
    assert(dashed(x) =~= dashed(y));
}

proof fn lemma_squeezed_twice(a: Seq<char>, c: char, b: Seq<char>)
    ensures
        squeezed(a + seq![c, c] + b, c) == squeezed(a + seq![c] + b, c),
    decreases a.len(),
{
    let x = a + seq![c, c] + b;
    let y = a + seq![c] + b;
    if a.len() == 0 {
        assert(x.drop_first() =~= y);
    } else {
        let d = a.drop_first();
        lemma_squeezed_twice(d, c, b);
        assert(x.drop_first() =~= d + seq![c, c] + b);
        assert(y.drop_first() =~= d + seq![c] + b);
        assert(x[0] == y[0] == a[0]);
        if a.len() > 1 {
            assert(x[1] == y[1] == a[1]);
        } else {
            assert(x[1] == c && y[1] == c);
        }
    }
}

proof fn lemma_squeezed_other(a: Seq<char>, c: char, x: char, b: Seq<char>)
    requires
        x != c,
    ensures
        squeezed(a + seq![x, x] + b, c) == squeezed(a.push(x), c) + squeezed(seq![x] + b, c),
        squeezed(a + seq![x] + b, c) == squeezed(a, c) + squeezed(seq![x] + b, c),
    decreases a.len(),
{
    let two = a + seq![x, x] + b;
    let one = a + seq![x] + b;
    let xb = seq![x] + b;
    if a.len() == 0 {
        assert(two.drop_first() =~= xb);
        assert(two[0] == x && two[1] == x);
        assert(squeezed(two, c) =~= seq![x] + squeezed(xb, c));
        assert(a.push(x) =~= seq![x]);
        assert(squeezed(seq![x], c) =~= seq![x]);
        assert(one =~= xb);
        assert(squeezed(a, c) + squeezed(xb, c) =~= squeezed(xb, c));
    } else {
        let d = a.drop_first();
        lemma_squeezed_other(d, c, x, b);
        assert(two.drop_first() =~= d + seq![x, x] + b);
        assert(one.drop_first() =~= d + seq![x] + b);
        assert(a.push(x).drop_first() =~= d.push(x));
        assert(two[0] == a[0] && one[0] == a[0] && a.push(x)[0] == a[0]);
        if a.len() > 1 {
            assert(two[1] == a[1] && one[1] == a[1] && a.push(x)[1] == a[1]);
        } else {
            assert(two[1] == x && one[1] == x && a.push(x)[1] == x);
            assert(d =~= Seq::<char>::empty());
            assert(squeezed(a, c) == a);
            assert(squeezed(d, c) + squeezed(xb, c) =~= squeezed(xb, c));
        }
        let q = squeezed(xb, c);
        assert((seq![a[0]] + squeezed(d.push(x), c)) + q =~= seq![a[0]] + (squeezed(d.push(x), c)
            + q));
        assert((seq![a[0]] + squeezed(d, c)) + q =~= seq![a[0]] + (squeezed(d, c) + q));
    }
}

/// Two dashes in a row inside a text count as one, and so do two slashes.
pub proof fn repeated_dashes_and_slashes_count_once(a: Seq<char>, b: Seq<char>)
    requires
        a.len() > 0 && is_word(a[0]) && is_word(a.last()),
        b.len() > 0 && is_word(b[0]) && is_word(b.last()),
    ensures
        sanitized(a + seq!['-', '-'] + b) == sanitized(a + seq!['-'] + b),
        sanitized(a + seq!['/', '/'] + b) == sanitized(a + seq!['/'] + b),
{
    lemma_core_of(a, seq!['-', '-'], b);
    lemma_core_of(a, seq!['-'], b);
    lemma_core_of(a, seq!['/', '/'], b);
    lemma_core_of(a, seq!['/'], b);
    let da = dashed(a);
    let db = dashed(b);
    lemma_squeezed_twice(da, '-', db);
    lemma_squeezed_other(da, '-', '/', db);
    // Behind a slash the dashes are squeezed as they would be alone.
    let q = squeezed(seq!['/'] + db, '-');
    let p = squeezed(da, '-');
    lemma_squeezed_push(da, '-', '/');
    assert(q[0] == '/') by {
        lemma_squeezed_head(seq!['/'] + db, '-');
    }
    let t = q.drop_first();
    assert(q =~= seq!['/'] + t);
    assert(p.push('/') + q =~= p + seq!['/', '/'] + t);
    assert(p + q =~= p + seq!['/'] + t);
    lemma_squeezed_twice(p, '/', t);
}

proof fn lemma_squeezed_head(s: Seq<char>, c: char)
    requires
        s.len() > 0,
    ensures
        squeezed(s, c).len() > 0,
        squeezed(s, c)[0] == s[0],
    decreases s.len(),
{
    if s.len() >= 2 {
        lemma_squeezed_head(s.drop_first(), c);
    }
}

proof fn lemma_squeezed_push(s: Seq<char>, c: char, x: char)
    requires
        x != c,
    ensures
        squeezed(s.push(x), c) == squeezed(s, c).push(x),
    decreases s.len(),
{
    let t = s.push(x);
    if s.len() == 0 {
        assert(t =~= squeezed(s, c).push(x));
    } else {
        let d = s.drop_first();
        lemma_squeezed_push(d, c, x);
        assert(t.drop_first() =~= d.push(x));
        assert(t[0] == s[0]);
        if s.len() > 1 {
            assert(t[1] == s[1]);
        } else {
            assert(t[1] == x);
            assert(d =~= Seq::<char>::empty());
        }
        assert(squeezed(t, c) =~= squeezed(s, c).push(x));
    }
}

/// What is between two words is left for the squeezing as it is.
proof fn lemma_core_of(a: Seq<char>, m: Seq<char>, b: Seq<char>)
    requires
        a.len() > 0 && is_word(a[0]),
        b.len() > 0 && is_word(b.last()),
        forall|i: int| 0 <= i < m.len() ==> is_allowed(#[trigger] m[i]),
    ensures
        strip(dashed(trimmed(a + m + b)), |c: char| is_edge(c)) == dashed(a) + m + dashed(b),
{
    let s = a + m + b;
    assert(s[0] == a[0] && s.last() == b.last());
    lemma_tight(s);
    let d = dashed(s);
    assert(d =~= dashed(a) + m + dashed(b));
    assert(d[0] == a[0] && d.last() == b.last());
    lemma_strip_id(d, |c: char| is_edge(c));
}

/// Two dots in a row between two clean names count as a dash.
pub proof fn two_dots_count_as_a_dash(a: Seq<char>, b: Seq<char>)
    requires
        a.len() > 0 && is_word(a[0]) && is_word(a.last()),
        b.len() > 0 && is_word(b[0]) && is_word(b.last()),
        all_allowed(a) && no_pair(a, '-', '-') && no_pair(a, '/', '/') && no_pair(a, '.', '.'),
        all_allowed(b) && no_pair(b, '-', '-') && no_pair(b, '/', '/') && no_pair(b, '.', '.'),
    ensures
        sanitized(a + seq!['.', '.'] + b) == a + seq!['-'] + b,
{
    let m = seq!['.', '.'];
    let s = a + m + b;
    lemma_core_of(a, m, b);
    lemma_dashed_id(a);
    lemma_dashed_id(b);
    lemma_no_pair_between(a, m, b, '-');
    lemma_no_pair_between(a, m, b, '/');
    assert forall|i: int| 0 <= i < s.len() implies is_allowed(#[trigger] s[i]) by {
        if i < a.len() {
            assert(s[i] == a[i]);
        } else if i >= a.len() + 2 {
            assert(s[i] == b[i - a.len() - 2]);
        }
    }
    lemma_squeezed(s, '-');
    lemma_squeezed(s, '/');
    lemma_replaced_between(a, b);
    let w = a + seq!['-'] + b;
    assert(no_pair(w, '@', '{')) by {
        assert forall|i: int| 0 <= i < w.len() - 1 && #[trigger] w[i] == '@' implies w[i + 1]
            != '{' by {
            if i < a.len() {
                assert(is_allowed(a[i]));
            } else if i > a.len() {
                assert(is_allowed(b[i - a.len() - 1]));
            }
        }
    }
    assert forall|i: int| 0 <= i < w.len() implies is_allowed(#[trigger] w[i]) by {
        if i < a.len() {
            assert(w[i] == a[i]);
        } else if i > a.len() {
            assert(w[i] == b[i - a.len() - 1]);
        }
    }
    lemma_pairs_replaced(w, '@', '{', '-');
}

proof fn lemma_dashed_id(s: Seq<char>)
    requires
        all_allowed(s),
    ensures
        dashed(s) == s,
{
    assert forall|i: int| 0 <= i < s.len() implies dashed(s)[i] == s[i] by {
        assert(is_allowed(s[i]));
    }
    assert(dashed(s) =~= s);
}

proof fn lemma_no_pair_between(a: Seq<char>, m: Seq<char>, b: Seq<char>, x: char)
    requires
        x != '.',
        m == seq!['.', '.'],
        no_pair(a, x, x),
        no_pair(b, x, x),
    ensures
        no_pair(a + m + b, x, x),
{
    let s = a + m + b;
    assert forall|i: int| 0 <= i < s.len() - 1 && #[trigger] s[i] == x implies s[i + 1] != x by {
        if i < a.len() - 1 {
            assert(a[i] == x);
            assert(s[i + 1] == a[i + 1]);
        } else if i >= a.len() + 2 {
            assert(b[i - a.len() - 2] == x);
            assert(s[i + 1] == b[i + 1 - a.len() - 2]);
        } else if i == a.len() - 1 {
            assert(s[i + 1] == '.');
        }
    }
}

proof fn lemma_replaced_between(a: Seq<char>, b: Seq<char>)
    requires
        a.len() == 0 || a.last() != '.',
        no_pair(a, '.', '.'),
        no_pair(b, '.', '.'),
        all_allowed(b),
    ensures
        pairs_replaced(a + seq!['.', '.'] + b, '.', '.', '-') == a + seq!['-'] + b,
    decreases a.len(),
{
    let s = a + seq!['.', '.'] + b;
    if a.len() == 0 {
        assert(s[0] == '.' && s[1] == '.');
        assert(s.skip(2) =~= b);
        lemma_pairs_replaced(b, '.', '.', '-');
        assert(seq!['-'] + b =~= a + seq!['-'] + b);
    } else {
        let d = a.drop_first();
        assert(s.drop_first() =~= d + seq!['.', '.'] + b);
        assert(s[0] == a[0]);
        if d.len() > 0 {
            assert(d.last() == a.last());
            assert(s[1] == a[1]);
            assert(a[0] == '.' ==> a[1] != '.');
        } else {
            assert(a[0] == a.last());
        }
        assert forall|i: int| 0 <= i < d.len() - 1 && #[trigger] d[i] == '.' implies d[i + 1]
            != '.' by {
            assert(a[i + 1] == '.');
        }
        lemma_replaced_between(d, b);
        assert(seq![a[0]] + (d + seq!['-'] + b) =~= a + seq!['-'] + b);
    }
}

} // verus!
