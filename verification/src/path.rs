//! Slash-separated paths held as text.
//!
//! A path is read as its components: repeated slashes, a trailing slash and
//! `.` components count for nothing, except for a `.` that leads the path.

use crate::text::{
    chars_of, lemma_position, lemma_position_at, pieces, position, same, split, string_between,
    texts,
};
use vstd::prelude::*;
use vstd::string::*;

verus! {

/// The path starts at the root.
pub open spec fn rooted(s: Seq<char>) -> bool {
    s.len() > 0 && s[0] == '/'
}

/// The path starts with a `.` component.
pub open spec fn dotted(s: Seq<char>) -> bool {
    s.len() > 0 && s[0] == '.' && (s.len() == 1 || s[1] == '/')
}

/// How many characters make up the leading root or `.`.
pub open spec fn lead(s: Seq<char>) -> int {
    if rooted(s) || dotted(s) {
        1
    } else {
        0
    }
}

/// What follows the leading root or `.`.
pub open spec fn body(s: Seq<char>) -> Seq<char> {
    s.skip(lead(s))
}

/// A piece that is no component.
pub open spec fn is_noise(piece: Seq<char>) -> bool {
    piece.len() == 0 || piece == seq!['.']
}

/// The components between the slashes of `b`.
pub open spec fn parts(b: Seq<char>) -> Seq<Seq<char>> {
    pieces(b, '/').filter(|p: Seq<char>| !is_noise(p))
}

/// The components of a path; a leading root or `.` is the first of them.
pub open spec fn components(s: Seq<char>) -> Seq<Seq<char>> {
    if lead(s) == 1 {
        seq![s.take(1)] + parts(body(s))
    } else {
        parts(s)
    }
}

/// Two texts name the same path.
pub open spec fn same_path(a: Seq<char>, b: Seq<char>) -> bool {
    components(a) == components(b)
}

/// `s` is `prefix` or lies under it.
pub open spec fn lies_under(s: Seq<char>, prefix: Seq<char>) -> bool {
    components(prefix).is_prefix_of(components(s))
}

/// Where the last slash of `b` is, or -1.
pub open spec fn last_slash(b: Seq<char>) -> int
    decreases b.len(),
{
    if b.len() == 0 {
        -1
    } else if b.last() == '/' {
        b.len() - 1
    } else {
        last_slash(b.drop_last())
    }
}

/// The piece of `b` after its last slash.
pub open spec fn last_piece(b: Seq<char>) -> Seq<char> {
    b.skip(last_slash(b) + 1)
}

/// `b` without its last piece and the slash before it.
pub open spec fn before_last(b: Seq<char>) -> Seq<char> {
    b.take(if last_slash(b) >= 0 {
        last_slash(b)
    } else {
        0
    })
}

/// What [`last_slash`] finds.
pub proof fn lemma_last_slash(b: Seq<char>)
    ensures
        -1 <= last_slash(b) < b.len(),
        last_slash(b) >= 0 ==> b[last_slash(b)] == '/',
        forall|i: int| last_slash(b) < i < b.len() ==> b[i] != '/',
    decreases b.len(),
{
    if b.len() > 0 && b.last() != '/' {
        lemma_last_slash(b.drop_last());
        assert forall|i: int| last_slash(b) < i < b.len() implies b[i] != '/' by {
            if i < b.len() - 1 {
                assert(b[i] == b.drop_last()[i]);
            }
        }
    }
}

proof fn lemma_last_slash_at(b: Seq<char>, n: int)
    requires
        -1 <= n < b.len(),
        n >= 0 ==> b[n] == '/',
        forall|i: int| n < i < b.len() ==> b[i] != '/',
    ensures
        last_slash(b) == n,
{
    lemma_last_slash(b);
    let m: int = last_slash(b);
    if m < n {
        assert(b[n] != '/');
    } else if n < m {
        assert(b[m] != '/');
    }
}

/// `b` without the pieces at its end that are no components.
pub open spec fn settled(b: Seq<char>) -> Seq<char>
    decreases b.len(),
{
    proof {
        lemma_last_slash(b);
    }
    if b.len() > 0 && is_noise(last_piece(b)) {
        settled(before_last(b))
    } else {
        b
    }
}

/// The last component of a path, where that is a name.
pub open spec fn file_name(s: Seq<char>) -> Option<Seq<char>> {
    let b = settled(body(s));
    if b.len() == 0 || last_piece(b) == seq!['.', '.'] {
        None
    } else {
        Some(last_piece(b))
    }
}

/// The path without its last component; the root and the empty path have
/// none to take off.
pub open spec fn parent(s: Seq<char>) -> Option<Seq<char>> {
    let b = settled(body(s));
    if b.len() > 0 {
        Some(s.take(lead(s)) + settled(before_last(b)))
    } else if dotted(s) {
        Some(seq![])
    } else {
        None
    }
}

/// `base` with `segment` put behind it; a rooted segment replaces it.
pub open spec fn join(base: Seq<char>, segment: Seq<char>) -> Seq<char> {
    if rooted(segment) {
        segment
    } else if base.len() > 0 && base.last() != '/' {
        base + seq!['/'] + segment
    } else {
        base + segment
    }
}

/// The part of a file name before its extension.
pub open spec fn stem(name: Seq<char>) -> Seq<char> {
    let d = last_dot(name);
    if d > 0 {
        name.take(d)
    } else {
        name
    }
}

/// Where the last dot of `b` is, or -1.
pub open spec fn last_dot(b: Seq<char>) -> int
    decreases b.len(),
{
    if b.len() == 0 {
        -1
    } else if b.last() == '.' {
        b.len() - 1
    } else {
        last_dot(b.drop_last())
    }
}

/// The path with the extension of its file name replaced by `ext`. A path
/// without a file name stays as it is.
pub open spec fn with_extension(s: Seq<char>, ext: Seq<char>) -> Seq<char> {
    match file_name(s) {
        None => s,
        Some(name) => s.take(lead(s) + settled(body(s)).len() - name.len()) + stem(name) + seq!['.']
            + ext,
    }
}

// ---------------------------------------------------------------------
// What the definitions mean for components
// ---------------------------------------------------------------------
/// A slash between two texts separates their pieces.
pub proof fn lemma_pieces_around(a: Seq<char>, c: char, b: Seq<char>)
    ensures
        pieces(a + seq![c] + b, c) == pieces(a, c) + pieces(b, c),
    decreases a.len(),
{
    let s = a + seq![c] + b;
    let p: int = position(a, c);
    lemma_position(a, c);
    if p < a.len() {
        lemma_position_at(s, c, p);
        let a2 = a.skip(p + 1);
        lemma_pieces_around(a2, c, b);
        assert(s.skip(p + 1) == a2 + seq![c] + b);
        assert(s.take(p) == a.take(p));
        assert(pieces(s, c) == seq![a.take(p)] + (pieces(a2, c) + pieces(b, c)));
        assert(seq![a.take(p)] + (pieces(a2, c) + pieces(b, c)) == (seq![a.take(p)] + pieces(a2, c))
            + pieces(b, c));
    } else {
        lemma_position_at(s, c, a.len() as int);
        assert(s.skip(p + 1) == b);
        assert(s.take(p) == a);
    }
}

/// A text without slashes is one piece.
pub proof fn lemma_one_piece(a: Seq<char>, c: char)
    requires
        !a.contains(c),
    ensures
        pieces(a, c) == seq![a],
{
    lemma_position(a, c);
    if position(a, c) < a.len() {
        assert(a[position(a, c)] == c);
    }
}

/// No piece holds the separator.
pub proof fn lemma_piece_free(s: Seq<char>, c: char, i: int)
    requires
        0 <= i < pieces(s, c).len(),
    ensures
        !pieces(s, c)[i].contains(c),
    decreases s.len(),
{
    lemma_position(s, c);
    let p: int = position(s, c);
    if p < s.len() {
        if i > 0 {
            lemma_piece_free(s.skip(p + 1), c, i - 1);
        } else {
            assert forall|k: int| 0 <= k < p implies s.take(p)[k] != c by {
                assert(s[k] != c);
            }
        }
    } else {
        assert forall|k: int| 0 <= k < s.len() implies s[k] != c by {}
    }
}

/// The components on both sides of a slash follow one another.
pub proof fn lemma_parts_around(a: Seq<char>, b: Seq<char>)
    ensures
        parts(a + seq!['/'] + b) == parts(a) + parts(b),
{
    lemma_pieces_around(a, '/', b);
    Seq::filter_distributes_over_add(
        pieces(a, '/'),
        pieces(b, '/'),
        |p: Seq<char>| !is_noise(p),
    );
}

/// A single name is its own only component, and noise is none.
pub proof fn lemma_parts_one(a: Seq<char>)
    requires
        !a.contains('/'),
    ensures
        parts(a) == if is_noise(a) {
            Seq::<Seq<char>>::empty()
        } else {
            seq![a]
        },
{
    lemma_one_piece(a, '/');
    let p = |p: Seq<char>| !is_noise(p);
    reveal_with_fuel(Seq::filter, 2);
    assert(seq![a].drop_last() == Seq::<Seq<char>>::empty());
    assert(seq![a].last() == a);
    if !is_noise(a) {
        assert(Seq::<Seq<char>>::empty().push(a) == seq![a]);
    }
}

/// The last piece, and all before it, together are the whole.
pub proof fn lemma_parts_last(b: Seq<char>)
    requires
        b.len() > 0,
    ensures
        !last_piece(b).contains('/'),
        parts(b) == parts(before_last(b)) + parts(last_piece(b)),
        before_last(b).len() < b.len(),
{
    lemma_last_slash(b);
    let n: int = last_slash(b);
    let t = last_piece(b);
    assert forall|i: int| 0 <= i < t.len() implies t[i] != '/' by {
        assert(t[i] == b[n + 1 + i]);
    }
    if n >= 0 {
        assert(b == before_last(b) + seq!['/'] + t);
        lemma_parts_around(before_last(b), t);
    } else {
        assert(t == b);
        assert(before_last(b) == Seq::<char>::empty());
        lemma_parts_one(Seq::<char>::empty());
        assert(Seq::<Seq<char>>::empty() + parts(t) == parts(t));
    }
}

/// Settling drops no component, and ends in one if it leaves anything.
pub proof fn lemma_settled(b: Seq<char>)
    ensures
        parts(settled(b)) == parts(b),
        settled(b).len() > 0 ==> !is_noise(last_piece(settled(b))),
        settled(b).len() <= b.len(),
        settled(b) == b.take(settled(b).len() as int),
        settled(b).len() < b.len() ==> b[settled(b).len() as int] == '/' || settled(b).len() == 0,
    decreases b.len(),
{
    lemma_last_slash(b);
    if b.len() > 0 && is_noise(last_piece(b)) {
        lemma_parts_last(b);
        lemma_parts_one(last_piece(b));
        assert(parts(before_last(b)) + Seq::<Seq<char>>::empty() == parts(before_last(b)));
        lemma_settled(before_last(b));
        let m: int = settled(b).len() as int;
        assert(before_last(b).take(m) == b.take(m));
        if m < before_last(b).len() {
            assert(before_last(b)[m] == b[m]);
        }
    } else {
        assert(b.take(b.len() as int) == b);
    }
}

/// A settled text with a component ends in it.
proof fn lemma_settled_last(b: Seq<char>)
    requires
        settled(b).len() > 0,
    ensures
        parts(b) == parts(before_last(settled(b))).push(last_piece(settled(b))),
        !last_piece(settled(b)).contains('/'),
{
    lemma_settled(b);
    let t = settled(b);
    lemma_parts_last(t);
    lemma_parts_one(last_piece(t));
    assert(parts(before_last(t)) + seq![last_piece(t)] == parts(before_last(t)).push(
        last_piece(t),
    ));
}

/// Without a component left, there was none.
proof fn lemma_settled_none(b: Seq<char>)
    requires
        settled(b).len() == 0,
    ensures
        parts(b).len() == 0,
{
    lemma_settled(b);
    assert(settled(b) == Seq::<char>::empty());
    lemma_parts_one(Seq::<char>::empty());
}

/// The file name is the last component, and holds no slash.
pub proof fn lemma_file_name(s: Seq<char>)
    requires
        file_name(s) is Some,
    ensures
        components(s).len() > 0,
        components(s).last() == file_name(s)->0,
        !(file_name(s)->0).contains('/'),
        !is_noise(file_name(s)->0),
{
    lemma_settled(body(s));
    lemma_settled_last(body(s));
    assert(s.skip(0) == s);
}

/// A text of one character without a slash is its own last piece.
proof fn lemma_single_piece(u: Seq<char>)
    requires
        u.len() == 1,
        u[0] != '/',
    ensures
        last_piece(u) == u,
{
    lemma_last_slash_at(u, -1);
    assert(u.skip(0) == u);
}

proof fn lemma_parent_lead(s: Seq<char>, u: Seq<char>)
    requires
        u.len() <= body(s).len(),
        u == body(s).take(u.len() as int),
        u.len() > 0 ==> !is_noise(last_piece(u)),
    ensures
        lead(s.take(lead(s)) + u) == lead(s),
        body(s.take(lead(s)) + u) == u,
        lead(s) == 1 ==> (s.take(lead(s)) + u).take(1) == s.take(1),
{
    let p = s.take(lead(s)) + u;
    if lead(s) == 1 {
        assert(p.take(1) == s.take(1));
        assert(p[0] == s[0]);
        if dotted(s) && u.len() > 0 {
            assert(u[0] == body(s)[0]);
            assert(p[1] == s[1]);
        }
        assert(lead(p) == 1);
        assert(body(p) == u);
    } else {
        assert(s.skip(0) == s);
        assert(p == u);
        if u.len() > 0 {
            assert(u[0] == s[0]);
            if u.len() > 1 {
                assert(u[1] == s[1]);
            } else if u[0] == '.' {
                lemma_single_piece(u);
                assert(u == seq!['.']);
            }
        }
        assert(lead(p) == 0);
        assert(u.skip(0) == u);
    }
}

/// The components of the parent are those of the path but the last.
pub proof fn lemma_parent(s: Seq<char>)
    ensures
        match parent(s) {
            Some(p) => components(s).len() > 0 && components(p) == components(s).drop_last(),
            None => components(s).len() == 0 || components(s) == seq![seq!['/']],
        },
{
    let b = body(s);
    let t = settled(b);
    lemma_settled(b);
    if t.len() > 0 {
        let q = before_last(t);
        let u = settled(q);
        lemma_settled_last(b);
        lemma_settled(q);
        lemma_last_slash(t);
        assert(u == b.take(u.len() as int)) by {
            assert(q.take(u.len() as int) == t.take(u.len() as int));
            assert(t.take(u.len() as int) == b.take(u.len() as int));
        }
        lemma_parent_lead(s, u);
        let tail = last_piece(t);
        assert(parts(q).push(tail).drop_last() == parts(q));
        if lead(s) == 1 {
            assert((seq![s.take(1)] + parts(q).push(tail)).drop_last() == seq![s.take(1)] + parts(
                q,
            ));
        } else {
            assert(b == s);
        }
    } else {
        lemma_settled_none(b);
        assert(parts(b) == Seq::<Seq<char>>::empty());
        if dotted(s) {
            lemma_parts_one(Seq::<char>::empty());
            assert(components(Seq::<char>::empty()) == Seq::<Seq<char>>::empty());
            assert(components(s).drop_last() == Seq::<Seq<char>>::empty());
        } else if rooted(s) {
            assert(s.take(1) == seq!['/']);
            assert(components(s) == seq![seq!['/']]);
        } else {
            assert(b == s);
        }
    }
}

/// A relative segment adds its components to those of a base.
pub proof fn lemma_join(base: Seq<char>, segment: Seq<char>)
    requires
        base.len() > 0,
        !rooted(segment),
    ensures
        components(join(base, segment)) == components(base) + parts(segment),
{
    let j = join(base, segment);
    assert(base.skip(0) == base);
    assert(j.skip(0) == j);
    assert(j[0] == base[0]);
    if lead(base) == 1 {
        let b = body(base);
        if b.len() > 0 {
            assert(b.last() == base.last());
            if dotted(base) {
                assert(j[1] == base[1]);
            }
            assert(j.take(1) == base.take(1));
            if base.last() != '/' {
                assert(body(j) == b + seq!['/'] + segment);
                lemma_parts_around(b, segment);
            } else {
                let x = b.drop_last();
                assert(b == x + seq!['/'] + Seq::<char>::empty());
                assert(body(j) == x + seq!['/'] + segment);
                lemma_parts_around(x, Seq::<char>::empty());
                lemma_parts_around(x, segment);
                lemma_parts_one(Seq::<char>::empty());
                assert(parts(x) + Seq::<Seq<char>>::empty() == parts(x));
            }
            assert(seq![base.take(1)] + (parts(b) + parts(segment)) == (seq![base.take(1)] + parts(
                b,
            )) + parts(segment));
        } else {
            assert(b == Seq::<char>::empty());
            lemma_parts_one(b);
            assert(j.take(1) == base.take(1));
            if rooted(base) {
                assert(body(j) == segment);
            } else {
                assert(j[1] == '/');
                assert(body(j) == Seq::<char>::empty() + seq!['/'] + segment);
                lemma_parts_around(Seq::<char>::empty(), segment);
                assert(Seq::<Seq<char>>::empty() + parts(segment) == parts(segment));
            }
            assert(seq![base.take(1)] + Seq::<Seq<char>>::empty() == seq![base.take(1)]);
        }
    } else {
        if base.len() > 1 {
            assert(j[1] == base[1]);
        }
        if base.last() != '/' {
            lemma_parts_around(base, segment);
        } else {
            let x = base.drop_last();
            assert(base == x + seq!['/'] + Seq::<char>::empty());
            assert(j == x + seq!['/'] + segment);
            lemma_parts_around(x, Seq::<char>::empty());
            lemma_parts_around(x, segment);
            lemma_parts_one(Seq::<char>::empty());
            assert(parts(x) + Seq::<Seq<char>>::empty() == parts(x));
        }
        assert(lead(j) == 0) by {
            if base.len() == 1 && base[0] == '.' {
                assert(dotted(base));
            }
        }
    }
}

// ---------------------------------------------------------------------
// Running code
// ---------------------------------------------------------------------
/// The number of characters in the leading root or `.`.
fn lead_of(cs: &Vec<char>) -> (r: usize)
    ensures
        r == lead(cs@),
{
    if cs.len() > 0 && (cs[0] == '/' || (cs[0] == '.' && (cs.len() == 1 || cs[1] == '/'))) {
        1
    } else {
        0
    }
}

fn noise(piece: &str) -> (r: bool)
    ensures
        r == is_noise(piece@),
{
    proof {
        reveal_strlit(".");
        assert("."@ == seq!['.']);
    }
    piece.is_empty() || same(piece, ".")
}

/// The components of a path.
pub fn components_of(s: &str) -> (r: Vec<String>)
    ensures
        texts(r@) == components(s@),
{
    let cs: Vec<char> = chars_of(s);
    let n: usize = lead_of(&cs);
    let mut r: Vec<String> = Vec::new();
    if n == 1 {
        r.push(string_between(&cs, 0, 1));
    }
    let b: String = string_between(&cs, n, cs.len());
    let ps: Vec<String> = split(b.as_str(), '/');
    let ghost keep = |p: Seq<char>| !is_noise(p);
    let ghost head = texts(r@);
    proof {
        assert(b@ == body(s@));
        assert(s@.skip(0) == s@);
        assert(s@.subrange(0, 1) == s@.take(1) || n == 0);
        assert(head == if n == 1 {
            seq![s@.take(1)]
        } else {
            Seq::<Seq<char>>::empty()
        });
        assert(texts(ps@).take(0).filter(keep) == Seq::<Seq<char>>::empty()) by {
            reveal(Seq::filter);
        }
        assert(head + Seq::<Seq<char>>::empty() == head);
    }
    let mut i: usize = 0;
    while i < ps.len()
        invariant
            i <= ps@.len(),
            keep == (|p: Seq<char>| !is_noise(p)),
            texts(r@) == head + texts(ps@).take(i as int).filter(keep),
        decreases ps@.len() - i,
    {
        let ghost before = texts(r@);
        let ghost done = texts(ps@).take(i as int);
        proof {
            reveal(Seq::filter);
            assert(texts(ps@).take(i + 1).drop_last() == done);
            assert(texts(ps@).take(i + 1).last() == ps@[i as int]@);
        }
        if !noise(ps[i].as_str()) {
            r.push(ps[i].clone());
            proof {
                assert(texts(r@) == before.push(ps@[i as int]@));
                assert(before.push(ps@[i as int]@) == head + done.filter(keep).push(ps@[i as int]@));
            }
        }
        i += 1;
    }
    proof {
        assert(texts(ps@).take(i as int) == texts(ps@));
        assert(Seq::<Seq<char>>::empty() + parts(b@) == parts(b@));
    }
    r
}

/// Tells whether the first `n` texts of two lists agree.
fn heads_agree(a: &Vec<String>, b: &Vec<String>, n: usize) -> (r: bool)
    requires
        n <= a@.len(),
        n <= b@.len(),
    ensures
        r == (texts(a@).take(n as int) == texts(b@).take(n as int)),
{
    let mut i: usize = 0;
    while i < n
        invariant
            i <= n,
            n <= a@.len(),
            n <= b@.len(),
            forall|j: int| 0 <= j < i ==> (#[trigger] a@[j])@ == b@[j]@,
        decreases n - i,
    {
        if a[i] != b[i] {
            proof {
                assert(texts(a@).take(n as int)[i as int] == a@[i as int]@);
                assert(texts(b@).take(n as int)[i as int] == b@[i as int]@);
            }
            return false;
        }
        i += 1;
    }
    proof {
        assert(texts(a@).take(n as int) =~= texts(b@).take(n as int));
    }
    true
}

/// Tells whether two texts name the same path.
pub fn paths_equal(a: &str, b: &str) -> (r: bool)
    ensures
        r == same_path(a@, b@),
{
    let x: Vec<String> = components_of(a);
    let y: Vec<String> = components_of(b);
    proof {
        assert(components(a@).len() == x@.len());
        assert(components(b@).len() == y@.len());
        assert(texts(x@).take(x@.len() as int) == texts(x@));
        assert(texts(y@).take(y@.len() as int) == texts(y@));
    }
    x.len() == y.len() && heads_agree(&x, &y, x.len())
}

/// Tells whether `s` is `prefix` or lies under it.
pub fn path_under(s: &str, prefix: &str) -> (r: bool)
    ensures
        r == lies_under(s@, prefix@),
{
    let x: Vec<String> = components_of(prefix);
    let y: Vec<String> = components_of(s);
    proof {
        assert(components(s@).len() == y@.len());
        assert(components(prefix@).len() == x@.len());
        assert(texts(x@).take(x@.len() as int) == texts(x@));
        if x@.len() <= y@.len() {
            assert(components(prefix@).is_prefix_of(components(s@)) <==> texts(x@) == texts(
                y@,
            ).take(x@.len() as int));
        }
    }
    x.len() <= y.len() && heads_agree(&x, &y, x.len())
}

/// The place of the last slash in `cs[from..to]`, or `to` if it has none.
fn find_slash(cs: &Vec<char>, from: usize, to: usize) -> (r: usize)
    requires
        from <= to <= cs@.len(),
    ensures
        from <= r <= to,
        last_slash(cs@.subrange(from as int, to as int)) == if r < to {
            r - from
        } else {
            -1
        },
{
    let ghost b = cs@.subrange(from as int, to as int);
    let mut i: usize = to;
    while i > from && cs[i - 1] != '/'
        invariant
            from <= i <= to <= cs@.len(),
            forall|j: int| i <= j < to ==> cs@[j] != '/',
        decreases i,
    {
        i -= 1;
    }
    proof {
        assert forall|j: int| i - from <= j < b.len() implies b[j] != '/' by {
            assert(b[j] == cs@[j + from]);
        }
    }
    if i > from {
        proof {
            assert(b[i - 1 - from] == '/');
            lemma_last_slash_at(b, i - 1 - from);
        }
        i - 1
    } else {
        proof {
            lemma_last_slash(b);
        }
        to
    }
}

/// Where the settled form of `cs[from..to]` ends.
fn settle(cs: &Vec<char>, from: usize, to: usize) -> (r: usize)
    requires
        from <= to <= cs@.len(),
    ensures
        from <= r <= to,
        cs@.subrange(from as int, r as int) == settled(cs@.subrange(from as int, to as int)),
{
    let ghost whole = cs@.subrange(from as int, to as int);
    let mut e: usize = to;
    loop
        invariant
            from <= e <= to <= cs@.len(),
            settled(cs@.subrange(from as int, e as int)) == settled(whole),
        ensures
            cs@.subrange(from as int, e as int) == settled(whole),
        decreases e,
    {
        if e == from {
            break;
        }
        let ghost b = cs@.subrange(from as int, e as int);
        let p: usize = find_slash(cs, from, e);
        let (start, end): (usize, usize) = if p < e {
            (p + 1, p)
        } else {
            (from, from)
        };
        proof {
            assert(last_piece(b) == cs@.subrange(start as int, e as int));
            assert(before_last(b) == cs@.subrange(from as int, end as int));
        }
        let piece: String = string_between(cs, start, e);
        if !noise(piece.as_str()) {
            break;
        }
        e = end;
    }
    e
}

/// The last component of a path, where that is a name.
pub fn file_name_of(s: &str) -> (r: Option<String>)
    ensures
        match r {
            Some(n) => file_name(s@) == Some(n@),
            None => file_name(s@) is None,
        },
{
    let cs: Vec<char> = chars_of(s);
    let n: usize = lead_of(&cs);
    let e: usize = settle(&cs, n, cs.len());
    let ghost b = cs@.subrange(n as int, e as int);
    proof {
        assert(body(s@) == cs@.subrange(n as int, cs@.len() as int));
        assert(b == settled(body(s@)));
    }
    if e == n {
        return None;
    }
    let p: usize = find_slash(&cs, n, e);
    let start: usize = if p < e {
        p + 1
    } else {
        n
    };
    let name: String = string_between(&cs, start, e);
    proof {
        assert(last_piece(b) == name@);
        reveal_strlit("..");
        assert(".."@ == seq!['.', '.']);
    }
    if same(name.as_str(), "..") {
        None
    } else {
        Some(name)
    }
}

/// The path without its last component.
pub fn parent_of(s: &str) -> (r: Option<String>)
    ensures
        match r {
            Some(p) => parent(s@) == Some(p@),
            None => parent(s@) is None,
        },
{
    let cs: Vec<char> = chars_of(s);
    let n: usize = lead_of(&cs);
    let e: usize = settle(&cs, n, cs.len());
    let ghost b = cs@.subrange(n as int, e as int);
    proof {
        assert(body(s@) == cs@.subrange(n as int, cs@.len() as int));
        assert(b == settled(body(s@)));
    }
    if e == n {
        return if n == 1 && cs[0] == '.' {
            Some(String::new())
        } else {
            None
        };
    }
    let p: usize = find_slash(&cs, n, e);
    let end: usize = if p < e {
        p
    } else {
        n
    };
    let f: usize = settle(&cs, n, end);
    proof {
        assert(before_last(b) == cs@.subrange(n as int, end as int));
        assert(cs@.subrange(0, f as int) == s@.take(n as int) + cs@.subrange(n as int, f as int));
    }
    Some(string_between(&cs, 0, f))
}

/// `base` with `segment` put behind it.
pub fn join_path(base: &str, segment: &str) -> (r: String)
    ensures
        r@ == join(base@, segment@),
{
    let seg: Vec<char> = chars_of(segment);
    if seg.len() > 0 && seg[0] == '/' {
        return segment.to_owned();
    }
    let b: Vec<char> = chars_of(base);
    let mut r: String = base.to_owned();
    if b.len() > 0 && b[b.len() - 1] != '/' {
        r.push('/');
    }
    r.append(segment);
    proof {
        assert(base@.push('/') == base@ + seq!['/']);
    }
    r
}

fn dot_of(cs: &Vec<char>) -> (r: usize)
    ensures
        r <= cs@.len(),
        last_dot(cs@) == if r < cs@.len() {
            r as int
        } else {
            -1
        },
{
    let mut i: usize = cs.len();
    proof {
        assert(cs@.take(i as int) == cs@);
    }
    while i > 0 && cs[i - 1] != '.'
        invariant
            i <= cs@.len(),
            last_dot(cs@.take(i as int)) == last_dot(cs@),
        decreases i,
    {
        proof {
            assert(cs@.take(i as int).drop_last() == cs@.take(i - 1));
        }
        i -= 1;
    }
    proof {
        assert(cs@.take(i as int).len() == i);
        if i > 0 {
            assert(cs@.take(i as int).last() == '.');
        }
    }
    if i > 0 {
        i - 1
    } else {
        cs.len()
    }
}

/// The path with the extension of its file name replaced by `ext`.
pub fn replace_extension(s: &str, ext: &str) -> (r: String)
    ensures
        r@ == with_extension(s@, ext@),
{
    let name: String = match file_name_of(s) {
        Some(name) => name,
        None => {
            return s.to_owned();
        },
    };
    let cs: Vec<char> = chars_of(s);
    let n: usize = lead_of(&cs);
    let e: usize = settle(&cs, n, cs.len());
    let ghost b = cs@.subrange(n as int, e as int);
    let ns: Vec<char> = chars_of(name.as_str());
    let d: usize = dot_of(&ns);
    let keep: usize = if d > 0 && d < ns.len() {
        d
    } else {
        ns.len()
    };
    proof {
        assert(body(s@) == cs@.subrange(n as int, cs@.len() as int));
        assert(b == settled(body(s@)));
        lemma_last_slash(b);
        assert(name@.len() <= b.len());
        assert(ns@.subrange(0, keep as int) == stem(name@));
    }
    let mut r: String = string_between(&cs, 0, e - ns.len());
    r.append(string_between(&ns, 0, keep).as_str());
    r.push('.');
    r.append(ext);
    proof {
        assert(cs@.subrange(0, e - ns@.len()) == s@.take(lead(s@) + b.len() - name@.len()));
        let a = s@.take(lead(s@) + b.len() - name@.len()) + stem(name@);
        assert(a.push('.') == a + seq!['.']);
    }
    r
}

/// A path is under itself, and what is joined to a path is under it.
pub proof fn what_is_joined_lies_under(base: Seq<char>, segment: Seq<char>)
    requires
        base.len() > 0,
        !rooted(segment),
    ensures
        lies_under(base, base),
        lies_under(join(base, segment), base),
{
    lemma_join(base, segment);
}

/// A path is under another exactly if its first components are those of the
/// other.
pub proof fn to_lie_under_is_to_start_with(s: Seq<char>, prefix: Seq<char>)
    ensures
        lies_under(s, prefix) <==> components(prefix).len() <= components(s).len() && forall|i: int|
            0 <= i < components(prefix).len() ==> #[trigger] components(s)[i] == components(
                prefix,
            )[i],
{
    let a = components(prefix);
    let b = components(s);
    if a.len() <= b.len() && forall|i: int| 0 <= i < a.len() ==> #[trigger] b[i] == a[i] {
        assert(a =~= b.subrange(0, a.len() as int));
    }
    if lies_under(s, prefix) {
        assert(a == b.subrange(0, a.len() as int));
        assert forall|i: int| 0 <= i < a.len() implies #[trigger] b[i] == a[i] by {
            assert(b.subrange(0, a.len() as int)[i] == b[i]);
        }
    }
}

proof fn lemma_last_dot_at(b: Seq<char>, n: int)
    requires
        -1 <= n < b.len(),
        n >= 0 ==> b[n] == '.',
        forall|i: int| n < i < b.len() ==> b[i] != '.',
    ensures
        last_dot(b) == n,
    decreases b.len(),
{
    if b.len() > 0 && n < b.len() - 1 {
        let d = b.drop_last();
        assert(b.last() == b[b.len() - 1]);
        assert forall|i: int| n < i < d.len() implies d[i] != '.' by {
            assert(d[i] == b[i]);
        }
        lemma_last_dot_at(d, n);
    }
}

/// The extension of a name is what is behind its last dot, unless that dot leads
/// the name.
pub proof fn the_stem_is_before_the_last_dot(a: Seq<char>, ext: Seq<char>)
    requires
        !ext.contains('.'),
    ensures
        a.len() > 0 ==> stem(a + seq!['.'] + ext) == a,
        stem(ext) == ext,
        stem(seq!['.'] + ext) == seq!['.'] + ext,
{
    assert forall|i: int| 0 <= i < ext.len() implies ext[i] != '.' by {
        assert(ext.contains(ext[i]));
    }
    let s = a + seq!['.'] + ext;
    let n: int = a.len() as int;
    assert forall|i: int| n < i < s.len() implies s[i] != '.' by {
        assert(s[i] == ext[i - n - 1]);
    }
    lemma_last_dot_at(s, n);
    assert(s.take(n) =~= a);
    lemma_last_dot_at(ext, -1);
    let h = seq!['.'] + ext;
    assert forall|i: int| 0 < i < h.len() implies h[i] != '.' by {
        assert(h[i] == ext[i - 1]);
    }
    lemma_last_dot_at(h, 0);
}

/// A name behind a slash is the file name; another extension changes only that
/// name, so the path stays in its directory.
pub proof fn the_name_is_behind_the_last_slash(dir: Seq<char>, name: Seq<char>, ext: Seq<char>)
    requires
        name.len() > 0,
        !name.contains('/'),
        name != seq!['.'],
        name != seq!['.', '.'],
    ensures
        file_name(dir + seq!['/'] + name) == Some(name),
        with_extension(dir + seq!['/'] + name, ext) == dir + seq!['/'] + stem(name) + seq!['.']
            + ext,
{
    let s = dir + seq!['/'] + name;
    let b = body(s);
    let k: int = b.len() - name.len() - 1;
    assert(lead(s) <= dir.len() + 1);
    assert(b.len() == s.len() - lead(s));
    assert forall|i: int| 0 <= i < name.len() implies name[i] != '/' by {
        assert(name.contains(name[i]));
    }
    assert forall|i: int| k < i < b.len() implies b[i] != '/' by {
        assert(b[i] == s[i + lead(s)]);
        assert(s[i + lead(s)] == name[i - k - 1]);
    }
    if k >= 0 {
        assert(b[k] == s[k + lead(s)]);
    }
    lemma_last_slash_at(b, k);
    assert(last_piece(b) =~= name);
    assert(settled(b) == b);
    assert(s.take(lead(s) + b.len() - name.len()) =~= dir + seq!['/']);
}

/// The text is a name: one component, and no more.
pub open spec fn is_name(s: Seq<char>) -> bool {
    s.len() > 0 && !s.contains('/') && s != seq!['.'] && s != seq!['.', '.']
}

proof fn lemma_behind(a: Seq<char>, b: Seq<char>)
    requires
        a.len() > 0,
    ensures
        components(a + seq!['/'] + b) == components(a) + parts(b),
{
    let s = a + seq!['/'] + b;
    assert(s[0] == a[0]);
    if a.len() > 1 {
        assert(s[1] == a[1]);
    } else {
        assert(s[1] == '/');
    }
    assert(lead(s) == lead(a));
    if lead(s) == 1 {
        assert(body(s) =~= body(a) + seq!['/'] + b);
        lemma_parts_around(body(a), b);
        assert(s.take(1) =~= a.take(1));
        assert((seq![a.take(1)] + parts(body(a))) + parts(b) =~= seq![a.take(1)] + (parts(body(a))
            + parts(b)));
    } else {
        lemma_parts_around(a, b);
    }
}

/// More slashes, a slash at the end and `.` components make no difference to a
/// path.
pub proof fn slashes_and_dots_make_no_difference(a: Seq<char>, b: Seq<char>)
    requires
        a.len() > 0,
    ensures
        same_path(a + seq!['/'], a),
        same_path(a + seq!['/', '.'], a),
        same_path(a + seq!['/', '/'] + b, a + seq!['/'] + b),
        same_path(a + seq!['/', '.', '/'] + b, a + seq!['/'] + b),
{
    let none = Seq::<char>::empty();
    let dot = seq!['.'];
    lemma_parts_one(none);
    assert(!dot.contains('/'));
    lemma_parts_one(dot);
    assert(components(a) + Seq::<Seq<char>>::empty() =~= components(a));
    assert(a + seq!['/'] =~= a + seq!['/'] + none);
    lemma_behind(a, none);
    assert(a + seq!['/', '.'] =~= a + seq!['/'] + dot);
    lemma_behind(a, dot);
    lemma_behind(a, b);
    let x = a + seq!['/'];
    assert(a + seq!['/', '/'] + b =~= x + seq!['/'] + b);
    lemma_behind(x, b);
    let y = a + seq!['/', '.'];
    assert(a + seq!['/', '.', '/'] + b =~= y + seq!['/'] + b);
    lemma_behind(y, b);
}

/// Different names in one directory are different paths, and a path that starts
/// at the root is never the same as one that does not.
pub proof fn names_tell_paths_apart(dir: Seq<char>, a: Seq<char>, b: Seq<char>)
    requires
        dir.len() > 0,
        is_name(a),
        is_name(b),
    ensures
        same_path(dir + seq!['/'] + a, dir + seq!['/'] + b) <==> a == b,
        !same_path(dir + seq!['/'] + a, dir),
        !same_path(seq!['/'] + a, b),
{
    lemma_parts_one(a);
    lemma_parts_one(b);
    lemma_behind(dir, a);
    lemma_behind(dir, b);
    let x = components(dir) + seq![a];
    let y = components(dir) + seq![b];
    assert(x.last() == a && y.last() == b);
    let r = seq!['/'] + a;
    assert(r.take(1) =~= seq!['/']);
    assert(components(r)[0] == seq!['/']);
    assert forall|i: int| 0 <= i < b.len() implies b[i] != '/' by {
        assert(b.contains(b[i]));
    }
    if components(b).len() > 0 && components(b)[0] == seq!['/'] {
        assert(lead(b) == 0) by {
            if dotted(b) && b.len() == 1 {
                assert(b =~= seq!['.']);
            }
        }
        assert(components(b) == seq![b]);
        assert(b[0] == '/');
    }
}

/// A name behind a directory has that directory as its parent; a name alone has
/// the empty path, one at the root has the root, and the root has none.
pub proof fn the_parent_is_the_directory(dir: Seq<char>, a: Seq<char>, b: Seq<char>)
    requires
        is_name(a),
        is_name(b),
    ensures
        parent(dir + seq!['/'] + a + seq!['/'] + b) == Some(dir + seq!['/'] + a),
        parent(a) == Some(Seq::<char>::empty()),
        parent(seq!['/'] + a) == Some(seq!['/']),
        parent(seq!['/']) is None,
        parent(Seq::<char>::empty()) is None,
{
    let s = dir + seq!['/'] + a + seq!['/'] + b;
    let none = Seq::<char>::empty();
    assert forall|i: int| 0 <= i < a.len() implies a[i] != '/' by {
        assert(a.contains(a[i]));
    }
    assert forall|i: int| 0 <= i < b.len() implies b[i] != '/' by {
        assert(b.contains(b[i]));
    }
    // The last slash of the path, and the one before it.
    let t = body(s);
    let l: int = lead(s);
    let n: int = dir.len() + 1 + a.len() - l;
    assert(t.len() == s.len() - l);
    assert(t[n] == s[n + l]);
    assert forall|i: int| n < i < t.len() implies t[i] != '/' by {
        assert(t[i] == s[i + l]);
        assert(s[i + l] == b[i - n - 1]);
    }
    lemma_last_slash_at(t, n);
    assert(last_piece(t) =~= b);
    assert(settled(t) == t);
    let q = before_last(t);
    let m: int = dir.len() - l;
    assert forall|i: int| m < i < q.len() implies q[i] != '/' by {
        assert(q[i] == s[i + l]);
        assert(s[i + l] == a[i - m - 1]);
    }
    if m >= 0 {
        assert(q[m] == s[m + l]);
    }
    lemma_last_slash_at(q, m);
    assert(last_piece(q) =~= a);
    assert(settled(q) == q);
    assert(s.take(l) + q =~= dir + seq!['/'] + a);

    // A name alone.
    assert(lead(a) == 0) by {
        if dotted(a) && a.len() == 1 {
            assert(a =~= seq!['.']);
        }
    }
    assert(body(a) =~= a);
    lemma_last_slash_at(a, -1);
    assert(last_piece(a) =~= a);
    assert(settled(a) == a);
    assert(before_last(a) =~= none);
    assert(settled(none) =~= none);
    assert(a.take(0) + none =~= none);

    // A name at the root.
    let r = seq!['/'] + a;
    assert(body(r) =~= a);
    assert(r.take(1) + none =~= seq!['/']);
    assert(body(seq!['/']) =~= none);
    assert(body(none) =~= none);
}

/// A segment goes behind its base with one slash between them; one that starts at
/// the root replaces the base.
pub proof fn a_segment_goes_behind_its_base(base: Seq<char>, segment: Seq<char>)
    ensures
        segment.len() > 0 && segment[0] == '/' ==> join(base, segment) == segment,
        base.len() > 0 && base.last() != '/' && !(segment.len() > 0 && segment[0] == '/') ==> join(
            base,
            segment,
        ) == base + seq!['/'] + segment,
        base.len() > 0 && base.last() == '/' && !(segment.len() > 0 && segment[0] == '/') ==> join(
            base,
            segment,
        ) == base + segment,
        join(Seq::<char>::empty(), segment) == segment,
{
    assert(Seq::<char>::empty() + segment =~= segment);
}

/// A slash at the end of a path makes no difference to its name; a path that ends
/// in `..` has none.
pub proof fn the_name_is_of_the_last_component(dir: Seq<char>, a: Seq<char>)
    requires
        is_name(a),
    ensures
        file_name(a) == Some(a),
        file_name(dir + seq!['/'] + a + seq!['/']) == Some(a),
        file_name(dir + seq!['/', '.', '.']) is None,
        file_name(seq!['/']) is None,
        file_name(Seq::<char>::empty()) is None,
{
    let none = Seq::<char>::empty();
    assert forall|i: int| 0 <= i < a.len() implies a[i] != '/' by {
        assert(a.contains(a[i]));
    }
    assert(lead(a) == 0) by {
        if dotted(a) && a.len() == 1 {
            assert(a =~= seq!['.']);
        }
    }
    assert(body(a) =~= a);
    lemma_last_slash_at(a, -1);
    assert(last_piece(a) =~= a);
    assert(settled(a) == a);

    let s = dir + seq!['/'] + a + seq!['/'];
    let t = body(s);
    let l: int = lead(s);
    let n: int = t.len() - 1;
    assert(t[n] == s[n + l]);
    lemma_last_slash_at(t, n);
    assert(last_piece(t) =~= none);
    let q = before_last(t);
    let m: int = dir.len() - l;
    assert forall|i: int| m < i < q.len() implies q[i] != '/' by {
        assert(q[i] == s[i + l]);
        assert(s[i + l] == a[i - m - 1]);
    }
    if m >= 0 {
        assert(q[m] == s[m + l]);
    }
    lemma_last_slash_at(q, m);
    assert(last_piece(q) =~= a);
    assert(settled(q) == q);
    assert(settled(t) == q);

    let u = dir + seq!['/', '.', '.'];
    let v = body(u);
    let k: int = dir.len() - lead(u);
    assert forall|i: int| k < i < v.len() implies v[i] != '/' by {
        assert(v[i] == u[i + lead(u)]);
    }
    if k >= 0 {
        assert(v[k] == u[k + lead(u)]);
    }
    lemma_last_slash_at(v, k);
    assert(last_piece(v) =~= seq!['.', '.']);
    assert(settled(v) == v);
    assert(body(seq!['/']) =~= none);
    assert(body(none) =~= none);
    assert(settled(none) =~= none);
}

/// A `.` that leads a path counts: the path is not the same without it, and lies
/// in the empty path.
pub proof fn a_leading_dot_counts(a: Seq<char>)
    requires
        is_name(a),
    ensures
        !same_path(seq!['.', '/'] + a, a),
        parent(seq!['.']) == Some(Seq::<char>::empty()),
        file_name(seq!['.']) is None,
        file_name(seq!['.', '/'] + a) == Some(a),
        parent(seq!['.', '/'] + a) == Some(seq!['.']),
{
    let none = Seq::<char>::empty();
    let dot = seq!['.'];
    let s = seq!['.', '/'] + a;
    lemma_parts_one(a);
    assert(s =~= dot + seq!['/'] + a);
    lemma_behind(dot, a);
    assert(body(dot) =~= none);
    lemma_parts_one(none);
    assert(components(dot) =~= seq![dot.take(1)]);
    assert(lead(a) == 0) by {
        if dotted(a) && a.len() > 1 {
            assert(a.contains(a[1]));
        }
        if dotted(a) && a.len() == 1 {
            assert(a =~= dot);
        }
        if rooted(a) {
            assert(a.contains(a[0]));
        }
    }
    assert(components(a) == seq![a]);
    assert((seq![dot.take(1)] + seq![a]).len() == 2);
    the_name_is_behind_the_last_slash(dot, a, none);
    let t = body(s);
    assert(t =~= seq!['/'] + a);
    assert forall|i: int| 0 < i < t.len() implies t[i] != '/' by {
        assert(t[i] == a[i - 1]);
        assert(a.contains(a[i - 1]));
    }
    lemma_last_slash_at(t, 0);
    assert(last_piece(t) =~= a);
    assert(settled(t) == t);
    assert(before_last(t) =~= none);
    assert(settled(none) =~= none);
    assert(s.take(1) + none =~= dot);
}

} // verus!
