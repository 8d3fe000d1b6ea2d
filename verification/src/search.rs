//! First and last elements with a property.

use vstd::prelude::*;

verus! {

/// The place of the first element with the property, or the length of `s`.
pub open spec fn first_such<T>(s: Seq<T>, f: spec_fn(T) -> bool) -> int
    decreases s.len(),
{
    if s.len() == 0 || f(s[0]) {
        0
    } else {
        1 + first_such(s.drop_first(), f)
    }
}

/// The place of the last element with the property, or -1.
pub open spec fn last_such<T>(s: Seq<T>, f: spec_fn(T) -> bool) -> int
    decreases s.len(),
{
    if s.len() == 0 {
        -1
    } else if f(s.last()) {
        s.len() - 1
    } else {
        last_such(s.drop_last(), f)
    }
}

/// What [`first_such`] finds.
pub proof fn lemma_first_such<T>(s: Seq<T>, f: spec_fn(T) -> bool)
    ensures
        0 <= first_such(s, f) <= s.len(),
        forall|i: int| 0 <= i < first_such(s, f) ==> !f(#[trigger] s[i]),
        first_such(s, f) < s.len() ==> f(s[first_such(s, f)]),
    decreases s.len(),
{
    if s.len() > 0 && !f(s[0]) {
        let d = s.drop_first();
        lemma_first_such(d, f);
        assert forall|i: int| 0 <= i < first_such(s, f) implies !f(#[trigger] s[i]) by {
            if i > 0 {
                assert(s[i] == d[i - 1]);
            }
        }
        assert(first_such(d, f) < d.len() ==> d[first_such(d, f)] == s[first_such(s, f)]);
    }
}

/// The first element with the property is the one before which none has it.
pub proof fn lemma_first_such_at<T>(s: Seq<T>, f: spec_fn(T) -> bool, n: int)
    requires
        0 <= n <= s.len(),
        forall|i: int| 0 <= i < n ==> !f(#[trigger] s[i]),
        n < s.len() ==> f(s[n]),
    ensures
        first_such(s, f) == n,
{
    lemma_first_such(s, f);
    let p: int = first_such(s, f);
    if p < n {
        assert(!f(s[p]));
    } else if n < p {
        assert(!f(s[n]));
    }
}

/// The last element with the property is the one behind which none has it.
pub proof fn lemma_last_such_at<T>(s: Seq<T>, f: spec_fn(T) -> bool, n: int)
    requires
        -1 <= n < s.len(),
        forall|i: int| n < i < s.len() ==> !f(#[trigger] s[i]),
        n >= 0 ==> f(s[n]),
    ensures
        last_such(s, f) == n,
    decreases s.len(),
{
    if s.len() > 0 && n < s.len() - 1 {
        assert(!f(s[s.len() - 1]));
        let d = s.drop_last();
        assert forall|i: int| n < i < d.len() implies !f(#[trigger] d[i]) by {
            assert(d[i] == s[i]);
        }
        lemma_last_such_at(d, f, n);
    }
}

/// Every element up to `n` that has the property, and then all the others.
pub proof fn lemma_filter_step<T>(s: Seq<T>, f: spec_fn(T) -> bool, n: int)
    requires
        0 <= n < s.len(),
    ensures
        s.take(n + 1).filter(f) == if f(s[n]) {
            s.take(n).filter(f).push(s[n])
        } else {
            s.take(n).filter(f)
        },
{
    reveal(Seq::filter);
    assert(s.take(n + 1).drop_last() =~= s.take(n));
    assert(s.take(n + 1).last() == s[n]);
}

} // verus!
