//! Values by path, each with the time at which it was found.
//!
//! Times are nanoseconds on a clock that never runs backwards.

use crate::model::{copy_opt, opt_text, Changes, WorktreeInfo};
use crate::path::{components, paths_equal};
use crate::table::{
    as_map, lemma_place, lemma_place_at, lemma_table_push, lemma_table_update, place,
};
use vstd::prelude::*;

verus! {

/// A value that a cache can hold and hand out copies of.
pub trait Cached: Sized {
    /// What the value is, apart from where it is held.
    type Content;

    spec fn content(&self) -> Self::Content;

    fn copy(&self) -> (r: Self)
        ensures
            r.content() == self.content(),
    ;
}

impl Cached for Changes {
    type Content = Changes;

    open spec fn content(&self) -> Changes {
        *self
    }

    fn copy(&self) -> (r: Self) {
        *self
    }
}

/// The path of each working tree, and whether it is the main one.
pub open spec fn trees(v: Seq<WorktreeInfo>) -> Seq<(Seq<char>, bool)> {
    v.map_values(|w: WorktreeInfo| (w.path@, w.is_main))
}

impl Cached for Vec<WorktreeInfo> {
    type Content = Seq<(Seq<char>, bool)>;

    open spec fn content(&self) -> Seq<(Seq<char>, bool)> {
        trees(self@)
    }

    fn copy(&self) -> (r: Self) {
        let mut r: Vec<WorktreeInfo> = Vec::new();
        let mut i: usize = 0;
        while i < self.len()
            invariant
                i <= self@.len(),
                r@ == self@.take(i as int),
            decreases self@.len() - i,
        {
            r.push(self[i].clone());
            i += 1;
        }
        proof {
            assert(self@.take(i as int) =~= self@);
        }
        r
    }
}

impl Cached for Option<String> {
    type Content = Option<Seq<char>>;

    open spec fn content(&self) -> Option<Seq<char>> {
        opt_text(*self)
    }

    fn copy(&self) -> (r: Self) {
        copy_opt(self)
    }
}

/// The whole milliseconds from `at` to `now`.
pub open spec fn elapsed_ms(at: u64, now: u64) -> int {
    if now >= at {
        (now - at) / 1_000_000
    } else {
        0
    }
}

/// A value found at `at` still counts at `now`.
pub open spec fn is_recent(at: u64, now: u64, ttl_ms: u64) -> bool {
    elapsed_ms(at, now) < ttl_ms
}

fn recent(at: u64, now: u64, ttl_ms: u64) -> (r: bool)
    ensures
        r == is_recent(at, now, ttl_ms),
{
    let ms: u64 = if now >= at {
        (now - at) / 1_000_000
    } else {
        0
    };
    ms < ttl_ms
}

/// Values by path. Texts that name the same path are the same key.
pub struct PathMap<T> {
    rows: Vec<(String, T, u64)>,
}

/// The values in a list of pairs, by path.
pub open spec fn pairs_map<T: Cached>(v: Seq<(String, T)>) -> Map<Seq<Seq<char>>, T::Content> {
    as_map(pair_keys(v), pair_vals(v))
}

/// The path of each pair.
pub open spec fn pair_keys<T: Cached>(v: Seq<(String, T)>) -> Seq<Seq<Seq<char>>> {
    v.map_values(|p: (String, T)| components(p.0@))
}

/// The value of each pair.
pub open spec fn pair_vals<T: Cached>(v: Seq<(String, T)>) -> Seq<T::Content> {
    v.map_values(|p: (String, T)| p.1.content())
}

/// The text of the path of each pair.
pub open spec fn pair_texts<T>(v: Seq<(String, T)>) -> Seq<Seq<char>> {
    v.map_values(|p: (String, T)| p.0@)
}

/// The texts of the paths in a list of pairs, by path.
pub open spec fn pairs_names<T: Cached>(v: Seq<(String, T)>) -> Map<Seq<Seq<char>>, Seq<char>> {
    as_map(pair_keys(v), pair_texts(v))
}

/// The texts that are kept once `path` was put in: a path that is there already
/// keeps its text.
pub open spec fn named(names: Map<Seq<Seq<char>>, Seq<char>>, path: Seq<char>) -> Map<
    Seq<Seq<char>>,
    Seq<char>,
> {
    if names.contains_key(components(path)) {
        names
    } else {
        names.insert(components(path), path)
    }
}

/// The texts that are kept once the path of every pair was put in, in order.
pub open spec fn all_named<T>(
    names: Map<Seq<Seq<char>>, Seq<char>>,
    v: Seq<(String, T)>,
) -> Map<Seq<Seq<char>>, Seq<char>>
    decreases v.len(),
{
    if v.len() == 0 {
        names
    } else {
        named(all_named(names, v.drop_last()), v.last().0@)
    }
}

/// The map after every pair was put into it with the time `at`, in order.
pub open spec fn loaded<T: Cached>(
    m: Map<Seq<Seq<char>>, (T::Content, u64)>,
    v: Seq<(String, T)>,
    at: u64,
) -> Map<Seq<Seq<char>>, (T::Content, u64)>
    decreases v.len(),
{
    if v.len() == 0 {
        m
    } else {
        loaded(m, v.drop_last(), at).insert(components(v.last().0@), (v.last().1.content(), at))
    }
}

impl<T: Cached> PathMap<T> {
    pub closed spec fn keys(&self) -> Seq<Seq<Seq<char>>> {
        self.rows@.map_values(|r: (String, T, u64)| components(r.0@))
    }

    pub closed spec fn vals(&self) -> Seq<(T::Content, u64)> {
        self.rows@.map_values(|r: (String, T, u64)| (r.1.content(), r.2))
    }

    pub closed spec fn spellings(&self) -> Seq<Seq<char>> {
        self.rows@.map_values(|r: (String, T, u64)| r.0@)
    }

    /// The text that each path was first put in with.
    pub closed spec fn names(&self) -> Map<Seq<Seq<char>>, Seq<char>> {
        as_map(self.keys(), self.spellings())
    }

    /// No path occurs twice.
    pub closed spec fn wf(&self) -> bool {
        self.keys().no_duplicates()
    }

    /// The value of each path, and when it was found.
    pub closed spec fn view(&self) -> Map<Seq<Seq<char>>, (T::Content, u64)> {
        as_map(self.keys(), self.vals())
    }

    /// A path has a text exactly if it has a value.
    pub proof fn names_go_with_values(&self)
        ensures
            self.names().dom() == self@.dom(),
    {
        assert(self.names().dom() =~= self@.dom());
    }

    /// No values.
    pub fn new() -> (r: Self)
        ensures
            r.wf(),
            r@ == Map::<Seq<Seq<char>>, (T::Content, u64)>::empty(),
            r.names() == Map::<Seq<Seq<char>>, Seq<char>>::empty(),
    {
        let r = PathMap { rows: Vec::new() };
        proof {
            assert(r@ =~= Map::<Seq<Seq<char>>, (T::Content, u64)>::empty());
            assert(r.names() =~= Map::<Seq<Seq<char>>, Seq<char>>::empty());
        }
        r
    }

    fn find(&self, path: &str) -> (r: usize)
        ensures
            r == place(self.keys(), components(path@)),
            r <= self.rows@.len(),
    {
        let ghost k = components(path@);
        let mut i: usize = 0;
        while i < self.rows.len() && !paths_equal(self.rows[i].0.as_str(), path)
            invariant
                i <= self.rows@.len(),
                k == components(path@),
                forall|j: int| 0 <= j < i ==> self.keys()[j] != k,
            decreases self.rows@.len() - i,
        {
            proof {
                assert(self.keys()[i as int] == components(self.rows@[i as int].0@));
            }
            i += 1;
        }
        proof {
            if i < self.rows@.len() {
                assert(self.keys()[i as int] == components(self.rows@[i as int].0@));
            }
            lemma_place_at(self.keys(), k, i as int);
        }
        i
    }

    /// A copy of the value of `path`, if it is there and younger than
    /// `ttl_ms`.
    pub fn lookup(&self, path: &str, now: u64, ttl_ms: u64) -> (r: Option<T>)
        ensures
            r is Some <==> self@.contains_key(components(path@)) && is_recent(
                self@[components(path@)].1,
                now,
                ttl_ms,
            ),
            r is Some ==> (r->0).content() == self@[components(path@)].0,
    {
        let i: usize = self.find(path);
        if i < self.rows.len() {
            proof {
                assert(self.vals()[i as int] == (
                    self.rows@[i as int].1.content(),
                    self.rows@[i as int].2,
                ));
            }
            if recent(self.rows[i].2, now, ttl_ms) {
                return Some(self.rows[i].1.copy());
            }
        }
        None
    }

    /// Puts `v` in as the value of `path`, found at `at`. A path that is there
    /// already keeps its text.
    pub fn insert(&mut self, path: &str, v: T, at: u64)
        requires
            old(self).wf(),
        ensures
            final(self).wf(),
            final(self)@ == old(self)@.insert(components(path@), (v.content(), at)),
            final(self).names() == named(old(self).names(), path@),
    {
        let i: usize = self.find(path);
        let ghost k = components(path@);
        let ghost c = (v.content(), at);
        let ghost ks = self.keys();
        let ghost vs = self.vals();
        let ghost ns = self.spellings();
        if i < self.rows.len() {
            let key: String = self.rows[i].0.clone();
            self.rows.set(i, (key, v, at));
            proof {
                assert(self.keys() =~= ks);
                assert(self.spellings() =~= ns);
                assert(self.vals() =~= vs.update(i as int, c));
                lemma_table_update(ks, vs, k, c);
            }
        } else {
            self.rows.push((path.to_owned(), v, at));
            proof {
                assert(self.keys() =~= ks.push(k));
                assert(self.vals() =~= vs.push(c));
                assert(self.spellings() =~= ns.push(path@));
                lemma_table_push(ks, vs, k, c);
                lemma_table_push(ks, ns, k, path@);
            }
        }
    }

    /// The value of `path`: the one in the map if it is younger than
    /// `ttl_ms`, else the one that `f` finds, which then goes into the map.
    /// `f` hands back the value and the time at which it had it.
    pub fn cached<F: FnOnce() -> (T, u64)>(
        &mut self,
        path: &str,
        now: u64,
        ttl_ms: u64,
        f: F,
    ) -> (r: T)
        requires
            old(self).wf(),
            f.requires(()),
        ensures
            final(self).wf(),
            hits(old(self)@, path@, now, ttl_ms) ==> r.content() == old(self)@[components(path@)].0
                && final(self)@ == old(self)@,
            !hits(old(self)@, path@, now, ttl_ms) ==> exists|v: T, at: u64|
                #[trigger] f.ensures((), (v, at)) && r.content() == v.content() && final(self)@
                    == old(self)@.insert(components(path@), (v.content(), at)),
            final(self).names() == if hits(old(self)@, path@, now, ttl_ms) {
                old(self).names()
            } else {
                named(old(self).names(), path@)
            },
    {
        let (v, found): (T, Option<u64>) = hit_or(self.lookup(path, now, ttl_ms), f);
        if let Some(at) = found {
            self.insert(path, v.copy(), at);
            proof {
                assert(f.ensures((), (v, at)));
            }
        }
        v
    }

    /// Puts in every pair, with the time `at`.
    pub fn load(&mut self, v: &Vec<(String, T)>, at: u64)
        requires
            old(self).wf(),
        ensures
            final(self).wf(),
            final(self)@ == loaded(old(self)@, v@, at),
            final(self).names() == all_named(old(self).names(), v@),
    {
        let ghost m = self@;
        let ghost names = self.names();
        let mut i: usize = 0;
        proof {
            assert(v@.take(0).len() == 0);
        }
        while i < v.len()
            invariant
                i <= v@.len(),
                self.wf(),
                self@ == loaded(m, v@.take(i as int), at),
                self.names() == all_named(names, v@.take(i as int)),
            decreases v@.len() - i,
        {
            proof {
                assert(v@.take(i + 1).drop_last() =~= v@.take(i as int));
                assert(v@.take(i + 1).last() == v@[i as int]);
            }
            self.insert(v[i].0.as_str(), v[i].1.copy(), at);
            i += 1;
        }
        proof {
            assert(v@.take(i as int) =~= v@);
        }
    }

    /// Every path with its value, without the times, in some order. Each path has
    /// the text that is kept for it.
    pub fn to_pairs(&self) -> (r: Vec<(String, T)>)
        requires
            self.wf(),
        ensures
            pair_keys(r@).no_duplicates(),
            pairs_map(r@) == self@.map_values(|c: (T::Content, u64)| c.0),
            pairs_names(r@) == self.names(),
    {
        let mut r: Vec<(String, T)> = Vec::new();
        let mut i: usize = 0;
        while i < self.rows.len()
            invariant
                i <= self.rows@.len(),
                r@.len() == i,
                forall|j: int| 0 <= j < i ==> (#[trigger] r@[j]).0@ == self.rows@[j].0@,
                forall|j: int|
                    0 <= j < i ==> (#[trigger] r@[j]).1.content() == self.rows@[j].1.content(),
            decreases self.rows@.len() - i,
        {
            r.push((self.rows[i].0.clone(), self.rows[i].1.copy()));
            i += 1;
        }
        proof {
            assert(pair_keys(r@) =~= self.keys());
            assert(pair_texts(r@) =~= self.spellings());
            let a = pairs_map(r@);
            let b = self@.map_values(|c: (T::Content, u64)| c.0);
            assert forall|k: Seq<Seq<char>>| a.contains_key(k) implies #[trigger] a[k] == b[k] by {
                lemma_place(self.keys(), k);
                assert(self.vals()[place(self.keys(), k)].0 == pair_vals(r@)[place(
                    self.keys(),
                    k,
                )]);
            }
            assert(a =~= b);
        }
        r
    }
}

/// The value that was looked up, or else the one that `f` finds, with the time
/// at which it had it: that one is to be put in.
pub fn hit_or<T: Cached, F: FnOnce() -> (T, u64)>(hit: Option<T>, f: F) -> (r: (T, Option<u64>))
    requires
        f.requires(()),
    ensures
        match hit {
            Some(v) => r == (v, None::<u64>),
            None => r.1 is Some && f.ensures((), (r.0, r.1->0)),
        },
{
    match hit {
        Some(v) => (v, None),
        None => {
            let (v, at): (T, u64) = f();
            (v, Some(at))
        },
    }
}

/// The value of `path` is in the map and young enough.
pub open spec fn hits<C>(m: Map<Seq<Seq<char>>, (C, u64)>, path: Seq<char>, now: u64, ttl_ms: u64) -> bool {
    m.contains_key(components(path)) && is_recent(m[components(path)].1, now, ttl_ms)
}

/// With distinct paths, loading pairs into an empty map gives each path its
/// own value.
pub proof fn lemma_loaded<T: Cached>(v: Seq<(String, T)>, at: u64)
    requires
        pair_keys(v).no_duplicates(),
    ensures
        loaded(Map::<Seq<Seq<char>>, (T::Content, u64)>::empty(), v, at) == pairs_map(
            v,
        ).map_values(|c: T::Content| (c, at)),
    decreases v.len(),
{
    let none = Map::<Seq<Seq<char>>, (T::Content, u64)>::empty();
    let f = |c: T::Content| (c, at);
    if v.len() == 0 {
        assert(pairs_map(v).map_values(f) =~= none);
    } else {
        let d = v.drop_last();
        let ks = pair_keys(d);
        let k = components(v.last().0@);
        assert(pair_keys(v) =~= ks.push(k));
        assert(pair_vals(v) =~= pair_vals(d).push(v.last().1.content()));
        assert(ks.no_duplicates()) by {
            assert forall|i: int, j: int| 0 <= i < ks.len() && 0 <= j < ks.len() && i != j implies ks[i]
                != ks[j] by {
                assert(pair_keys(v)[i] == ks[i] && pair_keys(v)[j] == ks[j]);
            }
        }
        lemma_loaded(d, at);
        assert(place(ks, k) == ks.len()) by {
            assert forall|i: int| 0 <= i < ks.len() implies ks[i] != k by {
                assert(pair_keys(v)[i] == ks[i] && pair_keys(v)[ks.len() as int] == k);
            }
            lemma_place_at(ks, k, ks.len() as int);
        }
        lemma_table_push(ks, pair_vals(d), k, v.last().1.content());
        assert(pairs_map(v).map_values(f) =~= pairs_map(d).map_values(f).insert(
            k,
            (v.last().1.content(), at),
        ));
    }
}

/// What a map hands out as pairs and another map takes in is there again:
/// every path, and no other, with its value.
pub proof fn pairs_restore_the_map<T: Cached>(
    m: Map<Seq<Seq<char>>, (T::Content, u64)>,
    v: Seq<(String, T)>,
    at: u64,
)
    requires
        pair_keys(v).no_duplicates(),
        pairs_map(v) == m.map_values(|c: (T::Content, u64)| c.0),
    ensures
        loaded(Map::<Seq<Seq<char>>, (T::Content, u64)>::empty(), v, at) == m.map_values(
            |c: (T::Content, u64)| (c.0, at),
        ),
{
    lemma_loaded(v, at);
    let a = pairs_map(v).map_values(|c: T::Content| (c, at));
    let b = m.map_values(|c: (T::Content, u64)| (c.0, at));
    assert forall|k: Seq<Seq<char>>| #[trigger] a.contains_key(k) implies a[k] == b[k] by {
        assert(pairs_map(v)[k] == m[k].0);
    }
    assert(a =~= b);
}

/// What a map hands out as pairs and another map takes in has the same texts for
/// its paths.
pub proof fn pairs_restore_the_names<T: Cached>(
    names: Map<Seq<Seq<char>>, Seq<char>>,
    v: Seq<(String, T)>,
)
    requires
        pair_keys(v).no_duplicates(),
        pairs_names(v) == names,
    ensures
        all_named(Map::<Seq<Seq<char>>, Seq<char>>::empty(), v) == names,
{
    lemma_all_named(v);
}

proof fn lemma_all_named<T: Cached>(v: Seq<(String, T)>)
    requires
        pair_keys(v).no_duplicates(),
    ensures
        all_named(Map::<Seq<Seq<char>>, Seq<char>>::empty(), v) == pairs_names(v),
    decreases v.len(),
{
    let none = Map::<Seq<Seq<char>>, Seq<char>>::empty();
    if v.len() == 0 {
        assert(pairs_names(v) =~= none);
    } else {
        let d = v.drop_last();
        let ks = pair_keys(d);
        let t = v.last().0@;
        let k = components(t);
        assert(pair_keys(v) =~= ks.push(k));
        assert(pair_texts(v) =~= pair_texts(d).push(t));
        assert(ks.no_duplicates()) by {
            assert forall|i: int, j: int|
                0 <= i < ks.len() && 0 <= j < ks.len() && i != j implies ks[i] != ks[j] by {
                assert(pair_keys(v)[i] == ks[i] && pair_keys(v)[j] == ks[j]);
            }
        }
        lemma_all_named(d);
        assert forall|i: int| 0 <= i < ks.len() implies ks[i] != k by {
            assert(pair_keys(v)[i] == ks[i] && pair_keys(v)[ks.len() as int] == k);
        }
        lemma_place_at(ks, k, ks.len() as int);
        lemma_table_push(ks, pair_texts(d), k, t);
    }
}

/// A path that is put in again under another text keeps the first one.
pub proof fn first_text_is_kept(
    names: Map<Seq<Seq<char>>, Seq<char>>,
    first: Seq<char>,
    again: Seq<char>,
)
    requires
        components(first) == components(again),
    ensures
        named(named(names, first), again) == named(names, first),
{
}

/// A value that has just been put in is served until it is too old.
pub proof fn inserted_is_served<C>(
    m: Map<Seq<Seq<char>>, (C, u64)>,
    path: Seq<char>,
    c: C,
    at: u64,
    now: u64,
    ttl_ms: u64,
)
    ensures
        hits(m.insert(components(path), (c, at)), path, now, ttl_ms) <==> elapsed_ms(at, now)
            < ttl_ms,
        m.insert(components(path), (c, at))[components(path)].0 == c,
{
}

/// A value that was found at `at` is served for `ttl_ms` whole milliseconds and
/// no longer.
pub proof fn a_value_is_served_for_its_time<C>(
    m: Map<Seq<Seq<char>>, (C, u64)>,
    path: Seq<char>,
    now: u64,
    ttl_ms: u64,
)
    ensures
        hits(m, path, now, ttl_ms) <==> m.contains_key(components(path)) && now
            < m[components(path)].1 + ttl_ms * 1_000_000 && ttl_ms > 0,
{
    let at = m[components(path)].1;
    if now >= at {
        let d = now - at;
        assert(d / 1_000_000 < ttl_ms <==> d < ttl_ms * 1_000_000);
    }
}

/// One value says nothing of another path.
pub proof fn a_value_is_of_one_path<C>(
    m: Map<Seq<Seq<char>>, (C, u64)>,
    path: Seq<char>,
    c: C,
    at: u64,
    other: Seq<char>,
    now: u64,
    ttl_ms: u64,
)
    requires
        components(other) != components(path),
    ensures
        hits(m.insert(components(path), (c, at)), other, now, ttl_ms) <==> hits(
            m,
            other,
            now,
            ttl_ms,
        ),
        m.insert(components(path), (c, at))[components(other)] == m[components(other)],
{
}

/// Of pairs that are put in, every path has the value of its last pair, and a
/// path of no pair keeps what it had.
pub proof fn the_last_pair_of_a_path_counts<T: Cached>(
    m: Map<Seq<Seq<char>>, (T::Content, u64)>,
    v: Seq<(String, T)>,
    at: u64,
    k: Seq<Seq<char>>,
)
    ensures
        (forall|i: int| 0 <= i < v.len() ==> components((#[trigger] v[i]).0@) != k) ==> {
            &&& loaded(m, v, at).contains_key(k) <==> m.contains_key(k)
            &&& m.contains_key(k) ==> loaded(m, v, at)[k] == m[k]
        },
        forall|j: int|
            0 <= j < v.len() && components((#[trigger] v[j]).0@) == k && (forall|i: int|
                j < i < v.len() ==> components((#[trigger] v[i]).0@) != k) ==> {
                &&& loaded(m, v, at).contains_key(k)
                &&& loaded(m, v, at)[k] == (v[j].1.content(), at)
            },
    decreases v.len(),
{
    if v.len() > 0 {
        let d = v.drop_last();
        the_last_pair_of_a_path_counts(m, d, at, k);
        let l = v.len() - 1;
        assert(v[l] == v.last());
        if components(v[l].0@) != k {
            assert forall|j: int|
                0 <= j < v.len() && components((#[trigger] v[j]).0@) == k && (forall|i: int|
                    j < i < v.len() ==> components((#[trigger] v[i]).0@) != k) implies {
                &&& loaded(m, v, at).contains_key(k)
                &&& loaded(m, v, at)[k] == (v[j].1.content(), at)
            } by {
                assert(d[j] == v[j]);
                assert forall|i: int| j < i < d.len() implies components((#[trigger] d[i]).0@)
                    != k by {
                    assert(d[i] == v[i]);
                }
            }
            if forall|i: int| 0 <= i < v.len() ==> components((#[trigger] v[i]).0@) != k {
                assert forall|i: int| 0 <= i < d.len() implies components((#[trigger] d[i]).0@)
                    != k by {
                    assert(d[i] == v[i]);
                }
            }
        } else {
            assert forall|j: int|
                0 <= j < v.len() && components((#[trigger] v[j]).0@) == k && (forall|i: int|
                    j < i < v.len() ==> components((#[trigger] v[i]).0@) != k) implies j == l by {
                if j < l {
                    assert(components(v[l].0@) == k);
                }
            }
        }
    }
}

/// A path that is put in anew keeps the text that it is written in, and no other
/// path gets another text.
pub proof fn a_new_path_is_kept_as_it_is_written(
    names: Map<Seq<Seq<char>>, Seq<char>>,
    path: Seq<char>,
    other: Seq<char>,
)
    requires
        !names.contains_key(components(path)),
        components(other) != components(path),
    ensures
        named(names, path).contains_key(components(path)),
        named(names, path)[components(path)] == path,
        named(names, path).contains_key(components(other)) <==> names.contains_key(
            components(other),
        ),
        named(names, path)[components(other)] == names[components(other)],
{
}

/// Working trees are known by their paths and by which of them is the main one.
pub proof fn trees_are_known_one_by_one(v: Seq<WorktreeInfo>, i: int)
    requires
        0 <= i < v.len(),
    ensures
        trees(v).len() == v.len(),
        trees(v)[i].0 == v[i].path@,
        trees(v)[i].1 == v[i].is_main,
{
}

} // verus!
