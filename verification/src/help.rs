//! The help view: the lines of the settings template, and edits of single
//! settings in the user's own file.

use crate::model::{opt_text, value_in, Config};
use crate::table::{
    as_map, lemma_place_at, lemma_table_push, lemma_table_remove, lemma_table_update, place,
};
use crate::text::{
    concat2, concat3, contains, cut, lemma_position, lines, lines_of, lower, lowercase, occurs,
    position, same, split_once, starts_with, texts, trim, trimmed, words, words_of,
};
use vstd::prelude::*;
use vstd::string::*;

verus! {

// ---------------------------------------------------------------------
// Lines of settings
// ---------------------------------------------------------------------
/// The line holds neither a setting nor the name of one.
pub open spec fn is_idle(line: Seq<char>) -> bool {
    trimmed(line).len() == 0 || trimmed(line)[0] == '#'
}

/// The key of the line: what stands before its first `=`.
pub open spec fn key_of(line: Seq<char>) -> Option<Seq<char>> {
    if is_idle(line) {
        None
    } else {
        match split_once(trimmed(line), '=') {
            Some(kv) => Some(trimmed(kv.0)),
            None => None,
        }
    }
}

/// The line sets a key that is not empty.
pub open spec fn selectable(line: Seq<char>) -> bool {
    key_of(line) is Some && (key_of(line)->0).len() > 0
}

fn idle(line: &str) -> (r: bool)
    ensures
        r == is_idle(line@),
{
    let t: &str = trim(line);
    t.is_empty() || starts_with(t, '#')
}

/// Tells whether `line` looks like `key = value`.
pub fn is_selectable_line(line: &str) -> (r: bool)
    ensures
        r == selectable(line@),
{
    match key_at_line(line) {
        Some(k) => !k.as_str().is_empty(),
        None => false,
    }
}

/// The lines of the settings template.
pub fn template_lines(template: &str) -> (r: Vec<String>)
    ensures
        texts(r@) == lines_of(template@),
{
    lines(template)
}

/// The places of the lines among the first `n` that set a key.
pub open spec fn selectable_upto(ls: Seq<Seq<char>>, n: int) -> Seq<usize>
    decreases n,
{
    if n <= 0 {
        seq![]
    } else if selectable(ls[n - 1]) {
        selectable_upto(ls, n - 1).push((n - 1) as usize)
    } else {
        selectable_upto(ls, n - 1)
    }
}

/// The places of the lines that set a key, in order.
pub fn selectable_indices(ls: &Vec<String>) -> (r: Vec<usize>)
    ensures
        r@ == selectable_upto(texts(ls@), ls@.len() as int),
{
    let mut r: Vec<usize> = Vec::new();
    let mut i: usize = 0;
    while i < ls.len()
        invariant
            i <= ls@.len(),
            r@ == selectable_upto(texts(ls@), i as int),
        decreases ls@.len() - i,
    {
        proof {
            assert(texts(ls@)[i as int] == ls@[i as int]@);
        }
        if is_selectable_line(ls[i].as_str()) {
            r.push(i);
        }
        i += 1;
    }
    r
}

/// A place is listed exactly if its line sets a key, and places are listed
/// in order.
pub proof fn lemma_selectable_upto(ls: Seq<Seq<char>>, n: int)
    requires
        0 <= n <= ls.len() <= usize::MAX,
    ensures
        forall|i: int| 0 <= i < n ==> (selectable(#[trigger] ls[i]) <==> selectable_upto(ls, n).contains(i as usize)),
        forall|j: int| 0 <= j < selectable_upto(ls, n).len() ==> #[trigger] selectable_upto(ls, n)[j] < n
            && selectable(ls[selectable_upto(ls, n)[j] as int]),
        forall|i: int, j: int| 0 <= i < j < selectable_upto(ls, n).len() ==> selectable_upto(ls, n)[i]
            < selectable_upto(ls, n)[j],
    decreases n,
{
    if n > 0 {
        lemma_selectable_upto(ls, n - 1);
        let a = selectable_upto(ls, n - 1);
        let b = selectable_upto(ls, n);
        assert forall|i: int| 0 <= i < n implies (selectable(#[trigger] ls[i]) <==> b.contains(
            i as usize,
        )) by {
            if selectable(ls[n - 1]) {
                assert(b[b.len() - 1] == n - 1);
                if a.contains(i as usize) {
                    let j: int = choose|j: int| 0 <= j < a.len() && a[j] == i as usize;
                    assert(b[j] == i as usize);
                }
                if b.contains(i as usize) && i < n - 1 {
                    let j: int = choose|j: int| 0 <= j < b.len() && b[j] == i as usize;
                    assert(j < a.len());
                    assert(a[j] == i as usize);
                }
            } else if i == n - 1 {
                if a.contains(i as usize) {
                    let j: int = choose|j: int| 0 <= j < a.len() && a[j] == i as usize;
                    assert(a[j] < n - 1);
                }
            }
        }
    }
}

/// The key of `line`, where it has one.
pub fn key_at_line(line: &str) -> (r: Option<String>)
    ensures
        opt_text(r) == key_of(line@),
{
    if idle(line) {
        return None;
    }
    match cut(trim(line), '=') {
        Some((k, _v)) => Some(trim(k).to_owned()),
        None => None,
    }
}

/// The key of the line at `idx`.
pub fn key_at(ls: &Vec<String>, idx: usize) -> (r: Option<String>)
    requires
        idx < ls@.len(),
    ensures
        opt_text(r) == key_of(ls@[idx as int]@),
{
    key_at_line(ls[idx].as_str())
}

/// The comment that follows the value in `key = value # comment`.
pub open spec fn suffix_of(line: Seq<char>) -> Option<Seq<char>> {
    match split_once(line, '=') {
        None => None,
        Some(kv) => {
            let h = position(kv.1, '#');
            if h < kv.1.len() {
                Some(trimmed(kv.1.skip(h)))
            } else {
                None
            }
        },
    }
}

/// The comment that follows the value, from its `#` on.
pub fn inline_suffix(line: &str) -> (r: Option<String>)
    ensures
        opt_text(r) == suffix_of(line@),
{
    match cut(line, '=') {
        None => None,
        Some((_k, after)) => match cut(after, '#') {
            None => None,
            Some((_v, comment)) => {
                let whole: String = concat2("#", comment);
                proof {
                    reveal_strlit("#");
                    lemma_position(after@, '#');
                    let h: int = position(after@, '#');
                    assert(after@.skip(h) =~= "#"@ + after@.skip(h + 1));
                }
                Some(trim(whole.as_str()).to_owned())
            },
        },
    }
}

/// The line that sets `k` to `v`.
pub open spec fn assignment(k: Seq<char>, v: Seq<char>) -> Seq<char> {
    k + seq![' ', '=', ' '] + v
}

/// The line that sets `k` to `v`.
pub(crate) fn assign(k: &str, v: &str) -> (r: String)
    ensures
        r@ == assignment(k@, v@),
{
    proof {
        reveal_strlit(" = ");
        assert(" = "@ == seq![' ', '=', ' ']);
    }
    concat3(k, " = ", v)
}

// ---------------------------------------------------------------------
// What a file sets
// ---------------------------------------------------------------------
/// What one more line does to the settings read so far: it sets its key, or,
/// where it is a bare key, resets it.
pub open spec fn raw_step(m: Map<Seq<char>, Seq<char>>, line: Seq<char>) -> Map<
    Seq<char>,
    Seq<char>,
> {
    if is_idle(line) {
        m
    } else {
        match split_once(trimmed(line), '=') {
            Some(kv) => m.insert(trimmed(kv.0), trimmed(kv.1)),
            None => m.remove(trimmed(line)),
        }
    }
}

/// The settings in a list of lines; a later line wins.
pub open spec fn raw_of(ls: Seq<Seq<char>>) -> Map<Seq<char>, Seq<char>>
    decreases ls.len(),
{
    if ls.len() == 0 {
        Map::empty()
    } else {
        raw_step(raw_of(ls.drop_last()), ls.last())
    }
}

/// Settings as a file writes them, by key.
#[derive(Debug, Clone)]
pub struct RawMap {
    rows: Vec<(String, String)>,
}

impl RawMap {
    pub closed spec fn keys(&self) -> Seq<Seq<char>> {
        self.rows@.map_values(|r: (String, String)| r.0@)
    }

    pub closed spec fn vals(&self) -> Seq<Seq<char>> {
        self.rows@.map_values(|r: (String, String)| r.1@)
    }

    /// No key occurs twice.
    pub closed spec fn wf(&self) -> bool {
        self.keys().no_duplicates()
    }

    /// The value of each key.
    pub closed spec fn view(&self) -> Map<Seq<char>, Seq<char>> {
        as_map(self.keys(), self.vals())
    }

    /// No settings.
    pub fn new() -> (r: Self)
        ensures
            r.wf(),
            r@ == Map::<Seq<char>, Seq<char>>::empty(),
    {
        let r = RawMap { rows: Vec::new() };
        proof {
            assert(r@ =~= Map::<Seq<char>, Seq<char>>::empty());
        }
        r
    }

    fn find(&self, k: &str) -> (r: usize)
        ensures
            r == place(self.keys(), k@),
            r <= self.rows@.len(),
    {
        let mut i: usize = 0;
        while i < self.rows.len() && !same(self.rows[i].0.as_str(), k)
            invariant
                i <= self.rows@.len(),
                forall|j: int| 0 <= j < i ==> self.keys()[j] != k@,
            decreases self.rows@.len() - i,
        {
            proof {
                assert(self.keys()[i as int] == self.rows@[i as int].0@);
            }
            i += 1;
        }
        proof {
            if i < self.rows@.len() {
                assert(self.keys()[i as int] == self.rows@[i as int].0@);
            }
            lemma_place_at(self.keys(), k@, i as int);
        }
        i
    }

    /// The value of `k`.
    pub fn get(&self, k: &str) -> (r: Option<String>)
        ensures
            opt_text(r) == if self@.contains_key(k@) {
                Some(self@[k@])
            } else {
                None
            },
    {
        let i: usize = self.find(k);
        if i < self.rows.len() {
            proof {
                assert(self.vals()[i as int] == self.rows@[i as int].1@);
            }
            Some(self.rows[i].1.clone())
        } else {
            None
        }
    }

    /// Sets `k` to `v`.
    pub fn insert(&mut self, k: &str, v: &str)
        requires
            old(self).wf(),
        ensures
            final(self).wf(),
            final(self)@ == old(self)@.insert(k@, v@),
    {
        let i: usize = self.find(k);
        let ghost ks = self.keys();
        let ghost vs = self.vals();
        if i < self.rows.len() {
            let key: String = self.rows[i].0.clone();
            self.rows.set(i, (key, v.to_owned()));
            proof {
                assert(self.keys() =~= ks);
                assert(self.vals() =~= vs.update(i as int, v@));
                lemma_table_update(ks, vs, k@, v@);
            }
        } else {
            self.rows.push((k.to_owned(), v.to_owned()));
            proof {
                assert(self.keys() =~= ks.push(k@));
                assert(self.vals() =~= vs.push(v@));
                lemma_table_push(ks, vs, k@, v@);
            }
        }
    }

    /// Takes `k` out.
    pub fn remove(&mut self, k: &str)
        requires
            old(self).wf(),
        ensures
            final(self).wf(),
            final(self)@ == old(self)@.remove(k@),
    {
        let i: usize = self.find(k);
        let ghost ks = self.keys();
        let ghost vs = self.vals();
        proof {
            crate::table::lemma_place(ks, k@);
        }
        if i < self.rows.len() {
            self.rows.remove(i);
            proof {
                assert(self.keys() =~= ks.remove(i as int));
                assert(self.vals() =~= vs.remove(i as int));
                lemma_table_remove(ks, vs, i as int);
            }
        } else {
            proof {
                assert(as_map(ks, vs).remove(k@) =~= as_map(ks, vs));
            }
        }
    }
}

/// The settings in the text of a file.
pub fn raw_map_from_content(content: &str) -> (r: RawMap)
    ensures
        r.wf(),
        r@ == raw_of(lines_of(content@)),
{
    let ls: Vec<String> = lines(content);
    let mut m: RawMap = RawMap::new();
    let mut i: usize = 0;
    proof {
        assert(texts(ls@).take(0).len() == 0);
    }
    while i < ls.len()
        invariant
            i <= ls@.len(),
            m.wf(),
            m@ == raw_of(texts(ls@).take(i as int)),
        decreases ls@.len() - i,
    {
        proof {
            let t = texts(ls@).take(i + 1);
            assert(t.drop_last() == texts(ls@).take(i as int));
            assert(t.last() == ls@[i as int]@);
        }
        let line: &str = ls[i].as_str();
        if !idle(line) {
            let t: &str = trim(line);
            match cut(t, '=') {
                Some((k, v)) => {
                    m.insert(trim(k), trim(v));
                },
                None => {
                    m.remove(t);
                },
            }
        }
        i += 1;
    }
    proof {
        assert(texts(ls@).take(i as int) == texts(ls@));
    }
    m
}

// ---------------------------------------------------------------------
// What the help view shows
// ---------------------------------------------------------------------
/// The line shown for key `k`: what the file sets it to, else the value in
/// use with the comment of the template line, else the template line.
pub open spec fn kv_line(
    k: Seq<char>,
    values: Seq<(String, String)>,
    raw: Map<Seq<char>, Seq<char>>,
    tmpl: Seq<char>,
) -> Seq<char> {
    if raw.contains_key(k) {
        assignment(k, raw[k])
    } else {
        match (value_in(values, k), suffix_of(tmpl)) {
            (Some(v), Some(suf)) => assignment(k, v) + seq![' '] + suf,
            (Some(v), None) => assignment(k, v),
            (None, _) => tmpl,
        }
    }
}

/// The line shown for key `k`.
pub fn format_kv(k: &str, config: &Config, raw: &RawMap, tmpl: &str) -> (r: String)
    ensures
        r@ == kv_line(k@, config.values@, raw@, tmpl@),
{
    if let Some(rv) = raw.get(k) {
        return assign(k, rv.as_str());
    }
    if let Some(v) = config.value_string(k) {
        if let Some(suf) = inline_suffix(tmpl) {
            proof {
                reveal_strlit(" ");
                assert(" "@ == seq![' ']);
            }
            return concat3(assign(k, v.as_str()).as_str(), " ", suf.as_str());
        }
        return assign(k, v.as_str());
    }
    tmpl.to_owned()
}

/// The template line with the setting as it is now.
pub open spec fn shown_line(
    l: Seq<char>,
    values: Seq<(String, String)>,
    raw: Map<Seq<char>, Seq<char>>,
) -> Seq<char> {
    match key_of(l) {
        Some(k) => kv_line(k, values, raw, l),
        None => l,
    }
}

/// The template lines with the settings as they are now.
pub fn display_lines(ls: &Vec<String>, config: &Config, raw: &RawMap) -> (r: Vec<String>)
    ensures
        texts(r@) == texts(ls@).map_values(|l: Seq<char>| shown_line(l, config.values@, raw@)),
{
    let mut r: Vec<String> = Vec::new();
    let mut i: usize = 0;
    while i < ls.len()
        invariant
            i <= ls@.len(),
            r@.len() == i,
            forall|j: int| 0 <= j < i ==> (#[trigger] r@[j])@ == shown_line(ls@[j]@, config.values@, raw@),
        decreases ls@.len() - i,
    {
        let line: &str = ls[i].as_str();
        let shown: String = match key_at_line(line) {
            Some(k) => format_kv(k.as_str(), config, raw, line),
            None => line.to_owned(),
        };
        r.push(shown);
        i += 1;
    }
    proof {
        assert(texts(r@) =~= texts(ls@).map_values(
            |l: Seq<char>| shown_line(l, config.values@, raw@),
        ));
    }
    r
}

/// Settings that stand together, and the comments above the first of them.
#[derive(Debug, Clone)]
pub struct Block {
    pub header: Vec<String>,
    /// Places of lines in the template.
    pub entries: Vec<usize>,
}

/// The comments and the places of a block.
pub open spec fn block_view(b: Block) -> (Seq<Seq<char>>, Seq<usize>) {
    (texts(b.header@), b.entries@)
}

/// The comments and the places of each block.
pub open spec fn block_views(bs: Seq<Block>) -> Seq<(Seq<Seq<char>>, Seq<usize>)> {
    bs.map_values(|b: Block| block_view(b))
}

/// The line is empty but for white space.
pub open spec fn is_blank(l: Seq<char>) -> bool {
    trimmed(l).len() == 0
}

/// Where the run of lines without a blank one that holds `i` ends.
pub open spec fn run_end(ls: Seq<Seq<char>>, i: int) -> int
    decreases ls.len() - i,
{
    if i >= ls.len() || is_blank(ls[i]) {
        i
    } else {
        run_end(ls, i + 1)
    }
}

/// The places from `i` to before `j` whose lines set a key.
pub open spec fn selectable_between(ls: Seq<Seq<char>>, i: int, j: int) -> Seq<usize>
    decreases j - i,
{
    if j <= i {
        seq![]
    } else if selectable(ls[j - 1]) {
        selectable_between(ls, i, j - 1).push((j - 1) as usize)
    } else {
        selectable_between(ls, i, j - 1)
    }
}

/// The comment lines from `i` to before `j`.
pub open spec fn comments_between(ls: Seq<Seq<char>>, i: int, j: int) -> Seq<Seq<char>>
    decreases j - i,
{
    if j <= i {
        seq![]
    } else if trimmed(ls[j - 1]).len() > 0 && trimmed(ls[j - 1])[0] == '#' {
        comments_between(ls, i, j - 1).push(ls[j - 1])
    } else {
        comments_between(ls, i, j - 1)
    }
}

pub proof fn lemma_run_end(ls: Seq<Seq<char>>, i: int)
    requires
        0 <= i <= ls.len(),
    ensures
        i <= run_end(ls, i) <= ls.len(),
        forall|k: int| i <= k < run_end(ls, i) ==> !is_blank(#[trigger] ls[k]),
        run_end(ls, i) < ls.len() ==> is_blank(ls[run_end(ls, i)]),
    decreases ls.len() - i,
{
    if i < ls.len() && !is_blank(ls[i]) {
        lemma_run_end(ls, i + 1);
    }
}

/// The blocks in the lines from `i` on: one for each run of lines without a
/// blank one that sets a key.
pub open spec fn blocks_from(ls: Seq<Seq<char>>, i: int) -> Seq<(Seq<Seq<char>>, Seq<usize>)>
    decreases ls.len() - i,
    when 0 <= i
{
    if i >= ls.len() {
        seq![]
    } else if is_blank(ls[i]) {
        blocks_from(ls, i + 1)
    } else {
        proof {
            lemma_run_end(ls, i);
        }
        let j = run_end(ls, i);
        let es = selectable_between(ls, i, j);
        let rest = if j < ls.len() {
            blocks_from(ls, j + 1)
        } else {
            seq![]
        };
        if es.len() > 0 {
            seq![(comments_between(ls, i, es[0] as int), es)] + rest
        } else {
            rest
        }
    }
}

/// Places between `i` and `j`, in order, of lines that set a key.
pub proof fn lemma_selectable_between(ls: Seq<Seq<char>>, i: int, j: int)
    requires
        0 <= i <= j <= ls.len() <= usize::MAX,
    ensures
        forall|k: int| 0 <= k < selectable_between(ls, i, j).len() ==> i
            <= #[trigger] selectable_between(ls, i, j)[k] < j && selectable(
            ls[selectable_between(ls, i, j)[k] as int],
        ),
    decreases j - i,
{
    if i < j {
        lemma_selectable_between(ls, i, j - 1);
        let a = selectable_between(ls, i, j - 1);
        let b = selectable_between(ls, i, j);
        assert forall|k: int| 0 <= k < b.len() implies i <= #[trigger] b[k] < j && selectable(
            ls[b[k] as int],
        ) by {
            if k < a.len() {
                assert(b[k] == a[k]);
            }
        }
    }
}

/// The blocks of the template.
pub fn parse_blocks(ls: &Vec<String>) -> (r: Vec<Block>)
    ensures
        block_views(r@) == blocks_from(texts(ls@), 0),
        forall|b: int, k: int|
            0 <= b < r@.len() && 0 <= k < r@[b].entries@.len() ==> #[trigger] r@[b].entries@[k]
                < ls@.len(),
{
    let ghost t = texts(ls@);
    let n: usize = ls.len();
    let mut blocks: Vec<Block> = Vec::new();
    let mut i: usize = 0;
    proof {
        assert(block_views(blocks@) + blocks_from(t, 0) =~= blocks_from(t, 0));
    }
    while i < n
        invariant
            n == ls@.len(),
            t == texts(ls@),
            i <= n,
            block_views(blocks@) + blocks_from(t, i as int) == blocks_from(t, 0),
            forall|b: int, k: int|
                0 <= b < blocks@.len() && 0 <= k < blocks@[b].entries@.len()
                    ==> #[trigger] blocks@[b].entries@[k] < n,
        decreases n - i,
    {
        proof {
            assert(t[i as int] == ls@[i as int]@);
        }
        if trim(ls[i].as_str()).is_empty() {
            i += 1;
        } else {
            let mut selected: Vec<usize> = Vec::new();
            let mut j: usize = i;
            while j < n && !trim(ls[j].as_str()).is_empty()
                invariant
                    n == ls@.len(),
                    t == texts(ls@),
                    i <= j <= n,
                    run_end(t, i as int) == run_end(t, j as int),
                    selected@ == selectable_between(t, i as int, j as int),
                decreases n - j,
            {
                proof {
                    assert(t[j as int] == ls@[j as int]@);
                }
                if is_selectable_line(ls[j].as_str()) {
                    selected.push(j);
                }
                j += 1;
            }
            proof {
                if j < n {
                    assert(t[j as int] == ls@[j as int]@);
                }
                assert(run_end(t, i as int) == j);
                lemma_run_end(t, i as int);
                lemma_selectable_between(t, i as int, j as int);
            }
            let ghost before = block_views(blocks@);
            let ghost rest = if j < n {
                blocks_from(t, j + 1)
            } else {
                seq![]
            };
            if selected.len() > 0 {
                let first: usize = selected[0];
                let mut header: Vec<String> = Vec::new();
                let mut k: usize = i;
                while k < first
                    invariant
                        n == ls@.len(),
                        t == texts(ls@),
                        i <= k <= first < n,
                        texts(header@) == comments_between(t, i as int, k as int),
                    decreases first - k,
                {
                    proof {
                        assert(t[k as int] == ls@[k as int]@);
                    }
                    let ghost h = texts(header@);
                    if starts_with(trim(ls[k].as_str()), '#') {
                        header.push(ls[k].clone());
                        proof {
                            assert(texts(header@) =~= h.push(t[k as int]));
                        }
                    }
                    k += 1;
                }
                let ghost es = selected@;
                let block = Block { header, entries: selected };
                blocks.push(block);
                proof {
                    assert(block_views(blocks@) =~= before.push(
                        (comments_between(t, i as int, es[0] as int), es),
                    ));
                    assert(before + (seq![(comments_between(t, i as int, es[0] as int), es)] + rest)
                        =~= block_views(blocks@) + rest);
                }
            }
            i = if j < n {
                j + 1
            } else {
                n
            };
            proof {
                if j == n {
                    assert(rest =~= blocks_from(t, n as int));
                }
            }
        }
    }
    proof {
        assert(block_views(blocks@) + blocks_from(t, n as int) =~= block_views(blocks@));
    }
    blocks
}

/// The words of a filter, in lower case.
pub open spec fn filter_words(filter: Seq<char>) -> Seq<Seq<char>> {
    words_of(lowercase(trimmed(filter)))
}

/// The texts in a list of optional strings.
pub open spec fn opt_texts(v: Seq<Option<String>>) -> Seq<Option<Seq<char>>> {
    v.map_values(|o: Option<String>| opt_text(o))
}

/// The key of each line in lower case, where it has one.
pub open spec fn lower_keys(ls: Seq<Seq<char>>) -> Seq<Option<Seq<char>>> {
    ls.map_values(
        |l: Seq<char>|
            match key_of(l) {
                Some(k) => Some(lowercase(k)),
                None => None,
            },
    )
}

/// The key of each line in lower case, where it has one.
pub fn keys_in_lower_case(ls: &Vec<String>) -> (r: Vec<Option<String>>)
    ensures
        opt_texts(r@) == lower_keys(texts(ls@)),
{
    let mut r: Vec<Option<String>> = Vec::new();
    let mut i: usize = 0;
    while i < ls.len()
        invariant
            i <= ls@.len(),
            r@.len() == i,
            forall|j: int| 0 <= j < i ==> opt_text(#[trigger] r@[j]) == lower_keys(texts(ls@))[j],
        decreases ls@.len() - i,
    {
        r.push(
            match key_at_line(ls[i].as_str()) {
                Some(k) => Some(lower(k.as_str())),
                None => None,
            },
        );
        i += 1;
    }
    proof {
        assert(opt_texts(r@) =~= lower_keys(texts(ls@)));
    }
    r
}

/// There is a key, and every word occurs in it.
pub open spec fn key_matches(k: Option<Seq<char>>, ws: Seq<Seq<char>>) -> bool {
    k is Some && forall|i: int| 0 <= i < ws.len() ==> occurs(k->0, #[trigger] ws[i])
}

/// Tells whether there is a key and every word occurs in it.
pub fn matches_key(k: &Option<String>, ws: &Vec<String>) -> (r: bool)
    ensures
        r == key_matches(opt_text(*k), texts(ws@)),
{
    let key: &str = match k {
        Some(k) => k.as_str(),
        None => {
            return false;
        },
    };
    let mut i: usize = 0;
    while i < ws.len()
        invariant
            i <= ws@.len(),
            opt_text(*k) == Some(key@),
            forall|j: int| 0 <= j < i ==> occurs(key@, #[trigger] texts(ws@)[j]),
        decreases ws@.len() - i,
    {
        if !contains(key, ws[i].as_str()) {
            proof {
                assert(texts(ws@)[i as int] == ws@[i as int]@);
            }
            return false;
        }
        i += 1;
    }
    true
}

/// The places in `es` whose keys the words match. `keys` holds the key of each
/// line.
pub open spec fn matching(
    es: Seq<usize>,
    keys: Seq<Option<Seq<char>>>,
    ws: Seq<Seq<char>>,
) -> Seq<usize>
    decreases es.len(),
{
    if es.len() == 0 {
        seq![]
    } else if key_matches(keys[es.last() as int], ws) {
        matching(es.drop_last(), keys, ws).push(es.last())
    } else {
        matching(es.drop_last(), keys, ws)
    }
}

/// The places in `es` whose keys the words match. `keys` holds the key of each
/// line.
pub fn matching_entries(es: &Vec<usize>, keys: &Vec<Option<String>>, ws: &Vec<String>) -> (r: Vec<
    usize,
>)
    requires
        forall|k: int| 0 <= k < es@.len() ==> #[trigger] es@[k] < keys@.len(),
    ensures
        r@ == matching(es@, opt_texts(keys@), texts(ws@)),
        forall|k: int| 0 <= k < r@.len() ==> #[trigger] r@[k] < keys@.len(),
{
    let mut r: Vec<usize> = Vec::new();
    let mut i: usize = 0;
    proof {
        assert(es@.take(0).len() == 0);
    }
    while i < es.len()
        invariant
            i <= es@.len(),
            forall|k: int| 0 <= k < es@.len() ==> #[trigger] es@[k] < keys@.len(),
            r@ == matching(es@.take(i as int), opt_texts(keys@), texts(ws@)),
            forall|k: int| 0 <= k < r@.len() ==> #[trigger] r@[k] < keys@.len(),
        decreases es@.len() - i,
    {
        let li: usize = es[i];
        proof {
            assert(es@.take(i + 1).drop_last() =~= es@.take(i as int));
            assert(es@.take(i + 1).last() == li);
            assert(opt_texts(keys@)[li as int] == opt_text(keys@[li as int]));
        }
        if matches_key(&keys[li], ws) {
            r.push(li);
        }
        i += 1;
    }
    proof {
        assert(es@.take(i as int) =~= es@);
    }
    r
}

/// The lines shown for the matching places of a block, below its comments.
pub open spec fn block_lines(
    b: (Seq<Seq<char>>, Seq<usize>),
    ls: Seq<Seq<char>>,
    keys: Seq<Option<Seq<char>>>,
    ws: Seq<Seq<char>>,
    values: Seq<(String, String)>,
    raw: Map<Seq<char>, Seq<char>>,
) -> Seq<Seq<char>> {
    let m = matching(b.1, keys, ws);
    if m.len() == 0 {
        seq![]
    } else {
        b.0 + m.map_values(|li: usize| shown_line(ls[li as int], values, raw))
    }
}

/// The lines shown for the first `n` blocks.
pub open spec fn filtered_upto(
    bs: Seq<(Seq<Seq<char>>, Seq<usize>)>,
    n: int,
    ls: Seq<Seq<char>>,
    keys: Seq<Option<Seq<char>>>,
    ws: Seq<Seq<char>>,
    values: Seq<(String, String)>,
    raw: Map<Seq<char>, Seq<char>>,
) -> Seq<Seq<char>>
    decreases n,
{
    if n <= 0 {
        seq![]
    } else {
        filtered_upto(bs, n - 1, ls, keys, ws, values, raw) + block_lines(
            bs[n - 1],
            ls,
            keys,
            ws,
            values,
            raw,
        )
    }
}

/// The lines shown for the words: those of the matching keys, each block below
/// its comments.
pub open spec fn matching_lines(
    ls: Seq<Seq<char>>,
    keys: Seq<Option<Seq<char>>>,
    ws: Seq<Seq<char>>,
    values: Seq<(String, String)>,
    raw: Map<Seq<char>, Seq<char>>,
) -> Seq<Seq<char>> {
    let bs = blocks_from(ls, 0);
    filtered_upto(bs, bs.len() as int, ls, keys, ws, values, raw)
}

/// The lines that the help view shows under a filter.
pub open spec fn visible_lines(
    filter: Seq<char>,
    ls: Seq<Seq<char>>,
    values: Seq<(String, String)>,
    raw: Map<Seq<char>, Seq<char>>,
) -> Seq<Seq<char>> {
    if trimmed(filter).len() == 0 {
        ls.map_values(|l: Seq<char>| shown_line(l, values, raw))
    } else {
        matching_lines(ls, lower_keys(ls), filter_words(filter), values, raw)
    }
}

/// The lines that the help view shows under a filter: with no filter all,
/// else those of the matching keys, each block below its comments.
pub fn filtered_visible_lines(
    filter: &str,
    ls: &Vec<String>,
    config: &Config,
    raw: &RawMap,
) -> (r: Vec<String>)
    ensures
        texts(r@) == visible_lines(filter@, texts(ls@), config.values@, raw@),
{
    let filter_trim: String = lower(trim(filter));
    if filter_trim.as_str().is_empty() {
        return display_lines(ls, config, raw);
    }
    let ws: Vec<String> = words(filter_trim.as_str());
    let keys: Vec<Option<String>> = keys_in_lower_case(ls);
    proof {
        assert(opt_texts(keys@).len() == texts(ls@).len());
    }
    lines_for_words(&ws, &keys, ls, config, raw)
}

/// The lines shown for the words, below the comments of their blocks. `keys`
/// holds the key of each line as the words are to match it.
pub fn lines_for_words(
    ws: &Vec<String>,
    keys: &Vec<Option<String>>,
    ls: &Vec<String>,
    config: &Config,
    raw: &RawMap,
) -> (r: Vec<String>)
    requires
        keys@.len() == ls@.len(),
    ensures
        texts(r@) == matching_lines(
            texts(ls@),
            opt_texts(keys@),
            texts(ws@),
            config.values@,
            raw@,
        ),
{
    let blocks: Vec<Block> = parse_blocks(ls);
    let mut out: Vec<String> = Vec::new();
    let ghost t = texts(ls@);
    let ghost ks = opt_texts(keys@);
    let ghost bs = blocks_from(t, 0);
    let ghost w = texts(ws@);
    let ghost vs = config.values@;
    let mut i: usize = 0;
    while i < blocks.len()
        invariant
            i <= blocks@.len(),
            keys@.len() == ls@.len(),
            t == texts(ls@),
            ks == opt_texts(keys@),
            bs == blocks_from(t, 0),
            bs == block_views(blocks@),
            w == texts(ws@),
            vs == config.values@,
            forall|b: int, k: int|
                0 <= b < blocks@.len() && 0 <= k < blocks@[b].entries@.len()
                    ==> #[trigger] blocks@[b].entries@[k] < ls@.len(),
            texts(out@) == filtered_upto(bs, i as int, t, ks, w, vs, raw@),
        decreases blocks@.len() - i,
    {
        let ghost before = texts(out@);
        let ghost b = bs[i as int];
        proof {
            assert(b == block_view(blocks@[i as int]));
        }
        let m: Vec<usize> = matching_entries(&blocks[i].entries, keys, ws);
        if m.len() > 0 {
            let mut h: usize = 0;
            while h < blocks[i].header.len()
                invariant
                    i < blocks@.len(),
                    h <= blocks@[i as int].header@.len(),
                    texts(out@) == before + texts(blocks@[i as int].header@).take(h as int),
                decreases blocks@[i as int].header@.len() - h,
            {
                let ghost o = texts(out@);
                out.push(blocks[i].header[h].clone());
                proof {
                    let hs = texts(blocks@[i as int].header@);
                    assert(texts(out@) =~= o.push(hs[h as int]));
                    assert(before + hs.take(h + 1) =~= o.push(hs[h as int]));
                }
                h += 1;
            }
            let ghost f = |li: usize| shown_line(t[li as int], vs, raw@);
            let ghost mid = texts(out@);
            proof {
                assert(mid =~= before + b.0);
            }
            let mut k: usize = 0;
            while k < m.len()
                invariant
                    t == texts(ls@),
                    vs == config.values@,
                    k <= m@.len(),
                    forall|k: int| 0 <= k < m@.len() ==> #[trigger] m@[k] < ls@.len(),
                    f == (|li: usize| shown_line(t[li as int], vs, raw@)),
                    texts(out@) == mid + m@.take(k as int).map_values(f),
                decreases m@.len() - k,
            {
                let li: usize = m[k];
                proof {
                    assert(t[li as int] == ls@[li as int]@);
                }
                let line: &str = ls[li].as_str();
                let shown: String = match key_at(ls, li) {
                    Some(key) => format_kv(key.as_str(), config, raw, line),
                    None => line.to_owned(),
                };
                let ghost o = texts(out@);
                out.push(shown);
                proof {
                    assert(texts(out@) =~= o.push(shown_line(t[li as int], vs, raw@)));
                    assert(m@.take(k + 1).map_values(f) =~= m@.take(k as int).map_values(f).push(
                        shown_line(t[li as int], vs, raw@),
                    ));
                    assert(texts(out@) =~= mid + m@.take(k + 1).map_values(f));
                }
                k += 1;
            }
            proof {
                assert(m@.take(k as int) =~= m@);
                assert(texts(out@) =~= before + (b.0 + m@.map_values(f)));
            }
        } else {
            proof {
                assert(before + Seq::<Seq<char>>::empty() =~= before);
            }
        }
        i += 1;
    }
    out
}

} // verus!
