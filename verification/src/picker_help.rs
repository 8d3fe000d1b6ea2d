//! The help of the picker: the settings, a filter on them, and their editing.

use crate::help::{
    assign, assignment, block_views, blocks_from, filter_words, filtered_visible_lines, key_at,
    key_of, keys_in_lower_case, lemma_selectable_upto, lower_keys, matching, matching_entries,
    opt_texts, parse_blocks, selectable, selectable_indices, selectable_upto, visible_lines, Block,
    RawMap,
};
use crate::model::{value_in, Config, Entry, FeedbackEntry, FeedbackType};
use crate::picker::{HelpEdit, Host, Mode, Picker};
use crate::picker_tree::told;
use crate::search::{first_such, lemma_first_such_at};
use crate::text::{cut, lemma_position, lower, position, texts, trim, trimmed, words};
use vstd::prelude::*;
use vstd::string::*;
use vstd::utf8::encode_utf8;

verus! {

// ---------------------------------------------------------------------
// What is shown
// ---------------------------------------------------------------------
/// The filter on the settings: while one is edited, the filter of before.
pub open spec fn help_filter(p: Picker) -> Seq<char> {
    match p.help_edit {
        Some(edit) => edit.saved_filter@,
        None => p.input@,
    }
}

/// The places of the lines of the settings that the filter leaves.
pub open spec fn help_places(filter: Seq<char>, ls: Seq<Seq<char>>) -> Seq<usize> {
    let all = selectable_upto(ls, ls.len() as int);
    if trimmed(filter).len() == 0 {
        all
    } else {
        matching(all, lower_keys(ls), filter_words(filter))
    }
}

/// The number of settings in the first `n` blocks that the words match.
pub open spec fn matched_upto(
    bs: Seq<(Seq<Seq<char>>, Seq<usize>)>,
    n: int,
    keys: Seq<Option<Seq<char>>>,
    ws: Seq<Seq<char>>,
) -> nat
    decreases n,
{
    if n <= 0 {
        0
    } else {
        matched_upto(bs, n - 1, keys, ws) + matching(bs[n - 1].1, keys, ws).len()
    }
}

/// The rows of a block: its comments, then its matching settings, counted from
/// `ord` on.
pub open spec fn block_rows(
    b: (Seq<Seq<char>>, Seq<usize>),
    keys: Seq<Option<Seq<char>>>,
    ws: Seq<Seq<char>>,
    ord: nat,
) -> Seq<Option<usize>> {
    let m = matching(b.1, keys, ws);
    if m.len() == 0 {
        seq![]
    } else {
        Seq::new(b.0.len(), |i: int| None) + Seq::new(m.len(), |i: int| Some((ord + i) as usize))
    }
}

/// The rows of the first `n` blocks.
pub open spec fn rows_of_blocks(
    bs: Seq<(Seq<Seq<char>>, Seq<usize>)>,
    n: int,
    keys: Seq<Option<Seq<char>>>,
    ws: Seq<Seq<char>>,
) -> Seq<Option<usize>>
    decreases n,
{
    if n <= 0 {
        seq![]
    } else {
        rows_of_blocks(bs, n - 1, keys, ws) + block_rows(
            bs[n - 1],
            keys,
            ws,
            matched_upto(bs, n - 1, keys, ws),
        )
    }
}

/// The rows shown for the words, those of each block below its comments.
pub open spec fn matching_rows(
    ls: Seq<Seq<char>>,
    keys: Seq<Option<Seq<char>>>,
    ws: Seq<Seq<char>>,
) -> Seq<Option<usize>> {
    let bs = blocks_from(ls, 0);
    rows_of_blocks(bs, bs.len() as int, keys, ws)
}

/// The rows of the help: a setting has its number among those that the filter
/// leaves, any other line has none.
pub open spec fn help_rows_of(filter: Seq<char>, ls: Seq<Seq<char>>) -> Seq<Option<usize>> {
    if trimmed(filter).len() == 0 {
        Seq::new(
            ls.len(),
            |i: int|
                if selectable(ls[i]) {
                    Some(selectable_upto(ls, i).len() as usize)
                } else {
                    None
                },
        )
    } else {
        matching_rows(ls, lower_keys(ls), filter_words(filter))
    }
}

// ---------------------------------------------------------------------
// What is edited
// ---------------------------------------------------------------------
/// The value that the editing of a key starts from: the one in the file, else
/// the one in use, without the comment behind it.
pub open spec fn value_to_edit(
    k: Seq<char>,
    values: Seq<(String, String)>,
    raw: Map<Seq<char>, Seq<char>>,
) -> Seq<char> {
    let v = if raw.contains_key(k) {
        raw[k]
    } else {
        match value_in(values, k) {
            Some(v) => v,
            None => seq![],
        }
    };
    trimmed(v.take(position(v, '#')))
}

/// The place of the setting under the cursor of the help.
pub open spec fn place_to_edit(p: Picker) -> int {
    let at = help_places(help_filter(p), texts(p.template@));
    at[if p.help_cursor < at.len() {
        p.help_cursor as int
    } else {
        at.len() - 1
    }] as int
}

/// The cursor of the help, moved to the last setting if it is behind it.
pub open spec fn help_clamped(p: Picker) -> Picker {
    let n = help_places(help_filter(p), texts(p.template@)).len();
    if n == 0 {
        Picker { help_cursor: 0, help_scroll: 0, ..p }
    } else if p.help_cursor >= n {
        Picker { help_cursor: (n - 1) as usize, ..p }
    } else {
        p
    }
}

/// The help is shown, and the typed text put aside.
pub open spec fn help_entered(a: Picker, b: Picker) -> bool {
    &&& b == (Picker {
        stashed_input: a.input,
        stashed_cursor: a.input_cursor,
        input: b.input,
        input_cursor: 0,
        help_cursor: 0,
        help_scroll: 0,
        help_edit: None,
        mode: Mode::Help,
        mouse_hover: false,
        ..a
    })
    &&& b.input@.len() == 0
}

/// The help is left: the text that was put aside is back, and the list is
/// filtered by it anew.
pub open spec fn help_left<
    R: Fn(&Vec<Entry>, &String, &Config) -> Vec<usize>,
    H: Fn(&Vec<Entry>, &Vec<usize>) -> usize,
    C: Fn(&Entry) -> String,
>(host: Host<R, H, C>, a: Picker, b: Picker) -> bool {
    &&& b == (Picker {
        mode: Mode::Normal,
        help_edit: None,
        input: a.stashed_input,
        input_cursor: a.stashed_cursor,
        mouse_hover: false,
        filtered: b.filtered,
        ..a
    })
    &&& host.lists(a.entries, a.stashed_input, a.config, b.filtered)
}

/// The setting under the cursor of the help is edited, from the value that it
/// has. The filter is put aside.
pub open spec fn edit_begun(a: Picker, raw: Map<Seq<char>, Seq<char>>, b: Picker) -> bool {
    let line = texts(a.template@)[place_to_edit(a)];
    &&& key_of(line) is Some
    &&& b.help_edit is Some
    &&& b == (Picker {
        help_edit: Some(
            HelpEdit {
                key: (b.help_edit->0).key,
                saved_filter: a.input,
                saved_cursor: a.input_cursor,
            },
        ),
        input: b.input,
        input_cursor: encode_utf8(b.input@).len() as usize,
        mode: Mode::HelpEditing,
        ..a
    })
    &&& (b.help_edit->0).key@ == key_of(line)->0
    &&& b.input@ == value_to_edit(key_of(line)->0, a.config.values@, raw)
}

/// The editing is over: the filter of before is back.
pub open spec fn edit_left(p: Picker) -> Picker {
    help_clamped(
        match p.help_edit {
            Some(edit) => Picker {
                help_edit: None,
                input: edit.saved_filter,
                input_cursor: edit.saved_cursor,
                mode: Mode::Help,
                ..p
            },
            None => Picker { mode: Mode::Help, ..p },
        },
    )
}

/// What is read again after a setting was written: the text of the file, or,
/// where that cannot be read, the setting alone.
pub fn reload_content(read: Option<String>, key: &str, new_value: &str) -> (r: String)
    ensures
        r@ == match read {
            Some(content) => content@,
            None => assignment(key@, new_value@),
        },
{
    match read {
        Some(content) => content,
        None => assign(key, new_value),
    }
}

/// The rows shown for the words, those of each block below its comments. `keys`
/// holds the key of each line as the words are to match it.
pub fn rows_for_words(
    ws: &Vec<String>,
    keys: &Vec<Option<String>>,
    ls: &Vec<String>,
) -> (r: Vec<Option<usize>>)
    requires
        keys@.len() == ls@.len(),
    ensures
        r@ == matching_rows(texts(ls@), opt_texts(keys@), texts(ws@)),
{
    let blocks: Vec<Block> = parse_blocks(ls);
    let ghost t = texts(ls@);
    let ghost ks = opt_texts(keys@);
    let ghost bs = blocks_from(t, 0);
    let ghost w = texts(ws@);
    let mut rows: Vec<Option<usize>> = Vec::new();
    let mut ord: usize = 0;
    let mut i: usize = 0;
    while i < blocks.len()
        invariant
            i <= blocks@.len(),
            t == texts(ls@),
            keys@.len() == ls@.len(),
            ks == opt_texts(keys@),
            bs == blocks_from(t, 0),
            bs == block_views(blocks@),
            w == texts(ws@),
            forall|b: int, k: int|
                0 <= b < blocks@.len() && 0 <= k < blocks@[b].entries@.len()
                    ==> #[trigger] blocks@[b].entries@[k] < ls@.len(),
            rows@ == rows_of_blocks(bs, i as int, ks, w),
            ord == matched_upto(bs, i as int, ks, w),
            ord <= rows@.len(),
        decreases blocks@.len() - i,
    {
        let ghost before = rows@;
        let ghost first = ord;
        let ghost b = bs[i as int];
        proof {
            assert(b == crate::help::block_view(blocks@[i as int]));
        }
        let m: Vec<usize> = matching_entries(&blocks[i].entries, keys, ws);
        if m.len() > 0 {
            let mut h: usize = 0;
            while h < blocks[i].header.len()
                invariant
                    i < blocks@.len(),
                    h <= blocks@[i as int].header@.len(),
                    rows@ =~= before + Seq::new(h as nat, |k: int| None::<usize>),
                decreases blocks@[i as int].header@.len() - h,
            {
                rows.push(None);
                h += 1;
            }
            let ghost mid = rows@;
            let mut k: usize = 0;
            while k < m.len()
                invariant
                    k <= m@.len(),
                    ord == first + k,
                    ord <= rows@.len(),
                    rows@ =~= mid + Seq::new(k as nat, |j: int| Some((first + j) as usize)),
                decreases m@.len() - k,
            {
                rows.push(Some(ord));
                let count: usize = rows.len();
                proof {
                    assert(ord < count);
                }
                ord += 1;
                k += 1;
            }
            proof {
                assert(rows@ =~= before + block_rows(b, ks, w, first as nat));
            }
        } else {
            proof {
                assert(before + Seq::<Option<usize>>::empty() =~= before);
            }
        }
        i += 1;
    }
    rows
}

impl Picker {
    /// Shows the help. The typed text is put aside.
    pub fn enter_help(&mut self)
        ensures
            if old(self).in_help() {
                *final(self) == *old(self)
            } else {
                help_entered(*old(self), *final(self))
            },
    {
        if self.is_help() {
            return;
        }
        self.stashed_input = self.input.clone();
        self.stashed_cursor = self.input_cursor;
        self.input = String::new();
        self.input_cursor = 0;
        self.help_cursor = 0;
        self.help_scroll = 0;
        self.help_edit = None;
        self.mode = Mode::Help;
        self.mouse_hover = false;
    }

    /// Leaves the help. The text that was put aside is back, and the list is
    /// filtered by it anew.
    pub fn exit_help<
        R: Fn(&Vec<Entry>, &String, &Config) -> Vec<usize>,
        H: Fn(&Vec<Entry>, &Vec<usize>) -> usize,
        C: Fn(&Entry) -> String,
    >(&mut self, host: &Host<R, H, C>)
        requires
            host.usable(),
        ensures
            if old(self).in_help() {
                help_left(*host, *old(self), *final(self)) && final(self).wf()
            } else {
                *final(self) == *old(self)
            },
    {
        if !self.is_help() {
            return;
        }
        self.mode = Mode::Normal;
        self.help_edit = None;
        self.input = self.stashed_input.clone();
        self.input_cursor = self.stashed_cursor;
        self.mouse_hover = false;
        self.filtered = (host.refilter)(&self.entries, &self.input, &self.config);
        proof {
            assert(host.lists(self.entries, self.input, self.config, self.filtered));
        }
    }

    /// The filter on the settings.
    pub fn help_filter_str(&self) -> (r: &str)
        ensures
            r@ == help_filter(*self),
    {
        match &self.help_edit {
            Some(edit) => edit.saved_filter.as_str(),
            None => self.input.as_str(),
        }
    }

    /// Tells whether there is a filter on the settings.
    pub fn help_is_filtered(&self) -> (r: bool)
        ensures
            r == (trimmed(help_filter(*self)).len() > 0),
    {
        !trim(self.help_filter_str()).is_empty()
    }

    /// The places of the lines of the settings that the filter leaves.
    pub fn help_filtered_line_indices(&self) -> (r: Vec<usize>)
        ensures
            r@ == help_places(help_filter(*self), texts(self.template@)),
            forall|k: int| 0 <= k < r@.len() ==> #[trigger] r@[k] < self.template@.len(),
    {
        let n: usize = self.template.len();
        let idxs: Vec<usize> = selectable_indices(&self.template);
        proof {
            lemma_selectable_upto(texts(self.template@), n as int);
        }
        let filter: String = lower(trim(self.help_filter_str()));
        if filter.as_str().is_empty() {
            return idxs;
        }
        let ws: Vec<String> = words(filter.as_str());
        let keys: Vec<Option<String>> = keys_in_lower_case(&self.template);
        proof {
            assert(opt_texts(keys@).len() == texts(self.template@).len());
        }
        matching_entries(&idxs, &keys, &ws)
    }

    /// Moves the cursor of the help to the last setting if it is behind it.
    pub fn help_clamp_cursor(&mut self)
        ensures
            *final(self) == help_clamped(*old(self)),
    {
        let len: usize = self.help_filtered_line_indices().len();
        if len == 0 {
            self.help_cursor = 0;
            self.help_scroll = 0;
        } else if self.help_cursor >= len {
            self.help_cursor = len - 1;
        }
    }

    /// Moves the cursor of the help, round the end if it comes to it.
    pub fn help_move_cursor(&mut self, amount: i32)
        requires
            ({
                let n = help_places(help_filter(*old(self)), texts(old(self).template@)).len();
                n > 0 && amount != 0 ==> {
                    &&& n <= i32::MAX
                    &&& old(self).help_cursor <= i32::MAX
                    &&& i32::MIN <= old(self).help_cursor + amount <= i32::MAX
                }
            }),
        ensures
            ({
                let n = help_places(help_filter(*old(self)), texts(old(self).template@)).len();
                *final(self) == if n == 0 || amount == 0 {
                    *old(self)
                } else {
                    Picker {
                        mouse_hover: false,
                        help_cursor: ((old(self).help_cursor + amount) % (n as int)) as usize,
                        ..*old(self)
                    }
                }
            }),
    {
        let len: usize = self.help_filtered_line_indices().len();
        if len == 0 || amount == 0 {
            return;
        }
        self.mouse_hover = false;
        let cur: i64 = self.help_cursor as i64 + amount as i64;
        let n: i64 = len as i64;
        let to: i64 = match cur.checked_rem_euclid(n) {
            Some(to) => to,
            None => 0,
        };
        self.help_cursor = to as usize;
    }

    /// The rows of the help: the number of a setting among those that the
    /// filter leaves, or `None` for any other line.
    pub fn help_rows(&self) -> (r: Vec<Option<usize>>)
        ensures
            r@ == help_rows_of(help_filter(*self), texts(self.template@)),
    {
        if self.help_is_filtered() {
            let filter: String = lower(trim(self.help_filter_str()));
            let ws: Vec<String> = words(filter.as_str());
            let keys: Vec<Option<String>> = keys_in_lower_case(&self.template);
            proof {
                assert(opt_texts(keys@).len() == texts(self.template@).len());
            }
            rows_for_words(&ws, &keys, &self.template)
        } else {
            self.plain_rows()
        }
    }

    fn plain_rows(&self) -> (r: Vec<Option<usize>>)
        ensures
            r@ == Seq::new(
                self.template@.len(),
                |i: int|
                    if selectable(texts(self.template@)[i]) {
                        Some(selectable_upto(texts(self.template@), i).len() as usize)
                    } else {
                        None
                    },
            ),
    {
        let ghost t = texts(self.template@);
        let mut rows: Vec<Option<usize>> = Vec::new();
        let mut ord: usize = 0;
        let mut i: usize = 0;
        while i < self.template.len()
            invariant
                t == texts(self.template@),
                i <= t.len(),
                rows@.len() == i,
                ord == selectable_upto(t, i as int).len(),
                ord <= i,
                forall|j: int|
                    0 <= j < i ==> #[trigger] rows@[j] == if selectable(t[j]) {
                        Some(selectable_upto(t, j).len() as usize)
                    } else {
                        None
                    },
            decreases t.len() - i,
        {
            proof {
                assert(t[i as int] == self.template@[i as int]@);
            }
            if crate::help::is_selectable_line(self.template[i].as_str()) {
                rows.push(Some(ord));
                ord += 1;
            } else {
                rows.push(None);
            }
            i += 1;
        }
        rows
    }

    /// The row of the setting under the cursor of the help, or 0.
    pub fn help_cursor_line(&self) -> (r: usize)
        ensures
            ({
                let rows = help_rows_of(help_filter(*self), texts(self.template@));
                let at = first_such(rows, |x: Option<usize>| x == Some(self.help_cursor));
                r == if at < rows.len() {
                    at
                } else {
                    0
                }
            }),
    {
        let rows: Vec<Option<usize>> = self.help_rows();
        let ghost f = |x: Option<usize>| x == Some(self.help_cursor);
        let mut i: usize = 0;
        while i < rows.len() && rows[i] != Some(self.help_cursor)
            invariant
                i <= rows@.len(),
                f == (|x: Option<usize>| x == Some(self.help_cursor)),
                forall|j: int| 0 <= j < i ==> !f(#[trigger] rows@[j]),
            decreases rows@.len() - i,
        {
            i += 1;
        }
        proof {
            lemma_first_such_at(rows@, f, i as int);
        }
        if i < rows.len() {
            i
        } else {
            0
        }
    }

    /// The lines of the help. `raw` holds what the file sets.
    pub fn help_visible_lines(&self, raw: &RawMap) -> (r: Vec<String>)
        ensures
            texts(r@) == visible_lines(
                help_filter(*self),
                texts(self.template@),
                self.config.values@,
                raw@,
            ),
    {
        filtered_visible_lines(self.help_filter_str(), &self.template, &self.config, raw)
    }

    /// Begins to edit the setting under the cursor of the help. `raw` holds what
    /// the file sets.
    pub fn start_help_edit(&mut self, raw: &RawMap)
        ensures
            if old(self).mode == Mode::Help && help_places(
                help_filter(*old(self)),
                texts(old(self).template@),
            ).len() > 0 {
                edit_begun(*old(self), raw@, *final(self))
            } else {
                *final(self) == *old(self)
            },
    {
        if self.mode != Mode::Help {
            return;
        }
        let at: Vec<usize> = self.help_filtered_line_indices();
        if at.len() == 0 {
            return;
        }
        let count: usize = self.template.len();
        let last: usize = at.len() - 1;
        let line_idx: usize = at[if self.help_cursor < last {
            self.help_cursor
        } else {
            last
        }];
        proof {
            assert(texts(self.template@).len() == count);
            lemma_places_set_keys(help_filter(*self), texts(self.template@));
            assert(selectable(texts(self.template@)[line_idx as int]));
        }
        if let Some(k) = key_at(&self.template, line_idx) {
            let raw_v: String = match raw.get(k.as_str()) {
                Some(v) => v,
                None => match self.config.value_string(k.as_str()) {
                    Some(v) => v,
                    None => String::new(),
                },
            };
            let v: String = match cut(raw_v.as_str(), '#') {
                Some((v, _comment)) => trim(v).to_owned(),
                None => trim(raw_v.as_str()).to_owned(),
            };
            proof {
                lemma_position(raw_v@, '#');
                assert(raw_v@.take(raw_v@.len() as int) =~= raw_v@);
            }
            let saved_filter: String = self.input.clone();
            self.help_edit = Some(
                HelpEdit { key: k, saved_filter, saved_cursor: self.input_cursor },
            );
            self.input_cursor = v.as_str().len();
            self.input = v;
            self.mode = Mode::HelpEditing;
        }
    }

    /// Gives up the editing. The filter of before is back.
    pub fn cancel_help_edit(&mut self)
        ensures
            *final(self) == if old(self).mode == Mode::HelpEditing {
                edit_left(*old(self))
            } else {
                *old(self)
            },
    {
        if self.mode != Mode::HelpEditing {
            return;
        }
        self.leave_edit();
    }

    fn leave_edit(&mut self)
        ensures
            *final(self) == edit_left(*old(self)),
    {
        if let Some(edit) = self.help_edit.take() {
            self.input = edit.saved_filter;
            self.input_cursor = edit.saved_cursor;
        }
        self.mode = Mode::Help;
        self.help_clamp_cursor();
    }

    /// The setting that is to be written, and its new value.
    pub fn edit_to_commit(&self) -> (r: Option<(String, String)>)
        ensures
            r is Some <==> self.mode == Mode::HelpEditing && self.help_edit is Some,
            r matches Some(kv) ==> kv.0@ == (self.help_edit->0).key@ && kv.1@ == self.input@,
    {
        if self.mode != Mode::HelpEditing {
            return None;
        }
        match &self.help_edit {
            Some(edit) => Some((edit.key.clone(), self.input.clone())),
            None => None,
        }
    }

    /// Ends the editing after the setting of [`Picker::edit_to_commit`] was
    /// written: `outcome` holds the settings and messages that were read again,
    /// or why it could not be written.
    pub fn commit_help_edit(&mut self, outcome: Result<(Config, Vec<FeedbackEntry>), String>)
        ensures
            ({
                let a = *old(self);
                let b = *final(self);
                if a.mode != Mode::HelpEditing {
                    b == a
                } else if a.help_edit is None {
                    b == edit_left(a)
                } else {
                    match outcome {
                        Ok(read) => b == edit_left(
                            Picker { config: read.0, feedbacks: read.1, ..a },
                        ),
                        Err(msg) => {
                            &&& b == edit_left(Picker { feedbacks: b.feedbacks, ..a })
                            &&& told(a.feedbacks@, FeedbackType::Error, msg@, b.feedbacks@)
                        },
                    }
                }
            }),
    {
        if self.mode != Mode::HelpEditing {
            return;
        }
        if self.help_edit.is_some() {
            match outcome {
                Ok((config, feedbacks)) => {
                    self.config = config;
                    self.feedbacks = feedbacks;
                },
                Err(message) => {
                    let ghost before = self.feedbacks@;
                    self.feedbacks.push(FeedbackEntry { level: FeedbackType::Error, message });
                    proof {
                        assert(self.feedbacks@.drop_last() =~= before);
                    }
                },
            }
        }
        self.leave_edit();
    }
}

/// Every place that the filter leaves is that of a line that sets a key.
pub proof fn lemma_places_set_keys(filter: Seq<char>, ls: Seq<Seq<char>>)
    requires
        ls.len() <= usize::MAX,
    ensures
        forall|k: int|
            0 <= k < help_places(filter, ls).len() ==> #[trigger] help_places(filter, ls)[k]
                < ls.len() && selectable(ls[help_places(filter, ls)[k] as int]),
{
    let all = selectable_upto(ls, ls.len() as int);
    lemma_selectable_upto(ls, ls.len() as int);
    lemma_matching_within(all, lower_keys(ls), filter_words(filter));
    assert forall|k: int| 0 <= k < help_places(filter, ls).len() implies #[trigger] help_places(
        filter,
        ls,
    )[k] < ls.len() && selectable(ls[help_places(filter, ls)[k] as int]) by {
        let x = help_places(filter, ls)[k];
        assert(all.contains(x));
        let j = choose|j: int| 0 <= j < all.len() && all[j] == x;
        assert(selectable(ls[all[j] as int]));
    }
}

/// The matching places are among the places.
pub proof fn lemma_matching_within(es: Seq<usize>, keys: Seq<Option<Seq<char>>>, ws: Seq<Seq<char>>)
    ensures
        forall|k: int|
            0 <= k < matching(es, keys, ws).len() ==> es.contains(#[trigger] matching(es, keys, ws)[k]),
    decreases es.len(),
{
    if es.len() > 0 {
        let d = es.drop_last();
        lemma_matching_within(d, keys, ws);
        assert forall|k: int| 0 <= k < matching(es, keys, ws).len() implies es.contains(
            #[trigger] matching(es, keys, ws)[k],
        ) by {
            let x = matching(es, keys, ws)[k];
            if k < matching(d, keys, ws).len() {
                assert(d.contains(matching(d, keys, ws)[k]));
                let j = choose|j: int| 0 <= j < d.len() && d[j] == x;
                assert(es[j] == x);
            } else {
                assert(es[es.len() - 1] == x);
            }
        }
    }
}

} // verus!
