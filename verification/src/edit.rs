//! Surgical edits: one setting of the user's file is written or taken out,
//! and every other line stays.

use crate::help::{
    assign, assignment, inline_suffix, is_idle, is_selectable_line, selectable, suffix_of,
};
use crate::model::opt_text;
use crate::path::{parent, parent_of, replace_extension, with_extension};
use crate::text::{
    concat2, concat3, cut, ends_with, join_lines, joined, lines, lines_of, opt_str, same,
    split_once, starts_with, texts, trim, trimmed,
};
use vstd::prelude::*;
use vstd::string::*;

verus! {

/// The line sets `key`, or is the bare key.
pub open spec fn names_key(line: Seq<char>, key: Seq<char>) -> bool {
    !is_idle(line) && match split_once(trimmed(line), '=') {
        Some(kv) => trimmed(kv.0) == key,
        None => trimmed(line) == key,
    }
}

/// Tells whether `line` sets `key` or is the bare key.
pub fn line_names(line: &str, key: &str) -> (r: bool)
    ensures
        r == names_key(line@, key@),
{
    let t: &str = trim(line);
    if t.is_empty() || starts_with(t, '#') {
        return false;
    }
    match cut(t, '=') {
        Some((k, _v)) => same(trim(k), key),
        None => same(t, key),
    }
}

/// The place of the first line that names `key`, or the number of lines.
pub open spec fn first_naming(ls: Seq<Seq<char>>, key: Seq<char>) -> int
    decreases ls.len(),
{
    if ls.len() == 0 || names_key(ls[0], key) {
        0
    } else {
        1 + first_naming(ls.drop_first(), key)
    }
}

/// What [`first_naming`] finds.
pub proof fn lemma_first_naming(ls: Seq<Seq<char>>, key: Seq<char>)
    ensures
        0 <= first_naming(ls, key) <= ls.len(),
        forall|i: int| 0 <= i < first_naming(ls, key) ==> !names_key(#[trigger] ls[i], key),
        first_naming(ls, key) < ls.len() ==> names_key(ls[first_naming(ls, key)], key),
    decreases ls.len(),
{
    if ls.len() > 0 && !names_key(ls[0], key) {
        lemma_first_naming(ls.drop_first(), key);
        assert forall|i: int| 0 <= i < first_naming(ls, key) implies !names_key(
            #[trigger] ls[i],
            key,
        ) by {
            if i > 0 {
                assert(ls[i] == ls.drop_first()[i - 1]);
            }
        }
    }
}

proof fn lemma_first_naming_at(ls: Seq<Seq<char>>, key: Seq<char>, n: int)
    requires
        0 <= n <= ls.len(),
        forall|i: int| 0 <= i < n ==> !names_key(#[trigger] ls[i], key),
        n < ls.len() ==> names_key(ls[n], key),
    ensures
        first_naming(ls, key) == n,
{
    lemma_first_naming(ls, key);
    let p: int = first_naming(ls, key);
    if p < n {
        assert(!names_key(ls[p], key));
    } else if n < p {
        assert(!names_key(ls[n], key));
    }
}

/// The line with the value of its key replaced; its comment stays.
pub open spec fn rewritten(line: Seq<char>, key: Seq<char>, value: Seq<char>) -> Seq<char> {
    if split_once(trimmed(line), '=') is Some && suffix_of(line) is Some {
        assignment(key, value) + seq![' '] + suffix_of(line)->0
    } else {
        assignment(key, value)
    }
}

/// The lines with `key` set to `value`: in the first line that names the
/// key, or in a new line at the end.
pub open spec fn edited(ls: Seq<Seq<char>>, key: Seq<char>, value: Seq<char>) -> Seq<Seq<char>> {
    let i = first_naming(ls, key);
    if i < ls.len() {
        ls.update(i, rewritten(ls[i], key, value))
    } else {
        ls.push(assignment(key, value))
    }
}

/// The text ends in a line feed.
pub open spec fn ends_line(s: Seq<char>) -> bool {
    s.len() > 0 && s.last() == '\n'
}

/// The lines as a text, with a line feed at its end where `closed`.
pub open spec fn unlines(ls: Seq<Seq<char>>, closed: bool) -> Seq<char> {
    if closed {
        joined(ls, seq!['\n']).push('\n')
    } else {
        joined(ls, seq!['\n'])
    }
}

/// The text of the file after `key` was set to `value`.
pub open spec fn written(
    existing: Option<Seq<char>>,
    key: Seq<char>,
    value: Seq<char>,
) -> Seq<char> {
    match existing {
        None => assignment(key, value).push('\n'),
        Some(content) => if content.len() == 0 {
            assignment(key, value).push('\n')
        } else {
            let ls = lines_of(content);
            unlines(
                edited(ls, key, value),
                ends_line(content) || first_naming(ls, key) == ls.len(),
            )
        },
    }
}

/// Sets one key in the text of the user's file and keeps the rest:
/// - with no file yet, the text holds just that key;
/// - where the key is there, its first line is set to the new value, and
///   keeps its comment;
/// - where it is not, a line is added at the end.
pub fn surgical_write(existing: Option<&str>, key: &str, new_value: &str) -> (r: String)
    ensures
        r@ == written(opt_str(existing), key@, new_value@),
{
    let new_line: String = assign(key, new_value);
    let content: &str = match existing {
        Some(content) => content,
        None => {
            let mut r: String = new_line;
            r.push('\n');
            return r;
        },
    };
    if content.is_empty() {
        let mut r: String = new_line;
        r.push('\n');
        return r;
    }
    let mut ls: Vec<String> = lines(content);
    let ghost t = texts(ls@);
    let mut i: usize = 0;
    while i < ls.len() && !line_names(ls[i].as_str(), key)
        invariant
            i <= ls@.len(),
            t == texts(ls@),
            forall|j: int| 0 <= j < i ==> !names_key(#[trigger] t[j], key@),
        decreases ls@.len() - i,
    {
        proof {
            assert(t[i as int] == ls@[i as int]@);
        }
        i += 1;
    }
    let found: bool = i < ls.len();
    proof {
        if found {
            assert(t[i as int] == ls@[i as int]@);
        }
        lemma_first_naming_at(t, key@, i as int);
    }
    if found {
        let sets: bool = cut(trim(ls[i].as_str()), '=').is_some();
        let line: String = match inline_suffix(ls[i].as_str()) {
            Some(suf) => {
                if sets {
                    proof {
                        reveal_strlit(" ");
                        assert(" "@ =~= seq![' ']);
                    }
                    concat3(new_line.as_str(), " ", suf.as_str())
                } else {
                    new_line
                }
            },
            None => new_line,
        };
        ls.set(i, line);
        proof {
            assert(texts(ls@) =~= edited(t, key@, new_value@));
        }
    } else {
        ls.push(new_line);
        proof {
            assert(texts(ls@) =~= edited(t, key@, new_value@));
        }
    }
    let mut out: String = join_lines(&ls);
    if ends_with(content, '\n') || !found {
        out.push('\n');
    }
    out
}

/// The lines that do not name `key`.
pub open spec fn without_key(ls: Seq<Seq<char>>, key: Seq<char>) -> Seq<Seq<char>>
    decreases ls.len(),
{
    if ls.len() == 0 {
        seq![]
    } else if names_key(ls.last(), key) {
        without_key(ls.drop_last(), key)
    } else {
        without_key(ls.drop_last(), key).push(ls.last())
    }
}

/// Some line sets a key that is not empty.
pub open spec fn any_selectable(ls: Seq<Seq<char>>) -> bool {
    exists|i: int| 0 <= i < ls.len() && selectable(#[trigger] ls[i])
}

/// Some line names `key`.
pub open spec fn any_names(ls: Seq<Seq<char>>, key: Seq<char>) -> bool {
    exists|i: int| 0 <= i < ls.len() && names_key(#[trigger] ls[i], key)
}

/// The text of the file after `key` was taken out, or none if no setting is
/// left and the file has to go.
pub open spec fn deleted(existing: Option<Seq<char>>, key: Seq<char>) -> Option<Seq<char>> {
    match existing {
        None => None,
        Some(content) => {
            let ls = lines_of(content);
            let kept = without_key(ls, key);
            let out = joined(kept, seq!['\n']);
            if !any_names(ls, key) {
                Some(content)
            } else if !any_selectable(kept) {
                None
            } else {
                Some(unlines(kept, ends_line(content) || (out.len() > 0 && !ends_line(out))))
            }
        },
    }
}

fn any_selectable_line(ls: &Vec<String>) -> (r: bool)
    ensures
        r == any_selectable(texts(ls@)),
{
    let mut i: usize = 0;
    while i < ls.len()
        invariant
            i <= ls@.len(),
            forall|j: int| 0 <= j < i ==> !selectable(#[trigger] texts(ls@)[j]),
        decreases ls@.len() - i,
    {
        proof {
            assert(texts(ls@)[i as int] == ls@[i as int]@);
        }
        if is_selectable_line(ls[i].as_str()) {
            return true;
        }
        i += 1;
    }
    false
}

/// Takes one key out of the text of the user's file and keeps the rest.
/// None means that no setting is left, so that the file has to go.
pub fn surgical_delete(existing: Option<&str>, key: &str) -> (r: Option<String>)
    ensures
        opt_text(r) == deleted(opt_str(existing), key@),
{
    let content: &str = match existing {
        Some(content) => content,
        None => {
            return None;
        },
    };
    let all: Vec<String> = lines(content);
    let ghost t = texts(all@);
    let mut kept: Vec<String> = Vec::new();
    let mut removed: bool = false;
    let mut i: usize = 0;
    proof {
        assert(t.take(0) =~= Seq::<Seq<char>>::empty());
        assert(texts(kept@) =~= Seq::<Seq<char>>::empty());
    }
    while i < all.len()
        invariant
            i <= all@.len(),
            t == texts(all@),
            texts(kept@) == without_key(t.take(i as int), key@),
            removed == (exists|j: int| 0 <= j < i && names_key(#[trigger] t[j], key@)),
        decreases all@.len() - i,
    {
        proof {
            assert(t[i as int] == all@[i as int]@);
            assert(t.take(i + 1).drop_last() =~= t.take(i as int));
            assert(t.take(i + 1).last() == t[i as int]);
        }
        if line_names(all[i].as_str(), key) {
            removed = true;
            proof {
                assert(names_key(t[i as int], key@));
            }
        } else {
            let ghost k = texts(kept@);
            kept.push(all[i].clone());
            proof {
                assert(texts(kept@) =~= k.push(t[i as int]));
            }
        }
        i += 1;
    }
    proof {
        assert(t.take(i as int) =~= t);
    }
    if !removed {
        return Some(content.to_owned());
    }
    if !any_selectable_line(&kept) {
        return None;
    }
    let mut out: String = join_lines(&kept);
    if ends_with(content, '\n') {
        out.push('\n');
    } else if !out.as_str().is_empty() && !ends_with(out.as_str(), '\n') {
        out.push('\n');
    }
    Some(out)
}

// ---------------------------------------------------------------------
// Committing an edit
// ---------------------------------------------------------------------
/// What is to become of the user's file.
#[derive(Debug)]
pub enum Commit {
    Keep,
    Remove,
    Write(String),
}

/// Decides what an edit of `key` does to the user's file, of which `existing`
/// is the text where it could be read, and `present` tells whether it is
/// there. A value that is the default takes the key out of the file.
pub fn commit_to_disk(
    existing: Option<&str>,
    present: bool,
    is_default: bool,
    key: &str,
    new_value: &str,
) -> (r: Commit)
    ensures
        match r {
            Commit::Keep => is_default && match deleted(opt_str(existing), key@) {
                Some(text) => opt_str(existing) == Some(text),
                None => !present,
            },
            Commit::Remove => is_default && deleted(opt_str(existing), key@) is None && present,
            Commit::Write(text) => if is_default {
                deleted(opt_str(existing), key@) == Some(text@) && opt_str(existing) != Some(text@)
            } else {
                text@ == written(opt_str(existing), key@, new_value@)
            },
        },
{
    if !is_default {
        return Commit::Write(surgical_write(existing, key, new_value));
    }
    match surgical_delete(existing, key) {
        None => if present {
            Commit::Remove
        } else {
            Commit::Keep
        },
        Some(text) => {
            if let Some(old_text) = existing {
                if same(old_text, text.as_str()) {
                    return Commit::Keep;
                }
            }
            Commit::Write(text)
        },
    }
}

/// What came of the last step of writing a file.
#[derive(Debug)]
pub enum WriteEvent {
    Start,
    DirMade(Result<(), String>),
    TempWritten(Result<(), String>),
    Renamed(Result<(), String>),
    /// The target itself was written, after a rename that failed with the
    /// first message.
    Overwritten(String, Result<(), String>),
}

/// The next step of writing a file.
#[derive(Debug)]
pub enum WriteStep {
    MakeDir(String),
    /// Write the text to this path next to the target.
    WriteTemp(String),
    /// Rename this path to the target.
    Rename(String),
    /// Write the text to the target itself; the rename failed with this
    /// message.
    Overwrite(String),
    Finish(Result<(), String>),
}

/// The message of a file that could not be written.
pub open spec fn write_failure(target: Seq<char>, e: Seq<char>) -> Seq<char> {
    "cannot write config file '"@ + target + "': "@ + e
}

/// The path that the text is first written to.
pub open spec fn temp_path(target: Seq<char>) -> Seq<char> {
    with_extension(target, "tmp"@)
}

fn write_error(target: &str, e: &str) -> (r: String)
    ensures
        r@ == write_failure(target@, e@),
{
    concat2(concat3("cannot write config file '", target, "': ").as_str(), e)
}

/// The step that follows `event` on the way to an atomic write of `target`:
/// the directory is made, the text goes to a temporary path, and that is
/// renamed; where the rename fails, the target is written itself.
pub fn write_atomic(event: WriteEvent, target: &str) -> (r: WriteStep)
    ensures
        match event {
            WriteEvent::Start => match parent(target@) {
                Some(p) => r matches WriteStep::MakeDir(d) && d@ == p,
                None => r matches WriteStep::WriteTemp(t) && t@ == temp_path(target@),
            },
            WriteEvent::DirMade(Ok(_)) => r matches WriteStep::WriteTemp(t) && t@ == temp_path(
                target@,
            ),
            WriteEvent::TempWritten(Ok(_)) => r matches WriteStep::Rename(t) && t@ == temp_path(
                target@,
            ),
            WriteEvent::Renamed(Ok(_)) => r == WriteStep::Finish(Ok(())),
            WriteEvent::Renamed(Err(e)) => r == WriteStep::Overwrite(e),
            WriteEvent::Overwritten(_, Ok(_)) => r == WriteStep::Finish(Ok(())),
            WriteEvent::DirMade(Err(e)) => r matches WriteStep::Finish(Err(m)) && m@
                == write_failure(target@, e@),
            WriteEvent::TempWritten(Err(e)) => r matches WriteStep::Finish(Err(m)) && m@
                == write_failure(target@, e@),
            WriteEvent::Overwritten(rename, Err(e)) => r matches WriteStep::Finish(Err(m)) && m@
                == write_failure(target@, e@ + " (rename also failed: "@ + rename@ + ")"@),
        },
{
    match event {
        WriteEvent::Start => match parent_of(target) {
            Some(p) => WriteStep::MakeDir(p),
            None => WriteStep::WriteTemp(replace_extension(target, "tmp")),
        },
        WriteEvent::DirMade(Ok(_)) => WriteStep::WriteTemp(replace_extension(target, "tmp")),
        WriteEvent::DirMade(Err(e)) => WriteStep::Finish(Err(write_error(target, e.as_str()))),
        WriteEvent::TempWritten(Ok(_)) => WriteStep::Rename(replace_extension(target, "tmp")),
        WriteEvent::TempWritten(Err(e)) => WriteStep::Finish(
            Err(write_error(target, e.as_str())),
        ),
        WriteEvent::Renamed(Ok(_)) => WriteStep::Finish(Ok(())),
        WriteEvent::Renamed(Err(e)) => WriteStep::Overwrite(e),
        WriteEvent::Overwritten(_, Ok(_)) => WriteStep::Finish(Ok(())),
        WriteEvent::Overwritten(rename, Err(e)) => {
            let why: String = concat2(
                concat3(e.as_str(), " (rename also failed: ", rename.as_str()).as_str(),
                ")",
            );
            WriteStep::Finish(Err(write_error(target, why.as_str())))
        },
    }
}

} // verus!
