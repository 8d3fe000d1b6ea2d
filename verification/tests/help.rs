use ramo::edit::{
    commit_to_disk, surgical_delete, surgical_write, write_atomic, Commit, WriteEvent, WriteStep,
};
use ramo::help::{
    display_lines, filtered_visible_lines, format_kv, inline_suffix, is_selectable_line, key_at,
    key_at_line, keys_in_lower_case, lines_for_words, matching_entries, parse_blocks,
    raw_map_from_content, selectable_indices, template_lines,
};
use ramo::model::Config;

const TEMPLATE: &str = "# where the projects are\npath = ~ # start here\n\n# defines if the picker\n# closes by itself\nauto-close = true\nAUTO-open = false\n\n\nhide-changes-inactive = false\n\n# only a comment\n";

fn config(values: &[(&str, &str)]) -> Config {
    Config {
        path: "~".to_string(),
        path_worktrees: String::new(),
        auto_close: true,
        style_entries_gap: 0,
        bind_command_session_kill: "x".to_string(),
        bind_command_open_detached: "o".to_string(),
        bind_command_worktree_new: "n".to_string(),
        bind_command_worktree_delete: "d".to_string(),
        values: values.iter().map(|(k, v)| (k.to_string(), v.to_string())).collect(),
    }
}

#[test]
fn lines_that_set_a_key_are_told_apart() {
    assert!(is_selectable_line("a = b"));
    assert!(is_selectable_line("  a="));
    assert!(!is_selectable_line("# a = b"));
    assert!(!is_selectable_line("   "));
    assert!(!is_selectable_line("a"));
    assert!(!is_selectable_line(" = b"));
    assert_eq!(key_at_line(" a b = c = d "), Some("a b".to_string()));
    assert_eq!(key_at_line(" = d "), Some(String::new()));
    assert_eq!(key_at_line("bare"), None);
    assert_eq!(inline_suffix("a = b # c "), Some("# c".to_string()));
    assert_eq!(inline_suffix("a # b"), None);
    assert_eq!(inline_suffix("# a = b"), None);
}

#[test]
fn template_is_cut_into_blocks() {
    let lines = template_lines(TEMPLATE);
    assert_eq!(lines.len(), 12);
    assert_eq!(selectable_indices(&lines), vec![1, 5, 6, 9]);
    assert_eq!(key_at(&lines, 9), Some("hide-changes-inactive".to_string()));
    let blocks = parse_blocks(&lines);
    let entries: Vec<Vec<usize>> = blocks.iter().map(|b| b.entries.clone()).collect();
    assert_eq!(entries, vec![vec![1], vec![5, 6], vec![9]]);
    assert_eq!(blocks[0].header, vec!["# where the projects are"]);
    assert_eq!(blocks[1].header, vec!["# defines if the picker", "# closes by itself"]);
    assert!(blocks[2].header.is_empty());
    assert!(parse_blocks(&Vec::new()).is_empty());
}

#[test]
fn later_lines_win_and_bare_keys_reset() {
    let raw = raw_map_from_content("a = 1\n# a = 2\nb=x # y\n\na = 3\nc = 4\nc\n");
    assert_eq!(raw.get("a"), Some("3".to_string()));
    assert_eq!(raw.get("b"), Some("x # y".to_string()));
    assert_eq!(raw.get("c"), None);
    assert_eq!(raw.get("d"), None);
}

#[test]
fn the_file_is_shown_before_the_value_in_use() {
    let cfg = config(&[("path", "/p"), ("auto-close", "false")]);
    let raw = raw_map_from_content("auto-close = trudwadawda\n");
    assert_eq!(format_kv("auto-close", &cfg, &raw, "t"), "auto-close = trudwadawda");
    assert_eq!(format_kv("path", &cfg, &raw, "path = ~ # start here"), "path = /p # start here");
    assert_eq!(format_kv("path", &cfg, &raw, "path = ~"), "path = /p");
    assert_eq!(format_kv("other", &cfg, &raw, "other = 1"), "other = 1");
    let lines = template_lines(TEMPLATE);
    let shown = display_lines(&lines, &cfg, &raw);
    assert_eq!(shown.len(), lines.len());
    assert_eq!(shown[0], lines[0]);
    assert_eq!(shown[1], "path = /p # start here");
    assert_eq!(shown[5], "auto-close = trudwadawda");
}

#[test]
fn a_filter_shows_blocks_with_their_comments() {
    let lines = template_lines(TEMPLATE);
    let cfg = config(&[]);
    let raw = raw_map_from_content("");
    assert_eq!(
        filtered_visible_lines(" AUTO ", &lines, &cfg, &raw),
        vec![
            "# defines if the picker",
            "# closes by itself",
            "auto-close = true",
            "AUTO-open = false"
        ]
    );
    assert_eq!(
        filtered_visible_lines("to pen", &lines, &cfg, &raw),
        vec!["# defines if the picker", "# closes by itself", "AUTO-open = false"]
    );
    assert!(filtered_visible_lines("nonexistentkey123", &lines, &cfg, &raw).is_empty());
    assert_eq!(filtered_visible_lines("  ", &lines, &cfg, &raw), lines);
}

#[test]
fn filtered_lines_are_among_all_lines_in_order() {
    let text = "# lone\n\n# head\nfoo-a = 1\n# between\nbar = 2\nfoo-b = 3\n\nfoo-c = 4\n";
    let lines = template_lines(text);
    let cfg = config(&[("foo-b", "9")]);
    let raw = raw_map_from_content("foo-c = 8\n");
    let all = display_lines(&lines, &cfg, &raw);
    let shown = filtered_visible_lines("foo", &lines, &cfg, &raw);
    let at = [2, 3, 6, 8];
    let picked: Vec<String> = at.iter().map(|&i: &usize| all[i].clone()).collect();
    assert_eq!(shown, picked);
    assert_eq!(shown, vec!["# head", "foo-a = 1", "foo-b = 9", "foo-c = 8"]);
}

#[test]
fn writing_changes_one_line() {
    assert_eq!(surgical_write(None, "a", "1"), "a = 1\n");
    assert_eq!(surgical_write(Some(""), "a", "1"), "a = 1\n");
    assert_eq!(surgical_write(Some("# c\nb = 2"), "a", "1"), "# c\nb = 2\na = 1\n");
    assert_eq!(
        surgical_write(Some("x\n a = 0 # why\nb = 2\na = 9\n"), "a", "1"),
        "x\na = 1 # why\nb = 2\na = 9\n"
    );
    assert_eq!(surgical_write(Some("a"), "a", "1"), "a = 1");
}

#[test]
fn what_is_written_reads_back() {
    let before = "# top\nb = 2\n\nc = 3\n";
    let after = surgical_write(Some(before), "a", "1");
    let raw = raw_map_from_content(&after);
    assert_eq!(raw.get("a"), Some("1".to_string()));
    assert_eq!(raw.get("b"), Some("2".to_string()));
    assert_eq!(raw.get("c"), Some("3".to_string()));
    assert_eq!(surgical_delete(Some(&after), "a"), Some(before.to_string()));
}

#[test]
fn a_text_comes_back_after_write_and_delete() {
    let there_and_back = |t: &str| surgical_delete(Some(&surgical_write(Some(t), "a", "1")), "a");
    assert_eq!(there_and_back("b = 2\n\n# c\n"), Some("b = 2\n\n# c\n".to_string()));
    // A text that does not end in a line feed gets one, and one that sets
    // nothing goes.
    assert_eq!(there_and_back("b = 2"), Some("b = 2\n".to_string()));
    assert_eq!(there_and_back("b = 2\r\n"), Some("b = 2\n".to_string()));
    assert_eq!(there_and_back("# c\n"), None);
}

#[test]
fn deleting_takes_every_line_of_the_key() {
    assert_eq!(surgical_delete(None, "a"), None);
    assert_eq!(surgical_delete(Some("b = 1"), "a"), Some("b = 1".to_string()));
    assert_eq!(
        surgical_delete(Some("a = 1\nb = 1\na\n# a = 3"), "a"),
        Some("b = 1\n# a = 3\n".to_string())
    );
    assert_eq!(surgical_delete(Some("# only\na = 1\n"), "a"), None);
}

#[test]
fn defaults_are_not_kept_in_the_file() {
    let write = |c: Commit| match c {
        Commit::Write(t) => t,
        other => panic!("{:?}", other),
    };
    assert!(matches!(commit_to_disk(None, false, true, "a", "1"), Commit::Keep));
    assert!(matches!(commit_to_disk(Some("a = 1\n"), true, true, "a", "1"), Commit::Remove));
    assert!(matches!(commit_to_disk(Some("b = 1\n"), true, true, "a", "1"), Commit::Keep));
    assert_eq!(write(commit_to_disk(Some("a = 1\nb = 1\n"), true, true, "a", "1")), "b = 1\n");
    assert_eq!(write(commit_to_disk(Some("b = 1\n"), true, false, "a", "2")), "b = 1\na = 2\n");
    assert_eq!(write(commit_to_disk(None, false, false, "a", "2")), "a = 2\n");
}

#[test]
fn a_file_is_replaced_by_a_rename() {
    let t = "/c/ramo/config";
    assert!(matches!(write_atomic(WriteEvent::Start, t), WriteStep::MakeDir(d) if d == "/c/ramo"));
    let made = write_atomic(WriteEvent::DirMade(Ok(())), t);
    assert!(matches!(made, WriteStep::WriteTemp(p) if p == "/c/ramo/config.tmp"));
    let written = write_atomic(WriteEvent::TempWritten(Ok(())), t);
    assert!(matches!(written, WriteStep::Rename(p) if p == "/c/ramo/config.tmp"));
    assert!(matches!(write_atomic(WriteEvent::Renamed(Ok(())), t), WriteStep::Finish(Ok(()))));
    let second = write_atomic(WriteEvent::Renamed(Err("busy".to_string())), t);
    assert!(matches!(second, WriteStep::Overwrite(e) if e == "busy"));
    let over = WriteEvent::Overwritten("busy".to_string(), Ok(()));
    assert!(matches!(write_atomic(over, t), WriteStep::Finish(Ok(()))));
}

#[test]
fn a_file_that_cannot_be_written_says_so() {
    let t = "/c/config";
    let failed = |e: WriteEvent| match write_atomic(e, t) {
        WriteStep::Finish(Err(m)) => m,
        other => panic!("{:?}", other),
    };
    let no = || Err("no".to_string());
    assert_eq!(failed(WriteEvent::DirMade(no())), "cannot write config file '/c/config': no");
    assert_eq!(failed(WriteEvent::TempWritten(no())), "cannot write config file '/c/config': no");
    assert_eq!(
        failed(WriteEvent::Overwritten("busy".to_string(), no())),
        "cannot write config file '/c/config': no (rename also failed: busy)"
    );
}

#[test]
fn words_are_matched_against_the_keys_given() {
    let lines = template_lines("# c\nAB = 1\nab = 2\n");
    let keys = keys_in_lower_case(&lines);
    assert_eq!(keys, vec![None, Some("ab".to_string()), Some("ab".to_string())]);
    let words = vec!["ab".to_string()];
    assert_eq!(matching_entries(&vec![1, 2], &keys, &words), vec![1, 2]);
    assert_eq!(matching_entries(&vec![0, 2], &keys, &words), vec![2]);
    assert_eq!(matching_entries(&vec![0, 2], &keys, &Vec::new()), vec![2]);
    let as_written = vec![None, Some("AB".to_string()), Some("ab".to_string())];
    let raw = raw_map_from_content("");
    assert_eq!(
        lines_for_words(&words, &as_written, &lines, &config(&[]), &raw),
        vec!["# c", "ab = 2"]
    );
}
