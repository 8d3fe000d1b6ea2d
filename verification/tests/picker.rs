use ramo::help::{key_at, raw_map_from_content, selectable_indices, template_lines, RawMap};
use ramo::model::{
    Action, Area, Config, Entry, EntryType, FeedbackEntry, FeedbackType, Goto, Payload,
};
use ramo::picker::{entry_buttons, Host, Mode, OpResult, PendingCreate, Picker, Signal};
use ramo::picker_help::{reload_content, rows_for_words};

const TEMPLATE: &str = "# where the projects are\npath = ~ # start here\npath-worktrees =\n\n# defines if the picker\n# closes by itself\nauto-close = true\n\nhide-changes-inactive = false\nstyle-entries-gap = 0\nbind-a = a\nbind-b = b\n";

const SECOND: u64 = 1_000_000_000;

fn config(gap: u64) -> Config {
    let values = [
        ("path", "~"),
        ("path-worktrees", ""),
        ("auto-close", "true # yes"),
        ("hide-changes-inactive", "false"),
    ];
    Config {
        path: "~".to_string(),
        path_worktrees: String::new(),
        auto_close: true,
        style_entries_gap: gap,
        bind_command_session_kill: "x".to_string(),
        bind_command_open_detached: "o".to_string(),
        bind_command_worktree_new: "n".to_string(),
        bind_command_worktree_delete: "straße".to_string(),
        values: values.iter().map(|(k, v)| (k.to_string(), v.to_string())).collect(),
    }
}

fn entry(kind: EntryType, name: &str, path: &str) -> Entry {
    Entry {
        kind,
        label: name.to_string(),
        path: path.to_string(),
        changes: None,
        branch: None,
        is_open: false,
        is_running: false,
        pending: false,
        depth: 0,
        ancestors: vec![],
        is_last: false,
        search_text: name.to_string(),
        goto: Some(Goto {
            session: name.to_string(),
            path: path.to_string(),
            window: None,
            pane: None,
        }),
        parent: None,
        connector: String::new(),
        search_text_lower: name.to_lowercase(),
    }
}

// The entries whose text holds what is typed.
fn refilter(entries: &Vec<Entry>, input: &String, _config: &Config) -> Vec<usize> {
    let typed = input.to_lowercase();
    (0..entries.len()).filter(|&i| entries[i].search_text_lower.contains(&typed)).collect()
}

// The entry at the working directory.
fn home(entries: &Vec<Entry>, filtered: &Vec<usize>) -> usize {
    filtered.iter().position(|&i| entries[i].path == "/home/u/here").unwrap_or(0)
}

fn connect(e: &Entry) -> String {
    if e.is_last { "└".to_string() } else { "├".to_string() }
}

type Refilter = fn(&Vec<Entry>, &String, &Config) -> Vec<usize>;
type Home = fn(&Vec<Entry>, &Vec<usize>) -> usize;
type Connect = fn(&Entry) -> String;

fn host() -> Host<Refilter, Home, Connect> {
    Host { refilter, home, connect }
}

fn picker_with(kinds: &[EntryType], gap: u64) -> Picker {
    let entries: Vec<Entry> = kinds.iter().map(|k| entry(*k, "", "/tmp")).collect();
    let payload = Payload { entries, config: config(gap), feedbacks: vec![], entries_found: 0 };
    Picker::new(payload, template_lines(TEMPLATE), 0, &host())
}

fn payload_with(entries: Vec<Entry>) -> Payload {
    let n = entries.len();
    Payload { entries, config: config(0), feedbacks: vec![], entries_found: n }
}

fn row_marks(rows: &[Option<usize>]) -> String {
    rows.iter().map(|r| if r.is_some() { 'e' } else { '.' }).collect()
}

fn no_settings() -> RawMap {
    raw_map_from_content("")
}

#[test]
fn new_picker_shows_what_was_sent() {
    let mut cfg = config(0);
    cfg.auto_close = false;
    let note = FeedbackEntry { level: FeedbackType::Error, message: "m".to_string() };
    let payload = Payload {
        entries: vec![
            entry(EntryType::Dir, "a", "/a"),
            entry(EntryType::Dir, "here", "/home/u/here"),
        ],
        config: cfg,
        feedbacks: vec![note],
        entries_found: 1,
    };
    let p = Picker::new(payload, template_lines(TEMPLATE), 7, &host());
    assert_eq!(p.filtered, vec![0, 1]);
    assert_eq!(p.cursor, 1);
    assert_eq!(p.entries_found, 2);
    assert!(!p.auto_close);
    assert_eq!(p.feedbacks[0].message, "m");
    assert_eq!((p.started_at, p.last_spinner), (7, 7));
    assert_eq!(p.mode, Mode::Normal);
    assert!(!p.is_help() && !p.is_command_mode());
    assert!(p.pending_create.is_none() && p.pending_goto.is_none());
}

// Dirs and worktrees get gaps before them, agents hug their parent.
#[test]
fn gaps_skip_agents() {
    let picker = picker_with(
        &[
            EntryType::Dir,
            EntryType::Worktree,
            EntryType::Agent,
            EntryType::Agent,
            EntryType::Worktree,
            EntryType::Dir,
        ],
        1,
    );
    assert_eq!(row_marks(&picker.rows()), "e.eee.e.e");
}

#[test]
fn no_first_gap_and_multi_row_gaps() {
    let picker = picker_with(&[EntryType::Dir, EntryType::Dir], 2);
    assert_eq!(row_marks(&picker.rows()), "e..e");
}

#[test]
fn zero_gap_is_plain_list() {
    let picker = picker_with(&[EntryType::Dir, EntryType::Worktree, EntryType::Agent], 0);
    assert_eq!(row_marks(&picker.rows()), "eee");
    assert_eq!(picker.rows(), vec![Some(0), Some(1), Some(2)]);
}

#[test]
fn help_enter_exit_stashes_input() {
    let mut p = picker_with(&[EntryType::Dir], 0);
    p.input = "foo".to_string();
    p.input_cursor = 3;
    p.enter_help();
    assert_eq!(p.mode, Mode::Help);
    assert_eq!(p.input, "");
    assert_eq!(p.stashed_input, "foo");
    p.exit_help(&host());
    assert_eq!(p.mode, Mode::Normal);
    assert_eq!(p.input, "foo");
    assert_eq!(p.input_cursor, 3);
}

#[test]
fn help_is_entered_and_left_once() {
    let mut p = picker_with(&[EntryType::Dir], 0);
    p.exit_help(&host());
    assert_eq!(p.filtered, vec![0]);
    p.input = "foo".to_string();
    p.enter_help();
    p.input = "bar".to_string();
    p.enter_help();
    assert_eq!(p.input, "bar");
    assert_eq!(p.stashed_input, "foo");
    p.exit_help(&host());
    assert_eq!(p.input, "foo");
    // The list is filtered by the text that is back.
    assert!(p.filtered.is_empty());
}

#[test]
fn help_move_wraps() {
    let mut p = picker_with(&[EntryType::Dir], 0);
    p.enter_help();
    let count = selectable_indices(&template_lines(TEMPLATE)).len();
    assert!(count > 0);
    p.help_cursor = 0;
    p.help_move_cursor(-1);
    assert_eq!(p.help_cursor, count - 1);
    p.help_move_cursor(1);
    assert_eq!(p.help_cursor, 0);
    p.help_move_cursor(5);
    assert_eq!(p.help_cursor, 5 % count);
}

#[test]
fn help_start_edit_sets_buffer() {
    let mut p = picker_with(&[EntryType::Dir], 0);
    let raw = no_settings();
    p.enter_help();
    // help_cursor 0 should be first selectable key (likely path)
    p.start_help_edit(&raw);
    assert_eq!(p.mode, Mode::HelpEditing);
    assert!(p.help_edit.is_some());
    let key = p.help_edit.as_ref().unwrap().key.clone();
    let expected = raw
        .get(&key)
        .unwrap_or_else(|| p.config.value_string(&key).unwrap_or_default());
    assert_eq!(p.input, expected);
    p.cancel_help_edit();
    assert_eq!(p.mode, Mode::Help);
    assert!(p.help_edit.is_none());
}

#[test]
fn edit_starts_from_what_the_file_says() {
    let mut p = picker_with(&[EntryType::Dir], 0);
    let raw = raw_map_from_content("auto-close = trudwadawda\n");
    p.enter_help();
    let lines = template_lines(TEMPLATE);
    let idxs = selectable_indices(&lines);
    let auto_idx = idxs
        .iter()
        .position(|&li| key_at(&lines, li).as_deref() == Some("auto-close"))
        .unwrap();
    p.help_cursor = auto_idx;
    p.start_help_edit(&raw);
    assert_eq!(p.help_edit.as_ref().map(|e| e.key.as_str()), Some("auto-close"));
    assert_eq!(p.input, "trudwadawda");
    assert_eq!(p.input_cursor, 11);
    p.cancel_help_edit();
    // With no file the value in use counts, without its comment.
    p.start_help_edit(&no_settings());
    assert_eq!(p.input, "true");
    p.cancel_help_edit();
    // The cursor counts bytes.
    p.start_help_edit(&raw_map_from_content("auto-close = é\n"));
    assert_eq!(p.input_cursor, 2);
}

#[test]
fn edit_keeps_the_filter() {
    let mut p = picker_with(&[EntryType::Dir], 0);
    p.enter_help();
    p.input = "bind".to_string();
    p.input_cursor = 4;
    p.help_cursor = 9;
    p.start_help_edit(&no_settings());
    // A cursor behind the last setting edits the last one.
    assert_eq!(p.help_edit.as_ref().unwrap().key, "bind-b");
    assert_eq!(p.input, "");
    assert_eq!(p.help_filter_str(), "bind");
    p.input = "typed".to_string();
    assert_eq!(p.edit_to_commit(), Some(("bind-b".to_string(), "typed".to_string())));
    p.cancel_help_edit();
    assert_eq!(p.input, "bind");
    assert_eq!(p.input_cursor, 4);
    assert_eq!(p.help_cursor, 1);
    assert_eq!(p.edit_to_commit(), None);
    // No setting matches: nothing to edit.
    p.input = "nonexistentkey123".to_string();
    p.start_help_edit(&no_settings());
    assert_eq!(p.mode, Mode::Help);
    p.help_scroll = 3;
    p.help_clamp_cursor();
    assert_eq!((p.help_cursor, p.help_scroll), (0, 0));
}

#[test]
fn commit_takes_over_what_was_read_again() {
    let mut p = picker_with(&[EntryType::Dir], 0);
    p.commit_help_edit(Err("not now".to_string()));
    assert!(p.feedbacks.is_empty());
    p.enter_help();
    p.start_help_edit(&no_settings());
    p.commit_help_edit(Err("disk full".to_string()));
    assert_eq!(p.mode, Mode::Help);
    assert_eq!(p.feedbacks.len(), 1);
    assert_eq!(p.feedbacks[0].level, FeedbackType::Error);
    assert_eq!(p.feedbacks[0].message, "disk full");
    p.start_help_edit(&no_settings());
    p.commit_help_edit(Ok((config(3), vec![])));
    assert_eq!(p.config.style_entries_gap, 3);
    assert!(p.feedbacks.is_empty());
    assert!(p.help_edit.is_none());
    assert_eq!(p.input, "");
    assert_eq!(reload_content(Some("x".to_string()), "k", "v"), "x");
    assert_eq!(reload_content(None, "k", "v"), "k = v");
}

#[test]
fn help_filter_fuzzy_search() {
    let mut p = picker_with(&[EntryType::Dir], 0);
    let raw = no_settings();
    p.enter_help();
    assert!(!p.help_is_filtered());
    assert_eq!(
        p.help_filtered_line_indices().len(),
        selectable_indices(&template_lines(TEMPLATE)).len()
    );
    // filter for "auto" should match auto-close only (maybe) + its header
    p.input = "auto".to_string();
    p.input_cursor = 4;
    let filtered = p.help_filtered_line_indices();
    assert!(filtered.len() >= 1);
    let lines = template_lines(TEMPLATE);
    for &li in &filtered {
        let k = key_at(&lines, li).unwrap();
        assert!(k.to_lowercase().contains("auto"));
    }
    // visible includes header for auto-close block
    let visible = p.help_visible_lines(&raw);
    assert!(visible.len() >= filtered.len());
    assert!(visible.iter().any(|l| l.contains("auto-close")));
    // header should be present for auto-close
    assert!(visible.iter().any(|l| l.contains("defines if the picker")));
    // hide-changes has no header
    p.input = "hide-changes-inactive".to_string();
    let visible2 = p.help_visible_lines(&raw);
    assert!(visible2.iter().any(|l| l.contains("hide-changes-inactive")));
    assert!(!visible2.iter().any(|l| l.trim().starts_with('#')));
    // check that unknown filter yields 0
    p.input = "nonexistentkey123".to_string();
    assert_eq!(p.help_filtered_line_indices().len(), 0);
    assert!(p.help_visible_lines(&raw).is_empty());
    p.input.clear();
    assert!(!p.help_is_filtered());
}

#[test]
fn help_rows_number_the_settings() {
    let mut p = picker_with(&[EntryType::Dir], 0);
    p.enter_help();
    let none = None;
    assert_eq!(
        p.help_rows(),
        vec![
            none, Some(0), Some(1), none, none, none, Some(2), none, Some(3), Some(4), Some(5),
            Some(6)
        ]
    );
    p.help_cursor = 2;
    assert_eq!(p.help_cursor_line(), 6);
    p.input = "pa".to_string();
    assert_eq!(p.help_rows(), vec![none, Some(0), Some(1)]);
    assert_eq!(p.help_cursor_line(), 0);
    p.input = "A E".to_string();
    // path-worktrees, auto-close, hide-changes-inactive and style-entries-gap
    assert_eq!(
        p.help_rows(),
        vec![none, Some(0), none, none, Some(1), Some(2), Some(3)]
    );
    let shown = p.help_visible_lines(&no_settings());
    assert_eq!(shown.len(), 7);
    assert_eq!(shown[4], "auto-close = true # yes");
    p.help_cursor = 3;
    assert_eq!(p.help_cursor_line(), 6);
    let lines = vec!["# c".to_string(), "a = 1".to_string(), "b = 2".to_string()];
    let keys = vec![None, Some("a".to_string()), Some("b".to_string())];
    assert_eq!(rows_for_words(&vec!["b".to_string()], &keys, &lines), vec![none, Some(0)]);
}

// After the user moves, refreshes preserve the selected entry by
// identity (navigation target), not by numeric index.
#[test]
fn touched_cursor_follows_entry_across_reorder() {
    let mut p = picker_with(&[EntryType::Dir], 0);
    p.entries = vec![
        entry(EntryType::Dir, "a", "/tmp/ramo-reorder-a-xyz"),
        entry(EntryType::Dir, "b", "/tmp/ramo-reorder-b-xyz"),
    ];
    p.filtered = refilter(&p.entries, &p.input, &p.config);
    p.cursor = 0;
    assert!(!p.touched);

    // User navigates down to b.
    p.cursor = 1;
    p.touched = true;
    assert!(p.touched);
    assert_eq!(p.cursor, 1);
    assert_eq!(p.entries[p.filtered[p.cursor]].label, "b");

    // Daemon reorders the list: cursor must stay on b (now at 0).
    let sent = payload_with(vec![
        entry(EntryType::Dir, "b", "/tmp/ramo-reorder-b-xyz"),
        entry(EntryType::Dir, "a", "/tmp/ramo-reorder-a-xyz"),
    ]);
    p.tick(0, 80, vec![], vec![Some(sent)], &host());
    assert_eq!(p.cursor, 0);
    assert_eq!(p.entries[p.filtered[p.cursor]].label, "b");

    // The entry is gone: the cursor stays within the list.
    p.cursor = 1;
    let sent = payload_with(vec![entry(EntryType::Dir, "c", "/tmp/c")]);
    p.tick(0, 80, vec![], vec![None, Some(sent)], &host());
    assert_eq!(p.cursor, 0);
    p.tick(0, 80, vec![], vec![Some(payload_with(vec![]))], &host());
    assert_eq!(p.cursor, 0);
}

#[test]
fn untouched_cursor_goes_home_with_every_list() {
    let mut p = picker_with(&[EntryType::Dir], 0);
    let a = || entry(EntryType::Dir, "a", "/tmp/ramo-boot-a-xyz");
    let here = || entry(EntryType::Dir, "home", "/home/u/here");
    let z = || entry(EntryType::Dir, "z", "/tmp/ramo-boot-z-xyz");
    p.tick(0, 80, vec![], vec![Some(payload_with(vec![a()]))], &host());
    assert_eq!(p.cursor, 0);
    p.tick(0, 80, vec![], vec![Some(payload_with(vec![a(), here()]))], &host());
    assert_eq!(p.cursor, 1);
    p.tick(0, 80, vec![], vec![Some(payload_with(vec![a(), here(), z()]))], &host());
    assert_eq!(p.entries[p.filtered[p.cursor]].label, "home");
    // Typed text pins the cursor too.
    p.input = "a".to_string();
    p.cursor = 0;
    p.tick(0, 80, vec![], vec![Some(payload_with(vec![here(), a()]))], &host());
    assert_eq!(p.entries[p.filtered[p.cursor]].label, "a");
    // Another root is another list.
    let mut elsewhere = payload_with(vec![a(), here()]);
    elsewhere.config.path = "/elsewhere".to_string();
    p.input = String::new();
    p.touched = true;
    p.tick(0, 80, vec![], vec![Some(elsewhere)], &host());
    assert_eq!(p.entries[p.filtered[p.cursor]].label, "home");
}

#[test]
fn a_list_that_comes_during_help_is_filtered_by_the_stashed_text() {
    let mut p = picker_with(&[EntryType::Dir], 0);
    p.input = "b".to_string();
    p.enter_help();
    p.input = "auto".to_string();
    let sent = payload_with(vec![
        entry(EntryType::Dir, "a", "/a"),
        entry(EntryType::Dir, "b", "/b"),
    ]);
    p.tick(0, 80, vec![], vec![Some(sent)], &host());
    assert_eq!(p.filtered, vec![1]);
    assert_eq!(p.input, "auto");
    assert_eq!(p.entries_found, 2);
}

#[test]
fn spinner_turns_and_signals_are_given() {
    let mut p = picker_with(&[EntryType::Dir], 0);
    let ms = 1_000_000;
    let (signal, refresh) = p.tick(29 * ms, 1, vec![], vec![], &host());
    assert_eq!((signal, refresh), (Signal::Stay, 0));
    assert_eq!((p.spinner, p.last_spinner), (0, 0));
    p.tick(30 * ms, 1, vec![], vec![], &host());
    assert_eq!((p.spinner, p.last_spinner), (1, 30 * ms));
    p.spinner = usize::MAX;
    p.tick(60 * ms, 1, vec![], vec![], &host());
    assert_eq!(p.spinner, 0);
    let mut empty = picker_with(&[], 0);
    empty.tick(79 * ms, 80, vec![], vec![], &host());
    assert_eq!(empty.spinner, 0);
    empty.tick(80 * ms, 80, vec![], vec![], &host());
    assert_eq!(empty.spinner, 1);

    p.quit = true;
    p.activate_entry(0);
    let (signal, _) = p.tick(61 * ms, 1, vec![], vec![], &host());
    assert!(matches!(signal, Signal::Goto(g) if g.path == "/tmp"));
    let (signal, _) = p.tick(62 * ms, 1, vec![], vec![], &host());
    assert!(matches!(signal, Signal::Close));
}

#[test]
fn buttons_fit_the_entry() {
    let mut p = picker_with(&[EntryType::Dir, EntryType::Worktree, EntryType::Agent], 0);
    assert!(p.cursor_entry_buttons().is_empty());
    p.mode = Mode::Command;
    let texts = |p: &Picker| -> Vec<String> {
        p.cursor_entry_buttons().into_iter().map(|b| b.0).collect()
    };
    assert_eq!(texts(&p), vec!["O Open Detached", "N New Worktree"]);
    p.cursor = 1;
    assert_eq!(texts(&p), vec!["O Open Detached", "N New Worktree", "STRASSE Delete Worktree"]);
    p.entries[1].is_open = true;
    assert_eq!(texts(&p), vec!["X Kill Session", "N New Worktree", "STRASSE Delete Worktree"]);
    p.entries[1].is_open = false;
    p.entries[1].goto = None;
    assert_eq!(texts(&p), vec!["N New Worktree", "STRASSE Delete Worktree"]);
    p.entries[1].pending = true;
    assert!(texts(&p).is_empty());
    p.cursor = 2;
    assert_eq!(p.cursor_entry_buttons(), vec![("X Kill Session".to_string(), Action::KillSession)]);
    p.cursor = 3;
    assert!(texts(&p).is_empty());
    assert_eq!(
        entry_buttons(&p.entries[0], "k", "o", "n", "d"),
        vec![
            ("o Open Detached".to_string(), Action::OpenDetached),
            ("n New Worktree".to_string(), Action::WorktreeNew)
        ]
    );
}

// Session row with two agents below it, cursor on the session.
fn session_tree() -> (Picker, PendingCreate) {
    let mut p = picker_with(&[EntryType::Dir], 0);
    let dir_path = "/tmp/proj";
    p.entries[0].path = "/tmp/other".to_string();
    p.entries[0].label = "other".to_string();
    let mut dir = entry(EntryType::Dir, "proj", dir_path);
    dir.search_text = "proj".to_string();
    dir.search_text_lower = "proj".to_string();
    p.entries.push(dir);
    for t in ["a1", "a2"] {
        let mut a = entry(EntryType::Agent, t, dir_path);
        a.parent = Some(1);
        a.depth = 1;
        a.is_last = t == "a2";
        p.entries.push(a);
    }
    p.filtered = refilter(&p.entries, &p.input, &p.config);
    p.cursor = 1;
    p.slot_entries = Area { x: 0, y: 0, width: 20, height: 4 };
    let pending = PendingCreate {
        dest: "/tmp/proj--feat-x".to_string(),
        branch: "feat/x".to_string(),
        dir_path: dir_path.to_string(),
        dir_label: "proj".to_string(),
        started: 100 * SECOND,
    };
    (p, pending)
}

// Optimistic insert: cursor stays on the session, spinner row lands
// last, viewport reveals it (cursor + agents + loading row in view).
#[test]
fn optimistic_placeholder_keeps_cursor_and_reveals() {
    let (mut p, pending) = session_tree();
    p.pending_create = Some(pending.clone());
    p.insert_placeholder(&pending, &host());
    assert_eq!(p.entries.len(), 5);
    assert_eq!(p.cursor, 1);
    assert_eq!(p.entries[p.filtered[p.cursor]].label, "proj");
    let ph = &p.entries[4];
    assert!(ph.pending);
    assert_eq!(ph.label, "proj--feat-x");
    assert_eq!(ph.branch.as_deref(), Some("feat/x"));
    assert!(ph.is_last);
    assert!(!p.entries[3].is_last);
    assert_eq!(p.scroll, 1);
    assert_eq!(ph.search_text, "proj proj--feat-x feat/x");
    assert_eq!(ph.search_text_lower, "proj proj--feat-x feat/x");
    assert_eq!(ph.connector, "└");
    assert_eq!(p.entries[3].connector, "├");
    assert_eq!(ph.goto.as_ref().unwrap().session, "proj--feat-x");
    assert_eq!(ph.parent, Some(1));
}

#[test]
fn placeholder_goes_behind_the_subtree() {
    let (mut p, mut pending) = session_tree();
    // An agent below a working tree of the directory, and another directory.
    let mut tree = entry(EntryType::Worktree, "t", "/tmp/t");
    tree.parent = Some(1);
    tree.depth = 1;
    let mut deep = entry(EntryType::Agent, "d", "/tmp/t");
    deep.parent = Some(4);
    deep.depth = 2;
    p.entries.push(tree);
    p.entries.push(deep);
    p.entries.push(entry(EntryType::Dir, "next", "/tmp/next"));
    assert!(p.is_in_subtree(5, 1) && p.is_in_subtree(4, 1));
    assert!(!p.is_in_subtree(6, 1) && !p.is_in_subtree(1, 1));
    pending.branch = "ÄÖ".to_string();
    pending.dest = "/tmp/..".to_string();
    p.insert_placeholder(&pending, &host());
    assert_eq!(p.entries.len(), 8);
    assert!(p.entries[6].pending);
    assert_eq!(p.entries[7].label, "next");
    // The path has no name, so the branch is the label.
    assert_eq!(p.entries[6].label, "ÄÖ");
    assert_eq!(p.entries[6].search_text_lower, "proj äö äö");
    assert!(!p.entries[4].is_last);
}

#[test]
fn placeholder_without_its_directory_is_given_up() {
    let (mut p, mut pending) = session_tree();
    pending.dir_path = "/gone".to_string();
    p.pending_create = Some(pending.clone());
    p.insert_placeholder(&pending, &host());
    assert!(p.pending_create.is_none());
    assert_eq!(p.entries.len(), 4);
}

#[test]
fn a_circle_of_parents_ends() {
    let mut p = picker_with(&[EntryType::Dir, EntryType::Dir, EntryType::Dir], 0);
    p.entries[0].parent = Some(1);
    p.entries[1].parent = Some(0);
    assert!(p.is_in_subtree(0, 0));
    assert!(!p.is_in_subtree(0, 2));
    assert!(!p.is_in_subtree(9, 0));
    assert!(!p.leads_up(0));
    assert!(p.leads_up(2));
    p.entries[1].parent = Some(2);
    assert!(p.leads_up(0));
    p.entries[2].parent = Some(9);
    assert!(!p.leads_up(0));
}

// Failed create: spinner vanishes, error shows, cursor never moved.
#[test]
fn failed_create_removes_placeholder() {
    let (mut p, pending) = session_tree();
    p.pending_create = Some(pending.clone());
    p.insert_placeholder(&pending, &host());
    assert_eq!(p.entries.len(), 5);
    p.handle_op(
        OpResult::Failed { dest: pending.dest.clone(), msg: "boom".to_string() },
        &host(),
    );
    assert!(p.pending_create.is_none());
    assert_eq!(p.entries.len(), 4);
    assert!(!p.entries.iter().any(|e| e.pending));
    assert_eq!(p.cursor, 1);
    assert_eq!(p.entries[p.filtered[p.cursor]].label, "proj");
    assert!(p.feedbacks.iter().any(|f| f.message.contains("boom")));
    assert_eq!(p.feedbacks[0].message, "cannot create worktree 'feat/x': boom");
    assert_eq!(p.feedbacks[0].level, FeedbackType::Error);
}

#[test]
fn outcomes_of_other_trees_are_ignored() {
    let (mut p, pending) = session_tree();
    p.pending_create = Some(pending.clone());
    let other = || "/tmp/other-tree".to_string();
    assert!(!p.handle_op(OpResult::Created { dest: other() }, &host()));
    assert!(!p.handle_op(OpResult::Failed { dest: other(), msg: String::new() }, &host()));
    assert!(p.pending_create.is_some());
    assert!(p.feedbacks.is_empty());
    p.fail_pending("/tmp/other-tree", "no".to_string(), &host());
    assert!(p.feedbacks.is_empty());
    // Every success at the path calls for a list of its own.
    let created = || OpResult::Created { dest: pending.dest.clone() };
    let ops = vec![created(), OpResult::Created { dest: other() }, created()];
    let (_, refreshes) = p.tick(101 * SECOND, 80, ops, vec![], &host());
    assert_eq!(refreshes, 2);
    // The turn put the placeholder in.
    assert!(p.entries[4].pending);
}

// Daemon confirms the real entry: placeholder swaps out, cursor stays
// on the origin session, viewport reveals the child, we travel into it.
#[test]
fn reconcile_keeps_cursor_reveals_and_travels() {
    let (mut p, pending) = session_tree();
    p.pending_create = Some(pending.clone());
    p.insert_placeholder(&pending, &host());
    let mut real = entry(EntryType::Worktree, "proj--feat-x", &pending.dest);
    real.parent = Some(1);
    real.depth = 1;
    real.branch = Some("feat/x".to_string());
    real.search_text = "proj proj--feat-x feat/x".to_string();
    real.search_text_lower = real.search_text.to_lowercase();
    p.entries = vec![
        p.entries[0].clone(),
        p.entries[1].clone(),
        p.entries[2].clone(),
        p.entries[3].clone(),
        real,
    ];
    p.reconcile_pending(100 * SECOND, &host());
    assert!(p.pending_create.is_none());
    assert!(!p.entries.iter().any(|e| e.pending));
    assert_eq!(p.entries[p.filtered[p.cursor]].label, "proj");
    assert!(!p.touched);
    assert_eq!(p.scroll, 1);
    let goto = p.pending_goto.clone().expect("travels into the new worktree");
    assert_eq!(goto.path, pending.dest);
    assert_eq!(p.feedbacks[0].message, "✓ worktree 'feat/x' created");
    assert_eq!(p.feedbacks[0].level, FeedbackType::Warning);
}

// A hung git must not stick the spinner forever: 60s ceiling.
#[test]
fn stale_pending_times_out() {
    let (mut p, mut pending) = session_tree();
    pending.started = 100 * SECOND - 61 * SECOND;
    p.pending_create = Some(pending.clone());
    p.insert_placeholder(&pending, &host());
    assert_eq!(p.entries.len(), 5);
    p.reconcile_pending(100 * SECOND, &host());
    assert!(p.pending_create.is_none());
    assert!(!p.entries.iter().any(|e| e.pending));
    assert_eq!(p.entries.len(), 4);
    assert!(p.feedbacks.iter().any(|f| f.message.contains("timed out")));
    assert_eq!(p.cursor, 1);
}

#[test]
fn pending_lasts_just_as_long_as_it_may() {
    let (mut p, pending) = session_tree();
    p.pending_create = Some(pending.clone());
    p.insert_placeholder(&pending, &host());
    p.reconcile_pending(160 * SECOND, &host());
    assert!(p.pending_create.is_some());
    p.reconcile_pending(160 * SECOND + 1, &host());
    assert!(p.pending_create.is_none());
    assert_eq!(
        p.feedbacks[0].message,
        "timed out creating worktree 'feat/x' — check `git worktree list`"
    );
}

// Command keys on rows they can't act on say so instead of going silent.
#[test]
fn kill_without_session_warns() {
    let mut p = picker_with(&[EntryType::Dir], 0);
    p.execute_kill_session();
    assert!(!p.quit);
    assert!(p.feedbacks.iter().any(|f| f.message.contains("no live session")));
    p.feedbacks.clear();
    p.entries[0].is_open = true;
    p.open_detached();
    assert!(p.feedbacks.iter().any(|f| f.message.contains("nothing to open")));
}

#[test]
fn kill_names_the_window_or_the_session() {
    let mut p = picker_with(&[EntryType::Dir, EntryType::Agent], 0);
    p.mode = Mode::Command;
    p.entries[0].is_open = true;
    p.entries[0].goto.as_mut().unwrap().session = "a.b:c".to_string();
    let kill = p.execute_kill_session().unwrap();
    assert_eq!((kill.session.as_str(), kill.window), ("a_b_c", None));
    assert_eq!(p.mode, Mode::Normal);
    p.cursor = 1;
    p.entries[1].goto.as_mut().unwrap().session = "a.b".to_string();
    p.entries[1].goto.as_mut().unwrap().window = Some(3);
    let kill = p.execute_kill_session().unwrap();
    assert_eq!((kill.session.as_str(), kill.window), ("a.b", Some(3)));
    p.entries[1].goto = None;
    assert!(p.execute_kill_session().is_none());
    p.cursor = 7;
    assert!(p.execute_kill_session().is_none());
    assert!(p.feedbacks.is_empty());
}

#[test]
fn opening_marks_all_above() {
    let mut p = picker_with(&[EntryType::Dir, EntryType::Worktree, EntryType::Worktree], 0);
    p.entries[1].parent = Some(0);
    p.entries[2].parent = Some(1);
    p.entries[1].label = "mid".to_string();
    p.cursor = 1;
    p.mode = Mode::Command;
    let goto = p.open_detached().unwrap();
    assert_eq!(goto.path, "/tmp");
    let open: Vec<bool> = p.entries.iter().map(|e| e.is_open).collect();
    assert_eq!(open, vec![true, true, false]);
    assert_eq!(p.mode, Mode::Normal);
    assert!(p.open_detached().is_none());
    assert_eq!(p.feedbacks[0].message, "nothing to open on 'mid'");
    assert_eq!(p.feedbacks[0].level, FeedbackType::Warning);
}

#[test]
fn creating_plans_the_tree_and_shows_it() {
    let mut p = picker_with(&[EntryType::Dir], 0);
    p.entries[0].path = "/home/u/myrepo".to_string();
    p.entries[0].label = "myrepo".to_string();
    p.entries[0].search_text_lower = "myrepo feat/flow".to_string();
    p.input = " feat/flow ".to_string();
    p.mode = Mode::Command;
    let plan = p
        .create_worktree(5, Some(9), "", &|d: &str| d == "/home/u/myrepo--feat-flow", &host())
        .unwrap();
    assert_eq!(plan.repo, "/home/u/myrepo");
    assert_eq!(plan.branch, "feat/flow");
    assert_eq!(plan.dest, "/home/u/myrepo--feat-flow-2");
    assert_eq!(p.entries.len(), 2);
    assert!(p.entries[1].pending);
    assert_eq!(p.mode, Mode::Normal);
    let pending = p.pending_create.clone().unwrap();
    assert_eq!(pending.dest, plan.dest);
    assert_eq!(pending.branch, plan.branch);
    assert_eq!((pending.dir_label.as_str(), pending.started), ("myrepo", 5));

    // The tree in the making cannot have one below it.
    p.input = String::new();
    p.filtered = vec![0, 1];
    p.cursor = 1;
    let free = |_d: &str| false;
    assert!(p.create_worktree(5, Some(9), "", &free, &host()).is_none());
    assert_eq!(p.feedbacks[0].message, "cannot create a worktree here");
    // One that is there can, in its directory; no text gives a name by the time.
    p.entries[1].pending = false;
    let plan = p.create_worktree(5, Some(9), "", &free, &host()).unwrap();
    assert_eq!(plan.repo, "/home/u/myrepo");
    assert_eq!(plan.branch, "wt-9");
    assert_eq!(plan.dest, "/home/u/myrepo--wt-9");
    // Without a directory above it nothing happens.
    p.entries[1].parent = None;
    p.cursor = 1;
    assert!(p.create_worktree(5, Some(9), "", &free, &host()).is_none());
    assert_eq!(p.feedbacks.len(), 1);
}

#[test]
fn creating_uses_the_directory_of_the_settings() {
    let mut p = picker_with(&[EntryType::Dir], 0);
    p.entries[0].path = "/home/u/myrepo".to_string();
    p.config.path_worktrees = " ~/wt ".to_string();
    let plan = p.create_worktree(5, None, "/home/u/wt", &|_d: &str| false, &host()).unwrap();
    assert_eq!(plan.dest, "/home/u/wt/myrepo/wt-0");
}

#[test]
fn deleting_ends_what_runs_there() {
    let mut p = picker_with(
        &[EntryType::Dir, EntryType::Worktree, EntryType::Agent, EntryType::Agent],
        0,
    );
    p.entries[0].path = "/home/u/repo".to_string();
    p.entries[1].path = "/home/u/repo--v1.2".to_string();
    p.entries[1].parent = Some(0);
    for i in [2, 3] {
        p.entries[i].parent = Some(1);
        p.entries[i].goto.as_mut().unwrap().session = "s.1".to_string();
    }
    p.entries[2].goto.as_mut().unwrap().window = Some(4);
    assert!(p.delete_worktree().is_none());
    assert_eq!(p.feedbacks[0].message, "select a worktree entry to delete");
    p.cursor = 1;
    let plan = p.delete_worktree().unwrap();
    let kills: Vec<(&str, Option<u32>)> =
        plan.kills.iter().map(|k| (k.session.as_str(), k.window)).collect();
    assert_eq!(kills, vec![("s.1", Some(4)), ("s_1", None), ("repo--v1_2", None)]);
    assert_eq!(plan.repo, "/home/u/repo");
    assert_eq!(plan.wt, "/home/u/repo--v1.2");
    p.mode = Mode::Command;
    p.worktree_deleted(&plan.wt, Ok(()));
    assert_eq!(p.mode, Mode::Normal);
    assert_eq!(p.feedbacks[1].message, "✓ worktree /home/u/repo--v1.2 removed");
    p.worktree_deleted(&plan.wt, Err("locked".to_string()));
    assert_eq!(p.feedbacks[2].message, "cannot remove worktree: locked");
    assert_eq!(p.feedbacks[2].level, FeedbackType::Error);
    p.entries[1].parent = Some(99);
    assert_eq!(p.delete_worktree().unwrap().repo, "/home/u/repo--v1.2");
    p.cursor = 9;
    assert!(p.delete_worktree().is_none());
}

#[test]
fn revealing_needs_room_and_a_cursor() {
    let mut p = picker_with(&[EntryType::Dir, EntryType::Dir, EntryType::Dir], 2);
    p.entries[2].path = "/last".to_string();
    p.scroll = 9;
    p.reveal_path("/last");
    assert_eq!(p.scroll, 9);
    p.slot_entries.height = 3;
    p.reveal_path("/nowhere");
    assert_eq!(p.scroll, 9);
    p.cursor = 5;
    p.reveal_path("/last");
    assert_eq!(p.scroll, 9);
    p.cursor = 0;
    p.reveal_path("/last/");
    // Rows: e..e..e
    assert_eq!(p.scroll, 4);
    p.slot_entries.height = 20;
    p.reveal_path("/last");
    assert_eq!(p.scroll, 0);
}
