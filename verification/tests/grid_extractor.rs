use learnminal::grid_extractor::{
    collect_recent_lines, collect_visible_lines, command_after_last_prompt, extract_command_block,
    extract_command_blocks, extract_context, extract_last_command, extract_selection,
    is_likely_prompt_position, line_has_prompt, line_to_string, parse_i32, read_last_command,
    read_last_exit_code, scan_range, truncate_lines, truncate_with_marker, GridCell,
    SelectionSpan, TerminalGrid, MAX_CHARS, PREFIX_LINES, SUFFIX_LINES,
};
use learnminal::session::CommandRecord;
use learnminal::types::HistorySource;

const CHAR_LIMIT_NOTE: &str = "\n... [char limit reached]";

fn truncate_chars(text: String) -> String {
    truncate_with_marker(&text, MAX_CHARS, CHAR_LIMIT_NOTE)
}

fn cells(text: &str, columns: usize) -> Vec<GridCell> {
    let mut row: Vec<GridCell> =
        text.chars().map(|c| GridCell { c, spacer: false }).collect();
    row.resize(columns, GridCell { c: ' ', spacer: false });
    row
}

fn grid(lines: &[&str], history: usize) -> TerminalGrid {
    TerminalGrid {
        rows: lines.iter().map(|l| cells(l, 30)).collect(),
        history,
        screen_lines: lines.len() - history,
        columns: 30,
        display_offset: 0,
    }
}

#[test]
fn no_truncation_at_boundary() {
    let lines: Vec<String> = (0..PREFIX_LINES + SUFFIX_LINES).map(|i| format!("line{i}")).collect();
    let text = truncate_lines(&lines);
    assert!(!text.contains("truncated"));
    assert_eq!(text.lines().count(), PREFIX_LINES + SUFFIX_LINES);
}

#[test]
fn truncation_kicks_in_one_over_boundary() {
    let lines: Vec<String> =
        (0..PREFIX_LINES + SUFFIX_LINES + 1).map(|i| format!("line{i}")).collect();
    let text = truncate_lines(&lines);
    assert!(text.contains("truncated 1 lines"));
}

#[test]
fn last_command_extracts_after_dollar() {
    let lines = vec!["noise".into(), "$ git status".into()];
    assert_eq!(extract_last_command(&lines), "git status");
}

#[test]
fn last_command_empty_without_prompt() {
    let lines = vec!["no prompt here".into()];
    assert!(extract_last_command(&lines).is_empty());
}

// Taking the last prompt character on the line would give "HOME" for this input.
#[test]
fn last_command_preserves_dollar_in_command() {
    let lines = vec!["$ echo $HOME".into()];
    assert_eq!(extract_last_command(&lines), "echo $HOME");
}

#[test]
fn last_command_preserves_percent_in_format_flag() {
    let lines = vec!["$ git log --format=\"%H\"".into()];
    assert_eq!(extract_last_command(&lines), "git log --format=\"%H\"");
}

// A hash in a command is no prompt.
#[test]
fn last_command_preserves_hash_in_command() {
    let lines = vec!["$ git log --grep=\"#123\"".into()];
    assert_eq!(extract_last_command(&lines), "git log --grep=\"#123\"");
}

#[test]
fn empty_grid_produces_empty_visible_text_and_command() {
    let lines: Vec<String> = Vec::new();
    assert_eq!(truncate_lines(&lines), "");
    assert_eq!(extract_last_command(&lines), "");
}

#[test]
fn last_command_handles_all_four_prompt_chars() {
    for prompt in &['$', '#', '%', '❯'] {
        let lines = vec![format!("user@host {prompt} echo hi")];
        assert_eq!(extract_last_command(&lines), "echo hi", "prompt char: {prompt}");
    }
}

#[test]
fn last_command_skips_prompts_outside_last_10_lines() {
    // 11 lines: prompt only on the first line, which is outside the 10-line window.
    let mut lines: Vec<String> = vec!["$ first cmd".into()];
    lines.extend((0..10).map(|i| format!("noprompt{i}")));
    assert!(extract_last_command(&lines).is_empty());
}

#[test]
fn last_command_ignores_dollar_signs_in_output_prose() {
    let lines = vec![
        "$ git status".into(),
        "On branch main".into(),
        "You can run $ git diff next".into(),
        "user@host $ ".into(),
    ];
    assert_eq!(extract_last_command(&lines), "git status");
}

#[test]
fn last_command_skips_empty_current_prompt() {
    let lines = vec![
        "$ cargo build".into(),
        "   Compiling learnminal".into(),
        "awni@mbp ~/proj $ ".into(),
    ];
    assert_eq!(extract_last_command(&lines), "cargo build");
}

#[test]
fn last_command_uses_last_prompt_on_line() {
    assert_eq!(command_after_last_prompt("$ echo $HOME").as_deref(), Some("echo $HOME"));
}

// ❯ directly after a path segment (no @ or other anchor) must be detected.
#[test]
fn last_command_detects_chevron_after_path() {
    let lines = vec!["~/projects/learnminal❯ cargo build".into()];
    assert_eq!(extract_last_command(&lines), "cargo build");
}

#[test]
fn last_command_detects_chevron_after_short_path() {
    let lines = vec!["~/src❯ git status".into()];
    assert_eq!(extract_last_command(&lines), "git status");
}

#[test]
fn read_last_command_strips_extended_history_prefix() {
    // What zsh with EXTENDED_HISTORY writes.
    let raw = ": 1716000000:0;git rebase -i HEAD~3";
    assert_eq!(read_last_command(Some(raw)).as_deref(), Some("git rebase -i HEAD~3"));
    assert_eq!(read_last_command(Some("ls\n")).as_deref(), Some("ls"));
    assert_eq!(read_last_command(None), None);
}

#[test]
fn command_block_extracts_command_and_output() {
    let lines: Vec<String> = vec![
        "user@host $ git status".into(),
        "On branch main".into(),
        "nothing to commit".into(),
        "user@host $ ".into(),
    ];
    let (cmd, out) = extract_command_block(&lines);
    assert_eq!(cmd, "git status");
    assert_eq!(out, "On branch main\nnothing to commit");
}

#[test]
fn command_block_empty_when_only_one_prompt() {
    let lines: Vec<String> = vec!["user@host $ git status".into()];
    let (cmd, out) = extract_command_block(&lines);
    assert!(cmd.is_empty());
    assert!(out.is_empty());
}

#[test]
fn command_block_empty_output_when_command_produced_no_output() {
    let lines: Vec<String> = vec!["user@host $ clear".into(), "user@host $ ".into()];
    let (cmd, out) = extract_command_block(&lines);
    assert_eq!(cmd, "clear");
    assert!(out.is_empty());
}

#[test]
fn command_block_works_with_chevron_prompt() {
    let lines: Vec<String> = vec![
        "~/proj❯ cargo test".into(),
        "running 5 tests".into(),
        "test result: ok".into(),
        "~/proj❯ ".into(),
    ];
    let (cmd, out) = extract_command_block(&lines);
    assert_eq!(cmd, "cargo test");
    assert!(out.contains("running 5 tests"));
}

#[test]
fn visible_text_exactly_at_max_chars_has_no_marker() {
    let text = truncate_chars("a".repeat(MAX_CHARS));
    assert_eq!(text.len(), MAX_CHARS);
    assert!(!text.contains("[char limit reached]"));
}

#[test]
fn visible_text_one_over_max_chars_adds_marker() {
    let text = truncate_chars("a".repeat(MAX_CHARS + 1));
    assert!(text.contains("[char limit reached]"));
    assert_eq!(text.len(), MAX_CHARS + CHAR_LIMIT_NOTE.len());
}

#[test]
fn visible_text_respects_max_chars() {
    let text = truncate_chars("a".repeat(MAX_CHARS + 100));
    assert!(text.len() <= MAX_CHARS + CHAR_LIMIT_NOTE.len());
    let lines = vec!["a".repeat(MAX_CHARS + 100)];
    assert_eq!(truncate_lines(&lines), text);
}

#[test]
fn truncate_chars_is_char_boundary_safe() {
    let text = truncate_chars("é".repeat(MAX_CHARS + 10));
    assert!(text.contains("[char limit reached]"));
    assert_eq!(text.chars().count(), MAX_CHARS + CHAR_LIMIT_NOTE.chars().count());
}

#[test]
fn command_block_output_truncation_is_char_safe() {
    let long_output = "日".repeat(4_000);
    let lines: Vec<String> = vec!["$ cat notes.txt".into(), long_output, "$ ".into()];
    let (cmd, out) = extract_command_block(&lines);
    assert_eq!(cmd, "cat notes.txt");
    assert!(out.ends_with("[output truncated]"));
    assert!(out.chars().count() <= 3_000 + "\n... [output truncated]".chars().count());
}

fn sample_session() -> Vec<String> {
    vec![
        "user@host $ cd /tmp".into(),
        "user@host $ ls".into(),
        "a.txt".into(),
        "b.txt".into(),
        "user@host $ false".into(),
        "user@host $ ".into(),
    ]
}

#[test]
fn extract_command_blocks_returns_oldest_to_newest() {
    let blocks = extract_command_blocks(&sample_session(), 5);
    let commands: Vec<&str> = blocks.iter().map(|b| b.command.as_str()).collect();
    assert_eq!(commands, ["cd /tmp", "ls", "false"]);
    assert!(blocks[0].output.is_empty());
    assert_eq!(blocks[1].output, "a.txt\nb.txt");
}

#[test]
fn extract_command_blocks_respects_max_blocks() {
    let blocks = extract_command_blocks(&sample_session(), 2);
    let commands: Vec<&str> = blocks.iter().map(|b| b.command.as_str()).collect();
    assert_eq!(commands, ["ls", "false"], "the newest blocks must be the ones kept");

    assert!(extract_command_blocks(&sample_session(), 0).is_empty());
}

#[test]
fn extract_command_blocks_skips_bare_prompt_rows() {
    let lines: Vec<String> = vec![
        "user@host $ ".into(),
        "user@host $ echo hi".into(),
        "hi".into(),
        "user@host $ ".into(),
    ];
    let blocks = extract_command_blocks(&lines, 5);
    assert_eq!(blocks.len(), 1);
    assert_eq!(blocks[0].command, "echo hi");
}

#[test]
fn extract_command_block_wrapper_matches_legacy_behaviour() {
    assert_eq!(extract_command_block(&sample_session()), ("false".to_owned(), String::new()));
    assert_eq!(extract_command_block(&[]), (String::new(), String::new()));

    // Bare prompt directly above the current one: no command, so no block.
    let bare: Vec<String> = vec!["user@host $ ".into(), "user@host $ ".into()];
    assert_eq!(extract_command_block(&bare), (String::new(), String::new()));
}

#[test]
fn scan_range_clamps_to_topmost() {
    assert_eq!(scan_range(-10, 23, 500), (-10, 23));
    assert_eq!(scan_range(-10_000, 23, 500), (-476, 23));
}

#[test]
fn scan_range_handles_empty_history_and_degenerate_limits() {
    assert_eq!(scan_range(0, 23, 500), (0, 23));
    assert_eq!(scan_range(-100, 23, 1), (23, 23));
    // A zero limit would produce an inverted range; clamp it to a single line.
    assert_eq!(scan_range(-100, 23, 0), (23, 23));
}

#[test]
fn middle_lines_are_left_out() {
    let lines: Vec<String> = (0..200).map(|i| format!("line{i}")).collect();
    let text = truncate_lines(&lines);
    assert!(text.starts_with("line0\nline1\n"));
    assert!(text.ends_with("line198\nline199"));
    assert!(text.contains("[truncated 120 lines]"));
}

#[test]
fn grid_rows_become_lines_without_their_padding() {
    let mut row = cells("日本", 6);
    row[1] = GridCell { c: ' ', spacer: true };
    assert_eq!(line_to_string(&row), "日");
    assert_eq!(line_to_string(&cells("ls -l", 30)), "ls -l");
    let mut g = grid(&["old", "new", "$ "], 1);
    assert_eq!(collect_visible_lines(&g), vec!["new", "$"]);
    assert_eq!(collect_recent_lines(&g, 500), vec!["old", "new", "$"]);
    assert_eq!(collect_recent_lines(&g, 2), vec!["new", "$"]);
    g.display_offset = 1;
    assert_eq!(collect_visible_lines(&g), vec!["old", "new"]);
}

#[test]
fn selections_are_read_from_the_grid() {
    let g = grid(&["hello world", "second line"], 0);
    let span = |sl, sc, el, ec, is_block| SelectionSpan {
        start_line: sl,
        start_column: sc,
        end_line: el,
        end_column: ec,
        is_block,
    };
    assert_eq!(extract_selection(&g, &span(0, 6, 0, 10, false)).as_deref(), Some("world"));
    let two = extract_selection(&g, &span(0, 6, 1, 5, false)).unwrap();
    assert!(two.starts_with("world"));
    assert!(two.ends_with("second"));
    let block = extract_selection(&g, &span(0, 0, 1, 1, true)).unwrap();
    assert_eq!(block, "he\nse");
    assert_eq!(extract_selection(&g, &span(0, 20, 0, 22, false)), None);
}

#[test]
fn context_joins_the_screen_with_the_shell_hook() {
    let g = grid(&["user@host $ ls", "a.txt", "user@host $ "], 0);
    let record = CommandRecord {
        v: 1,
        seq: 1,
        pid: 1,
        cmd: "ls".to_string(),
        exit: Some(3),
        cwd: "/w".to_string(),
        start: None,
        end: None,
    };
    let ctx = extract_context(&g, None, "/w", Some(3), &[record], None);
    assert_eq!(ctx.last_command, "ls");
    assert_eq!(ctx.last_command_output, "a.txt");
    assert_eq!(ctx.exit_code, Some(3));
    assert_eq!(ctx.history_source, HistorySource::ShellHook);
    assert_eq!(ctx.command_history.len(), 1);
    assert_eq!(ctx.command_history[0].output, "a.txt");
    assert_eq!(ctx.cwd, "/w");
    let grid_only = extract_context(&g, None, "/w", Some(3), &[], None);
    assert_eq!(grid_only.history_source, HistorySource::GridOnly);
    assert_eq!(grid_only.last_command, "ls");
}

#[test]
fn a_selection_off_the_grid_gives_an_empty_context() {
    let g = grid(&["user@host $ ls", "a.txt", "user@host $ "], 0);
    let off = SelectionSpan {
        start_line: 90,
        start_column: 0,
        end_line: 91,
        end_column: 0,
        is_block: false,
    };
    let ctx = extract_context(&g, Some(off), "/w", Some(0), &[], None);
    assert_eq!(ctx.visible_text, "");
    assert_eq!(ctx.last_command, "");
}

#[test]
fn exit_codes_are_read_from_the_hook() {
    assert_eq!(read_last_exit_code(Some("127\n")), Some(127));
    assert_eq!(read_last_exit_code(Some("-1")), Some(-1));
    assert_eq!(read_last_exit_code(Some("x")), None);
    assert_eq!(read_last_exit_code(None), None);
    assert_eq!(parse_i32("2147483647"), Some(i32::MAX));
    assert_eq!(parse_i32("2147483648"), None);
    assert_eq!(parse_i32("+5"), Some(5));
    assert_eq!(parse_i32(""), None);
}

#[test]
fn prompts_are_told_from_prose() {
    assert!(line_has_prompt("user@host $ "));
    assert!(!line_has_prompt("costs 5$ each"));
    assert!(is_likely_prompt_position("$ ls", 0));
    assert_eq!(command_after_last_prompt("user@host $ "), None);
}

#[test]
fn history_ends_with_the_last_command() {
    let g = grid(&["user@host $ ls", "a.txt", "user@host $ "], 0);
    // The same command: its own words, with the output on the grid.
    let same = extract_context(&g, None, "/w", Some(1), &[], Some("ls"));
    assert_eq!(same.last_command, "ls");
    assert_eq!(same.last_command_output, "a.txt");
    assert_eq!(same.command_history.len(), 1);
    // Another one: it stands behind what the grid shows, and has no output of its own.
    let other = extract_context(&g, None, "/w", Some(1), &[], Some("clear"));
    assert_eq!(other.last_command, "clear");
    assert_eq!(other.last_command_output, "");
    assert_eq!(other.command_history.len(), 2);
    assert_eq!(other.command_history[0].output, "a.txt");
    assert_eq!(other.command_history[0].exit_code, None);
    let newest = other.command_history.last().unwrap();
    assert_eq!((newest.command.as_str(), newest.exit_code), ("clear", Some(1)));
    // The grid cut a long command short.
    let long = "cargo build --release --workspace";
    let g = grid(&["user@host $ cargo build --release", "done", "user@host $ "], 0);
    let cut = extract_context(&g, None, "/w", None, &[], Some(long));
    assert_eq!(cut.last_command, long);
    assert_eq!(cut.command_history.len(), 1);
    assert_eq!(cut.command_history[0].command, long);
    assert_eq!(cut.last_command_output, "done");
}

#[test]
fn a_history_that_ends_with_the_last_command_stays_bounded() {
    let mut rows: Vec<String> = Vec::new();
    for i in 0..7 {
        rows.push(format!("user@host $ echo {i}"));
        rows.push(format!("{i}"));
    }
    rows.push("user@host $ ".to_string());
    let rows: Vec<&str> = rows.iter().map(|r| r.as_str()).collect();
    let ctx = extract_context(&grid(&rows, 0), None, "/w", None, &[], Some("clear"));
    let commands: Vec<&str> = ctx.command_history.iter().map(|e| e.command.as_str()).collect();
    assert_eq!(commands, ["echo 3", "echo 4", "echo 5", "echo 6", "clear"]);
}

#[test]
fn fewer_blocks_are_the_newest() {
    let lines: Vec<String> = ["user@host $ a", "1", "user@host $ b", "2", "user@host $ c", "3", "user@host $ "]
        .iter()
        .map(|l| l.to_string())
        .collect();
    let all = extract_command_blocks(&lines, 9);
    assert_eq!(all.len(), 3);
    assert_eq!(extract_command_blocks(&lines, 2), all[1..]);
}
