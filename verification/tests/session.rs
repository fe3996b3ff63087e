use learnminal::grid_extractor::GridBlock;
use learnminal::session::{
    cleanup_stale_sessions, commands_equal, merge_history, script_is_outdated, select_records,
    sessions_dir, shell_dir, split_tail, tail_lines, tail_start, CommandRecord, Session,
    SessionFile, MAX_SESSION_FILES, STALE_AFTER_NANOS, TAIL_BYTES,
};
use learnminal::types::HistorySource;

fn record(seq: u64, cmd: &str, exit: i32) -> String {
    format!(
        r#"{{"v":1,"seq":{seq},"pid":42,"cmd":"{cmd}","exit":{exit},"cwd":"/tmp","start":1,"end":2}}"#
    )
}

/// Reads one line of a session file.
fn decode(line: &str) -> Option<CommandRecord> {
    let value: serde_json::Value = serde_json::from_str(line).ok()?;
    let map = value.as_object()?;
    let number = |key: &str| map.get(key).and_then(|v| v.as_i64());
    let string =
        |key: &str| map.get(key).and_then(|v| v.as_str()).unwrap_or_default().to_string();
    Some(CommandRecord {
        v: number("v").unwrap_or(0) as u32,
        seq: number("seq").unwrap_or(0) as u64,
        pid: number("pid").unwrap_or(0) as u32,
        cmd: string("cmd"),
        exit: number("exit").map(|n| n as i32),
        cwd: string("cwd"),
        start: number("start"),
        end: number("end"),
    })
}

fn parse_tail(bytes: &[u8], partial_head: bool, max: usize) -> Vec<CommandRecord> {
    let lines = tail_lines(bytes, partial_head);
    let parsed: Vec<Option<CommandRecord>> = lines.iter().map(|l| decode(l)).collect();
    select_records(&parsed, max)
}

fn block(command: &str, output: &str) -> GridBlock {
    GridBlock { command: command.into(), output: output.into(), prompt_row: 0 }
}

fn rec(cmd: &str, exit: i32) -> CommandRecord {
    CommandRecord {
        v: 1,
        seq: 0,
        pid: 1,
        cmd: cmd.into(),
        exit: Some(exit),
        cwd: String::new(),
        start: None,
        end: None,
    }
}

#[test]
fn parse_tail_reads_records_written_by_the_shell_hooks() {
    let zsh = r#"{"v":1,"seq":3,"pid":36676,"cmd":"echo \"he said \\\"hi\\\"\"","exit":0,"cwd":"/tmp","start":1785443349,"end":1785443349}"#;
    let bash = r#"{"v":1,"seq":5,"pid":36676,"cmd":"ls /nonexistent-path-xyz","exit":1,"cwd":"/tmp","start":1785443349,"end":1785443349}"#;
    let text = format!("{zsh}\n{bash}\n");

    let records = parse_tail(text.as_bytes(), false, 5);
    assert_eq!(records.len(), 2);
    assert_eq!(records[0].cmd, r#"echo "he said \"hi\"""#);
    assert_eq!(records[0].exit, Some(0));
    assert_eq!(records[1].cmd, "ls /nonexistent-path-xyz");
    assert_eq!(records[1].exit, Some(1));
    assert_eq!(records[1].cwd, "/tmp");
}

#[test]
fn parse_tail_reads_last_n_records() {
    let text: String = (0..10).map(|i| format!("{}\n", record(i, &format!("cmd{i}"), 0))).collect();
    let records = parse_tail(text.as_bytes(), false, 5);
    assert_eq!(records.len(), 5);
    assert_eq!(records[0].cmd, "cmd5");
    assert_eq!(records[4].cmd, "cmd9");
}

#[test]
fn parse_tail_drops_partial_head_when_offset_nonzero() {
    // Buffer begins in the middle of a record, as a mid-file seek would leave it.
    let text = format!("d\":\"pwd\",\"exit\":0}}\n{}\n", record(2, "ls", 0));
    let records = parse_tail(text.as_bytes(), true, 5);
    assert_eq!(records.len(), 1);
    assert_eq!(records[0].cmd, "ls");
}

#[test]
fn parse_tail_partial_head_without_newline_is_empty() {
    assert!(parse_tail(b"d\":\"pwd\",\"exit\":0}", true, 5).is_empty());
}

#[test]
fn parse_tail_keeps_first_line_when_offset_zero() {
    let text = format!("{}\n{}\n", record(1, "pwd", 0), record(2, "ls", 0));
    let records = parse_tail(text.as_bytes(), false, 5);
    assert_eq!(records.len(), 2);
    assert_eq!(records[0].cmd, "pwd");
}

#[test]
fn parse_tail_tolerates_torn_last_line() {
    let text = format!("{}\n{{\"v\":1,\"seq\":9,\"cmd\":\"gi", record(1, "ls", 0));
    let records = parse_tail(text.as_bytes(), false, 5);
    assert_eq!(records.len(), 1);
    assert_eq!(records[0].cmd, "ls");
}

#[test]
fn parse_tail_skips_garbage_and_blank_lines() {
    let text = format!("not json\n\n{}\n   \n", record(1, "ls", 0));
    let records = parse_tail(text.as_bytes(), false, 5);
    assert_eq!(records.len(), 1);
}

#[test]
fn parse_tail_rejects_wrong_version_and_empty_command() {
    let text = format!(
        "{}\n{}\n",
        r#"{"v":2,"seq":1,"pid":1,"cmd":"ls","exit":0}"#,
        r#"{"v":1,"seq":2,"pid":1,"cmd":"   ","exit":0}"#,
    );
    assert!(parse_tail(text.as_bytes(), false, 5).is_empty());
}

#[test]
fn parse_tail_filters_records_from_other_pids() {
    let text = format!(
        "{}\n{}\n{}\n{}\n",
        r#"{"v":1,"seq":1,"pid":100,"cmd":"a","exit":0}"#,
        r#"{"v":1,"seq":2,"pid":100,"cmd":"b","exit":0}"#,
        r#"{"v":1,"seq":3,"pid":200,"cmd":"c","exit":0}"#,
        r#"{"v":1,"seq":4,"pid":200,"cmd":"d","exit":0}"#,
    );
    let records = parse_tail(text.as_bytes(), false, 10);
    assert_eq!(records.len(), 2);
    assert_eq!(records[0].cmd, "c");
    assert_eq!(records[1].cmd, "d");
}

#[test]
fn parse_tail_with_zero_max_is_empty() {
    let text = format!("{}\n", record(1, "ls", 0));
    assert!(parse_tail(text.as_bytes(), false, 0).is_empty());
}

#[test]
fn read_tail_records_missing_file_returns_empty() {
    assert!(parse_tail(b"", false, 5).is_empty());
}

#[test]
fn read_tail_records_handles_file_larger_than_tail_bytes() {
    let padding = "x".repeat(200);
    let text: String =
        (0..400).map(|i| format!("{}\n", record(i, &format!("cmd{i} {padding}"), 0))).collect();
    assert!(text.len() > TAIL_BYTES as usize);
    let start = tail_start(text.len() as u64) as usize;
    assert_eq!(text.len() - start, TAIL_BYTES as usize);

    let records = parse_tail(&text.as_bytes()[start..], start > 0, 5);
    assert_eq!(records.len(), 5);
    assert!(records[4].cmd.starts_with("cmd399"));
}

#[test]
fn cleanup_removes_stale_but_keeps_current_fresh_and_foreign_files() {
    let file = |path: &str| SessionFile { path: path.to_string(), modified: Some(0) };
    let files = vec![
        file("/s/stale.jsonl"),
        file("/s/fresh.jsonl"),
        file("/s/current.jsonl"),
        file("/s/notes.txt"),
    ];
    let later = STALE_AFTER_NANOS + 60_000_000_000;
    let removed = cleanup_stale_sessions(&files, Some("/s/current.jsonl"), later);
    assert_eq!(removed.len(), 2, "aged-out sessions are swept");
    assert!(removed.contains(&"/s/stale.jsonl".to_string()));
    assert!(removed.contains(&"/s/fresh.jsonl".to_string()));

    // And with a present-day "now", nothing is old enough to remove.
    assert!(cleanup_stale_sessions(&files, Some("/s/current.jsonl"), 1).is_empty());
}

#[test]
fn only_the_newest_session_files_stay() {
    let count = MAX_SESSION_FILES + 3;
    let files: Vec<SessionFile> = (0..count)
        .map(|i| SessionFile {
            path: format!("/s/{i}.jsonl"),
            modified: Some(((i * 7) % count) as i128),
        })
        .collect();
    let mut removed = cleanup_stale_sessions(&files, None, 1_000);
    removed.sort();
    let mut oldest: Vec<String> = files
        .iter()
        .filter(|f| f.modified < Some(3))
        .map(|f| f.path.clone())
        .collect();
    oldest.sort();
    assert_eq!(removed, oldest);
    assert_eq!(files.len() - removed.len(), MAX_SESSION_FILES);
}

#[test]
fn outputs_of_sibling_commands_are_not_swapped() {
    let records = [rec("git status", 0), rec("git stash", 0), rec("git status", 1)];
    let blocks = [block("git stash", "saved"), block("git status", "clean")];
    let (entries, _) = merge_history(&records, &blocks, 5);
    let outputs: Vec<&str> = entries.iter().map(|e| e.output.as_str()).collect();
    assert_eq!(outputs, ["", "saved", "clean"]);
}

#[test]
fn merge_pairs_records_to_blocks_in_order() {
    let records = [rec("ls", 0), rec("cargo build", 101)];
    let blocks = [block("ls", "a.txt"), block("cargo build", "error[E0433]")];
    let (entries, source) = merge_history(&records, &blocks, 5);

    assert_eq!(source, HistorySource::ShellHook);
    assert_eq!(entries.len(), 2);
    assert_eq!(entries[0].command, "ls");
    assert_eq!(entries[0].output, "a.txt");
    assert_eq!(entries[1].exit_code, Some(101));
    assert_eq!(entries[1].output, "error[E0433]");
}

#[test]
fn merge_duplicate_commands_map_to_distinct_blocks() {
    let records = [rec("ls", 0), rec("ls", 0), rec("ls", 0)];
    let blocks = [block("ls", "a"), block("ls", "b"), block("ls", "c")];
    let (entries, _) = merge_history(&records, &blocks, 5);

    let outputs: Vec<&str> = entries.iter().map(|e| e.output.as_str()).collect();
    assert_eq!(outputs, ["a", "b", "c"]);
}

#[test]
fn merge_record_without_block_gets_empty_output() {
    let records = [rec("clear", 0), rec("echo hi", 0)];
    let blocks = [block("echo hi", "hi")];
    let (entries, _) = merge_history(&records, &blocks, 5);

    assert_eq!(entries[0].command, "clear");
    assert!(entries[0].output.is_empty());
    assert_eq!(entries[1].output, "hi");
}

#[test]
fn merge_extra_blocks_without_records_are_dropped() {
    let records = [rec("echo hi", 0)];
    let blocks = [block("older", "x"), block("echo hi", "hi")];
    let (entries, _) = merge_history(&records, &blocks, 5);

    assert_eq!(entries.len(), 1);
    assert_eq!(entries[0].output, "hi");
}

#[test]
fn merge_match_window_prevents_distant_pairing() {
    let records = [rec("target", 0)];
    let blocks = [
        block("target", "wanted"),
        block("noise1", ""),
        block("noise2", ""),
        block("noise3", ""),
        block("noise4", ""),
    ];
    let (entries, _) = merge_history(&records, &blocks, 5);

    assert_eq!(entries.len(), 1);
    assert!(entries[0].output.is_empty(), "match should not reach past MATCH_WINDOW");
}

#[test]
fn merge_empty_records_falls_back_to_grid_only() {
    let blocks = [block("ls", "a"), block("pwd", "/tmp")];
    let (entries, source) = merge_history(&[], &blocks, 5);

    assert_eq!(source, HistorySource::GridOnly);
    assert_eq!(entries.len(), 2);
    assert_eq!(entries[1].command, "pwd");
    assert!(entries[1].exit_code.is_none());
}

#[test]
fn merge_with_nothing_at_all_reports_no_history() {
    let (entries, source) = merge_history(&[], &[], 5);
    assert!(entries.is_empty());
    assert_eq!(source, HistorySource::Absent);
}

#[test]
fn merge_respects_max_and_keeps_newest() {
    let records = [rec("a", 0), rec("b", 0), rec("c", 0), rec("d", 0)];
    let (entries, _) = merge_history(&records, &[], 2);

    assert_eq!(entries.len(), 2);
    assert_eq!(entries[0].command, "c");
    assert_eq!(entries[1].command, "d");
}

#[test]
fn commands_equal_accepts_exact_whitespace_and_mangled_variants() {
    assert!(commands_equal("git status", "git  status"), "whitespace is normalized");
    assert!(commands_equal("cargo build --rel", "cargo build --release"), "grid line wrapped");
    assert!(commands_equal("(venv) cargo build", "cargo build"), "prompt text leaked in");
}

#[test]
fn commands_equal_rejects_neighbouring_and_short_commands() {
    // Sibling subcommands must never be paired: their outputs would be swapped.
    assert!(!commands_equal("git status", "git stash"));
    assert!(!commands_equal("ls", "ls -la /very/long/path"), "too little shared text");
    assert!(!commands_equal("cd /a", "cd /b"));
    assert!(!commands_equal("", "ls"));
    assert!(!commands_equal("ls", ""));
}

#[test]
fn sessions_have_their_own_file_and_tell_the_shell() {
    let one = Session::new(Some("/state"));
    let two = Session::new(Some("/state"));
    assert_ne!(one.id, two.id);
    assert_eq!(one.id.len(), 32);
    let path = one.path().unwrap();
    assert!(path.starts_with(&sessions_dir("/state")));
    assert!(path.contains(&one.id));
    assert!(one.env_vars().iter().any(|(_, v)| v == path));
    let fixed = Session::with_id("abc".to_string(), Some("/state"));
    assert!(fixed.path().unwrap().ends_with("abc.jsonl"));
    assert!(Session::with_id("abc".to_string(), None).path().is_none());
}

#[test]
fn shell_scripts_are_rewritten_only_when_they_differ() {
    assert!(script_is_outdated(None, "x"));
    assert!(script_is_outdated(Some("y"), "x"));
    assert!(!script_is_outdated(Some("x"), "x"));
    assert_eq!(shell_dir("/state"), "/state/shell");
}

#[test]
fn broken_characters_in_the_tail_are_replaced() {
    let lines = tail_lines(&[0xff, b'a', b'\n', b'b'], false);
    assert_eq!(lines, vec!["\u{fffd}a", "b"]);
    assert_eq!(split_tail("cut\nwhole\n", true), vec!["whole"]);
    assert_eq!(tail_start(10), 0);
}

#[test]
fn the_newest_records_are_those_of_the_last_shell() {
    let record = |pid: u32, cmd: &str| {
        Some(CommandRecord { pid, ..decode(&record(1, cmd, 0)).unwrap() })
    };
    let lines = vec![record(1, "a"), record(2, "b"), None, record(0, "c"), record(2, "d")];
    let commands = |max: usize| -> Vec<String> {
        select_records(&lines, max).into_iter().map(|r| r.cmd).collect()
    };
    assert_eq!(commands(9), ["b", "c", "d"]);
    assert_eq!(commands(2), ["c", "d"]);
    assert!(commands(0).is_empty());
}
