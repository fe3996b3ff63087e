use learnminal::actions::{
    actions_array, actions_enabled, build_extraction_prompt, extract_actions, parse_actions,
    parse_item, sanitize_command, sanitize_goal, ActionItem, MAX_ACTIONS, MAX_COMMAND_LEN,
    MAX_GOAL_LEN, REPLY_BUDGET_CHARS,
};
use learnminal::json::{list_of, object_of, parse, push_member, text_of, Json};

fn value(text: &str) -> Json {
    parse(text).expect("valid JSON")
}

fn action(command: &str, goal: &str) -> Json {
    let mut members = Vec::new();
    push_member(&mut members, "command", text_of(command));
    push_member(&mut members, "goal", text_of(goal));
    object_of(members)
}

#[test]
fn parses_wrapper_object() {
    let raw = value(
        r#"{"actions": [
            { "command": "ls -l", "goal": "show as a list" },
            { "command": "du -sh *", "goal": "check dir sizes" }
        ]}"#,
    );
    let actions = parse_actions(&raw);
    assert_eq!(actions.len(), 2);
    assert_eq!(actions[0].command, "ls -l");
    assert_eq!(actions[0].goal, "show as a list");
    assert_eq!(actions[1].command, "du -sh *");
}

#[test]
fn parses_bare_array() {
    let raw = list_of(vec![action("git status", "see changes")]);
    let actions = parse_actions(&raw);
    assert_eq!(actions.len(), 1);
    assert_eq!(actions[0].command, "git status");
}

#[test]
fn parses_stringified_arguments() {
    let raw = text_of(r#"{"actions": [{"command": "pwd", "goal": "print cwd"}]}"#);
    let actions = parse_actions(&raw);
    assert_eq!(actions.len(), 1);
    assert_eq!(actions[0].command, "pwd");
}

#[test]
fn parses_single_bare_object() {
    let raw = action("whoami", "show user");
    assert_eq!(parse_actions(&raw).len(), 1);
}

#[test]
fn rejects_multiline_and_overlong_commands() {
    let long = "a".repeat(MAX_COMMAND_LEN + 1);
    let raw = list_of(vec![
        action("ls\nrm -rf /", "bad"),
        action(&long, "bad"),
        action("   ", "bad"),
        action("ls", "fine"),
    ]);
    let actions = parse_actions(&raw);
    assert_eq!(actions.len(), 1);
    assert_eq!(actions[0].command, "ls");
}

#[test]
fn strips_prompt_markers_and_backticks() {
    let raw = list_of(vec![action("$ `ls -a`", "show hidden files")]);
    let actions = parse_actions(&raw);
    assert_eq!(actions[0].command, "ls -a");
}

#[test]
fn dedupes_and_caps() {
    let mut items = Vec::new();
    for i in 0..MAX_ACTIONS + 3 {
        items.push(action(&format!("cmd{i}"), "go"));
    }
    items.push(action("cmd0", "dupe"));
    let actions = parse_actions(&list_of(items));
    assert_eq!(actions.len(), MAX_ACTIONS);
}

#[test]
fn truncates_long_goal() {
    let raw = list_of(vec![action(
        "ls",
        "this is a very long explanation that goes well past the limit",
    )]);
    let goal = &parse_actions(&raw)[0].goal;
    assert!(goal.chars().count() <= MAX_GOAL_LEN);
    assert!(goal.ends_with('…'));
}

#[test]
fn accepts_missing_goal() {
    let raw = value(r#"[{ "command": "ls" }]"#);
    let actions = parse_actions(&raw);
    assert_eq!(actions.len(), 1);
    assert!(actions[0].goal.is_empty());
}

#[test]
fn garbage_yields_empty() {
    assert!(parse_actions(&text_of("not json at all")).is_empty());
    assert!(parse_actions(&value("42")).is_empty());
    assert!(parse_actions(&value(r#"{ "unrelated": true }"#)).is_empty());
    assert!(parse_actions(&value("[]")).is_empty());
}

#[test]
fn extract_actions_end_to_end_via_tool_call() {
    let response = value(
        r#"{"message":{"role":"assistant","tool_calls":[{"function":{"name":"list_actions","arguments":{"actions":[{"command":"ls -l","goal":"show as a list"},{"command":"du -sh *","goal":"check dir sizes"}]}}}]}}"#,
    );
    let actions = extract_actions("Use ls -l to list files.", Some(&response));
    assert_eq!(actions.len(), 2);
    assert_eq!(
        actions[0],
        ActionItem { command: "ls -l".into(), goal: "show as a list".into() }
    );
}

#[test]
fn extract_actions_returns_empty_when_backend_is_down() {
    assert!(extract_actions("some answer", None).is_empty());
}

#[test]
fn extract_actions_skips_empty_reply_without_calling_out() {
    let response = value(r#"{"message":{"content":"[{\"command\":\"ls\"}]"}}"#);
    assert_eq!(extract_actions("an answer", Some(&response)).len(), 1);
    assert!(extract_actions("   ", Some(&response)).is_empty());
}

#[test]
fn extract_actions_ignores_a_reported_error() {
    let response = value(
        r#"{"error":"model missing","message":{"content":"[{\"command\":\"ls\"}]"}}"#,
    );
    assert!(extract_actions("an answer", Some(&response)).is_empty());
}

#[test]
fn extraction_prompt_includes_reply_and_last_command() {
    let prompt = build_extraction_prompt("Run ls -l to list files.", "cd /tmp");
    assert!(prompt.contains("list_actions"));
    assert!(prompt.contains("Run ls -l to list files."));
    assert!(prompt.contains("cd /tmp"));
}

#[test]
fn extraction_prompt_keeps_only_the_start_of_a_long_reply() {
    let reply = "x".repeat(REPLY_BUDGET_CHARS + 500);
    let prompt = build_extraction_prompt(&reply, "");
    assert!(prompt.contains(&"x".repeat(REPLY_BUDGET_CHARS)));
    assert!(!prompt.contains(&"x".repeat(REPLY_BUDGET_CHARS + 1)));
}

#[test]
fn actions_are_on_unless_switched_off() {
    assert!(actions_enabled(None));
    assert!(actions_enabled(Some("1")));
    assert!(!actions_enabled(Some("0")));
    assert!(!actions_enabled(Some("off")));
}

#[test]
fn nested_wrappers_are_opened() {
    let raw = value(r#"{"items": "[{\"command\": \"date\"}]"}"#);
    assert_eq!(actions_array(&raw, 0).len(), 1);
    assert_eq!(actions_array(&raw, 1).len(), 0);
    assert_eq!(parse_item(&action("date", "tell time")).map(|a| a.command), Some("date".into()));
    assert!(parse_item(&text_of("")).is_none());
}

#[test]
fn commands_and_goals_are_cleaned() {
    assert_eq!(sanitize_command("  `git log`  "), Some("git log".to_string()));
    assert_eq!(sanitize_command(""), None);
    assert_eq!(sanitize_command(&"a".repeat(MAX_COMMAND_LEN)), Some("a".repeat(MAX_COMMAND_LEN)));
    assert_eq!(sanitize_goal("  show   user "), "show user");
}
