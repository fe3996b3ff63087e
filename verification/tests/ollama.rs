use learnminal::json::{parse, Json};
use learnminal::ollama::{
    base_url, candidate_models, default_model, extract_tool_calls,
    history_messages, http_error, map_transport_error, message_content, model_names,
    normalize_host, parse_embedded_json, pick_available, read_stream_value, resolve_active_model,
    set_active_model, string_arg_from, string_arg_with, strip_fences, tool_arguments,
    tool_call_arguments, ChatStream, ChatTurn, NextStep, OllamaError, TagEntry, ToolLoop,
    ToolRequest, ToolSet, DEFAULT_HOST, DEFAULT_MODEL, DEFAULT_MODEL_MLX, HISTORY_REPLY_CHARS,
    MAX_HISTORY_TURNS, MAX_TOOL_ROUNDS,
};
use learnminal::requests::{
    actions_tool_schema, chat_url, load_request, round_request, run_command_tool_schema,
    stream_request, tags_url, tool_request, unload_request, web_search_tool_schema,
};
use learnminal::types::Platform;

fn value(text: &str) -> Json {
    parse(text).expect("valid JSON")
}

fn field<'a>(v: &'a Json, key: &str) -> &'a str {
    v.get(key).unwrap().as_str().unwrap()
}

fn ndjson_chat_body(chunks: &[&str]) -> Vec<String> {
    let mut body = Vec::new();
    for chunk in chunks {
        body.push(format!(
            "{{\"message\":{{\"role\":\"assistant\",\"content\":\"{chunk}\"}},\"done\":false}}"
        ));
    }
    body.push("{\"message\":{\"role\":\"assistant\",\"content\":\"\"},\"done\":true}".to_string());
    body
}

/// Reads a stream: the pieces passed on, the errors reported, and how it ended.
fn read_stream(
    body: &[String],
) -> (Vec<String>, Vec<String>, Option<Result<String, OllamaError>>) {
    let mut stream = ChatStream::new();
    let mut chunks = Vec::new();
    for line in body {
        let read = stream.accept(line);
        if let Some(error) = read.error {
            return (chunks, vec![error], None);
        }
        if let Some(chunk) = read.chunk {
            chunks.push(chunk);
        }
        if read.done {
            return (chunks, Vec::new(), Some(stream.finish(true)));
        }
    }
    (chunks, Vec::new(), Some(stream.finish(false)))
}

fn contains_text(v: &Json, needle: &str) -> bool {
    match v {
        Json::Text(t) => t.contains(needle),
        Json::List(items) => items.iter().any(|i| contains_text(i, needle)),
        Json::Object(members) => members.iter().any(|(_, m)| contains_text(m, needle)),
        _ => false,
    }
}

#[test]
fn normalize_host_adds_scheme_when_missing() {
    assert_eq!(normalize_host("127.0.0.1:11434"), "http://127.0.0.1:11434");
    assert_eq!(normalize_host("http://host:1/"), "http://host:1");
    assert_eq!(normalize_host("https://h:2"), "https://h:2");
}

#[test]
fn blank_host_falls_back_to_the_local_daemon() {
    assert_eq!(base_url(None), DEFAULT_HOST);
    assert_eq!(base_url(Some("  ")), DEFAULT_HOST);
    assert_eq!(base_url(Some("box:1")), "http://box:1");
}

#[test]
fn list_models_parses_tags() {
    let entry = |name: Option<&str>, model: Option<&str>| TagEntry {
        name: name.map(str::to_owned),
        model: model.map(str::to_owned),
    };
    let entries =
        vec![entry(Some("a:1"), Some("a:1")), entry(None, Some("b:2")), entry(Some("c"), None)];
    assert_eq!(model_names(&entries), vec!["a:1", "b:2", "c"]);
    assert_eq!(model_names(&[entry(Some(" x "), Some("  "))]), vec!["x"]);
    assert!(model_names(&[entry(None, None)]).is_empty());
}

#[test]
fn chat_stream_accumulates_and_finalizes() {
    let request = stream_request("m", vec![]);
    assert_eq!(request.model, "m");
    assert_eq!(request.stream, Some(true));
    assert_eq!(request.keep_alive, -1);
    let (chunks, errors, end) = read_stream(&ndjson_chat_body(&["Hel", "lo", " world"]));
    assert_eq!(chunks, vec!["Hel", "lo", " world"]);
    assert!(errors.is_empty());
    assert_eq!(end, Some(Ok("Hello world".to_string())));
}

#[test]
fn load_keeps_model_resident() {
    let request = load_request("m").unwrap();
    assert_eq!(request.model, "m");
    assert!(request.messages.is_empty());
    assert_eq!(request.stream, Some(false));
    assert_eq!(request.keep_alive, -1);
    assert_eq!(
        load_request("  "),
        Err(OllamaError::StreamError("Model name must not be empty".to_string()))
    );
    assert_eq!(unload_request("m").unwrap().keep_alive, 0);
    assert!(unload_request(" ").is_none());
}

#[test]
fn chat_stream_reports_error_line_without_done() {
    let (_, errors, end) = read_stream(&["{\"error\":\"model not found\"}".to_string()]);
    assert_eq!(errors, vec!["model not found"]);
    assert!(end.is_none());
}

#[test]
fn chat_stream_incomplete_without_done_line() {
    let (_, _, end) =
        read_stream(&["{\"message\":{\"content\":\"partial\"},\"done\":false}".to_string()]);
    assert_eq!(end, Some(Err(OllamaError::IncompleteStream)));
}

#[test]
fn chat_stream_without_any_text_is_an_empty_response() {
    let (_, _, end) = read_stream(&["".to_string(), "not json".to_string()]);
    assert_eq!(
        end,
        Some(Err(OllamaError::StreamError("empty response from Ollama".to_string())))
    );
}

#[test]
fn connection_refused_maps_to_not_running() {
    let refused = map_transport_error(true, Some(true), false, "refused".to_string());
    assert_eq!(refused, OllamaError::NotRunning);
    let timeout = map_transport_error(false, None, true, "late".to_string());
    assert_eq!(timeout, OllamaError::Timeout);
    let other = map_transport_error(false, None, false, "odd".to_string());
    assert_eq!(other, OllamaError::StreamError("odd".to_string()));
    assert!(!refused.user_message().is_empty());
    assert!(http_error("404 Not Found", "no such model").user_message().contains("404"));
}

#[test]
fn pick_available_exact_then_base_then_first() {
    let installed = vec!["gemma4:e4b".to_owned(), "llama3:latest".to_owned()];
    // Exact match.
    assert_eq!(
        pick_available(&[Some("llama3:latest".into())], &installed),
        Some("llama3:latest".to_owned())
    );
    // Base-name match (different tag).
    assert_eq!(
        pick_available(&[Some("gemma4:27b".into())], &installed),
        Some("gemma4:e4b".to_owned())
    );
    // No match falls back to first installed.
    assert_eq!(
        pick_available(&[Some("nope:1".into())], &installed),
        Some("gemma4:e4b".to_owned())
    );
    // Empty installed yields None.
    assert_eq!(pick_available(&[Some("x".into())], &[]), None);
}

#[test]
fn default_model_is_platform_specific() {
    assert_eq!(default_model(Platform::MacOs), DEFAULT_MODEL_MLX);
    assert_eq!(default_model(Platform::MacOs), "gemma4:e4b-mlx");
    assert_eq!(default_model(Platform::Linux), DEFAULT_MODEL);
    assert_eq!(default_model(Platform::Linux), "gemma4:e4b");
    assert_eq!(default_model(Platform::Other), "gemma4:e4b");
}

#[test]
fn macos_candidates_prefer_mlx_then_stock() {
    let candidates = candidate_models(None, None, Platform::MacOs);
    let names: Vec<&str> = candidates.iter().flatten().map(String::as_str).collect();
    assert!(names.contains(&DEFAULT_MODEL_MLX));
    assert!(names.contains(&DEFAULT_MODEL));
    let mlx = names.iter().position(|n| *n == DEFAULT_MODEL_MLX).expect("mlx");
    let stock = names.iter().position(|n| *n == DEFAULT_MODEL).expect("stock");
    assert!(mlx < stock, "MLX default should precede stock fallback");
    let candidates = candidate_models(None, None, Platform::Linux);
    let names: Vec<&str> = candidates.iter().flatten().map(String::as_str).collect();
    assert!(names.contains(&DEFAULT_MODEL));
    assert!(!names.contains(&DEFAULT_MODEL_MLX));
}

#[test]
fn settings_win_over_the_environment() {
    let installed = vec!["a:1".to_string(), "b:1".to_string()];
    assert_eq!(resolve_active_model(Some("b:1"), Some("a:1"), Platform::Linux, &installed), "b:1");
    assert_eq!(resolve_active_model(None, Some("a:1"), Platform::Linux, &installed), "a:1");
    assert_eq!(set_active_model("b:1", &installed), Ok("b:1".to_string()));
    assert!(set_active_model("zzz", &installed).is_err());
    assert!(set_active_model("  ", &installed).is_err());
}

#[test]
fn extract_tool_calls_parses_object_and_string_arguments() {
    let message = value(
        r#"{
            "role": "assistant",
            "content": "",
            "tool_calls": [
                {
                    "function": {
                        "name": "web_search",
                        "arguments": { "query": "git rebase" }
                    }
                },
                {
                    "function": {
                        "name": "web_search",
                        "arguments": "{\"query\":\"rust edition 2024\"}"
                    }
                }
            ]
        }"#,
    );
    let calls = extract_tool_calls(&message);
    assert_eq!(calls.len(), 2);
    assert_eq!(calls[0].name, "web_search");
    assert_eq!(string_arg_from(&calls[0].args, "query").as_deref(), Some("git rebase"));
    assert_eq!(string_arg_from(&calls[1].args, "query").as_deref(), Some("rust edition 2024"));
}

#[test]
fn extract_tool_calls_preserves_non_query_arguments() {
    let message = value(
        r#"{
            "role": "assistant",
            "tool_calls": [
                { "function": { "name": "run_command", "arguments": { "command": "git status" } } },
                { "function": { "name": "run_command", "arguments": "{\"command\":\"ls -la\"}" } },
                { "function": { "name": "run_command", "arguments": "pwd" } }
            ]
        }"#,
    );
    let calls = extract_tool_calls(&message);
    assert_eq!(calls.len(), 3);
    assert_eq!(string_arg_from(&calls[0].args, "command").as_deref(), Some("git status"));
    assert_eq!(string_arg_from(&calls[1].args, "command").as_deref(), Some("ls -la"));
    // Bare-string arguments are a common small-model shape.
    assert_eq!(string_arg_from(&calls[2].args, "command").as_deref(), Some("pwd"));
    // Reading a key the tool does not use must not invent a value.
    assert_eq!(string_arg_from(&calls[0].args, "query"), None);
}

#[test]
fn an_argument_in_a_string_is_read_from_what_the_string_holds() {
    let args = Json::Text("{\"q\":\"x\"}".to_string());
    let inner = value("{\"q\":\"x\"}");
    assert_eq!(string_arg_with(&args, Some(&inner), "q").as_deref(), Some("x"));
    assert_eq!(string_arg_with(&Json::Null, None, "q"), None);
}

#[test]
fn history_renders_alternating_turns_oldest_first() {
    let turns = vec![
        ChatTurn { user: "where are my movies?".into(), assistant: "In ~/Videos.".into() },
        ChatTurn { user: "how big?".into(), assistant: "24G.".into() },
    ];
    let msgs = history_messages(&turns);
    assert_eq!(msgs.len(), 4);
    assert_eq!(field(&msgs[0], "role"), "user");
    assert_eq!(field(&msgs[0], "content"), "where are my movies?");
    assert_eq!(field(&msgs[1], "role"), "assistant");
    assert_eq!(field(&msgs[1], "content"), "In ~/Videos.");
    assert_eq!(field(&msgs[3], "content"), "24G.");
}

#[test]
fn history_keeps_the_newest_turns_within_budget() {
    // Each turn is far over budget, so only the most recent survives.
    let turns: Vec<ChatTurn> = (0..6)
        .map(|i| ChatTurn {
            user: format!("question {i}"),
            assistant: "x".repeat(HISTORY_REPLY_CHARS),
        })
        .collect();
    let msgs = history_messages(&turns);
    assert!(!msgs.is_empty());
    // Newest turn must be present; oldest must not.
    assert!(msgs.iter().any(|m| contains_text(m, "question 5")), "newest turn dropped");
    assert!(!msgs.iter().any(|m| contains_text(m, "question 0")), "oldest turn should be dropped");
    // And never more than the turn cap.
    assert!(msgs.len() <= MAX_HISTORY_TURNS * 2);
}

#[test]
fn history_truncates_a_long_reply() {
    let turns = vec![ChatTurn { user: "q".into(), assistant: "y".repeat(HISTORY_REPLY_CHARS * 3) }];
    let msgs = history_messages(&turns);
    let reply = field(&msgs[1], "content");
    assert!(reply.chars().count() <= HISTORY_REPLY_CHARS + 1, "len {}", reply.chars().count());
    assert!(reply.ends_with('…'));
}

#[test]
fn empty_history_is_no_messages() {
    assert!(history_messages(&[]).is_empty());
}

#[test]
fn tools_loop_replays_history_to_the_model() {
    let history = history_messages(&[ChatTurn {
        user: "where are my movies?".into(),
        assistant: "In ~/Videos.".into(),
    }]);
    // No tools: exercises the short-circuit path, which must also carry history rather than
    // starting from a bare prompt.
    let (tool_loop, step) = ToolLoop::start(history, "how big?", &ToolSet::default());
    assert!(matches!(step, NextStep::Stream));
    let request = stream_request("m", tool_loop.messages);
    assert!(request.messages.iter().any(|m| contains_text(m, "where are my movies")));
    assert!(request.messages.iter().any(|m| contains_text(m, "In ~/Videos")));
    assert_eq!(field(request.messages.last().unwrap(), "content"), "how big?");
    let (_, _, end) = read_stream(&ndjson_chat_body(&["24G"]));
    assert_eq!(end, Some(Ok("24G".to_string())));
}

#[test]
fn tool_set_schemas_follow_enabled_tools() {
    assert!(ToolSet::default().is_empty());

    let search_only = ToolSet { web_search: true, read_exec: None };
    let names: Vec<String> = search_only
        .schemas()
        .iter()
        .map(|t| field(t.get("function").unwrap(), "name").to_owned())
        .collect();
    assert_eq!(names, vec!["web_search"]);

    let both = ToolSet { web_search: true, read_exec: Some("/tmp".to_string()) };
    assert_eq!(both.schemas().len(), 2);
    assert!(!both.is_empty());
}

#[test]
fn tools_loop_streams_when_model_skips_tools() {
    let tools = ToolSet { web_search: true, read_exec: None };
    let (mut tool_loop, step) = ToolLoop::start(vec![], "hi", &tools);
    assert!(matches!(step, NextStep::Ask));
    let response =
        value(r#"{"message":{"role":"assistant","content":"no search needed"},"done":true}"#);
    match tool_loop.on_response(&response, &tools) {
        NextStep::Answer(answer) => assert_eq!(answer, "no search needed"),
        other => panic!("expected an answer, got {other:?}"),
    }
}

#[test]
fn tools_loop_disabled_uses_plain_stream() {
    let (_, step) = ToolLoop::start(vec![], "hi", &ToolSet::default());
    assert!(matches!(step, NextStep::Stream));
    let (_, _, end) = read_stream(&ndjson_chat_body(&["ok"]));
    assert_eq!(end, Some(Ok("ok".to_string())));
}

#[test]
fn tools_loop_runs_read_only_command_then_streams() {
    let tools = ToolSet { web_search: false, read_exec: Some("/work".to_string()) };
    let (mut tool_loop, step) = ToolLoop::start(vec![], "why did my build fail?", &tools);
    assert!(matches!(step, NextStep::Ask));
    let response = value(
        r#"{"message":{"role":"assistant","content":"","tool_calls":[{"function":{"name":"run_command","arguments":{"command":"cat notes.txt"}}}]},"done":true}"#,
    );
    let calls = match tool_loop.on_response(&response, &tools) {
        NextStep::CallTools(calls) => calls,
        other => panic!("expected tool calls, got {other:?}"),
    };
    assert_eq!(calls, vec![ToolRequest::RunCommand { command: "cat notes.txt".to_string() }]);
    assert_eq!(calls[0].status().as_deref(), Some("Running: cat notes.txt"));
    assert_eq!(calls[0].ready_result(), None);
    let next = tool_loop.on_results(&["build failed".to_string()]);
    assert!(matches!(next, NextStep::Ask));
    let last = tool_loop.messages.last().unwrap();
    assert_eq!(field(last, "role"), "tool");
    assert_eq!(field(last, "content"), "build failed");
}

#[test]
fn tools_loop_reports_refusal_without_aborting() {
    let tools = ToolSet { web_search: false, read_exec: Some("/work".to_string()) };
    let (mut tool_loop, _) = ToolLoop::start(vec![], "delete everything", &tools);
    let response = value(
        r#"{"message":{"role":"assistant","content":"","tool_calls":[{"function":{"name":"run_command","arguments":{"command":"rm -rf /"}}}]},"done":true}"#,
    );
    assert!(matches!(tool_loop.on_response(&response, &tools), NextStep::CallTools(_)));
    let refusal = learnminal::read_exec::run_command_tool_result(
        "rm -rf /",
        None,
        "/work",
        &[],
        &learnminal::read_exec::RunOutcome::NotStarted,
        &[],
    );
    assert!(refusal.contains("run_command refused"));
    assert!(matches!(tool_loop.on_results(&[refusal]), NextStep::Ask));
    assert!(contains_text(tool_loop.messages.last().unwrap(), "run_command refused"));
}

#[test]
fn tools_loop_ignores_disabled_tool() {
    // Only web_search is on, so run_command must not execute.
    let tools = ToolSet { web_search: true, read_exec: None };
    let (mut tool_loop, _) = ToolLoop::start(vec![], "hi", &tools);
    let response = value(
        r#"{"message":{"role":"assistant","content":"","tool_calls":[{"function":{"name":"run_command","arguments":{"command":"ls"}}}]},"done":true}"#,
    );
    match tool_loop.on_response(&response, &tools) {
        NextStep::CallTools(calls) => {
            assert_eq!(calls.len(), 1);
            assert_eq!(calls[0].ready_result().as_deref(), Some("unknown tool: run_command"));
            assert_eq!(calls[0].status(), None);
        },
        other => panic!("expected tool calls, got {other:?}"),
    }
}

#[test]
fn tools_loop_streams_after_its_last_round() {
    let tools = ToolSet { web_search: true, read_exec: None };
    let (mut tool_loop, _) = ToolLoop::start(vec![], "hi", &tools);
    let response = value(
        r#"{"message":{"tool_calls":[{"function":{"name":"web_search","arguments":{"query":"x"}}}]}}"#,
    );
    for round in 0..MAX_TOOL_ROUNDS {
        assert!(matches!(tool_loop.on_response(&response, &tools), NextStep::CallTools(_)));
        let next = tool_loop.on_results(&["nothing".to_string()]);
        if round + 1 < MAX_TOOL_ROUNDS {
            assert!(matches!(next, NextStep::Ask));
        } else {
            assert!(matches!(next, NextStep::Stream));
        }
    }
}

#[test]
fn tools_loop_reports_an_error_and_retries_an_empty_answer() {
    let tools = ToolSet { web_search: true, read_exec: None };
    let (mut tool_loop, _) = ToolLoop::start(vec![], "hi", &tools);
    match tool_loop.on_response(&value(r#"{"error":"boom"}"#), &tools) {
        NextStep::Report(message) => assert_eq!(message, "boom"),
        other => panic!("expected a report, got {other:?}"),
    }
    assert!(matches!(tool_loop.on_response(&value("{}"), &tools), NextStep::Stream));
}

#[test]
fn parse_embedded_json_handles_fences_and_prose() {
    assert_eq!(parse_embedded_json("```json\n{\"a\":1}\n```"), parse("{\"a\": 1}"));
    assert_eq!(parse_embedded_json("here you go: [1,2] cheers"), parse("[1, 2]"));
    assert_eq!(parse_embedded_json("no json here"), None);
    assert_eq!(parse_embedded_json("   "), None);
    assert!(parse("[1, 2]").is_some());
    assert_eq!(strip_fences("```json\nx\n```"), "x");
}

#[test]
fn the_first_embedded_value_is_taken() {
    assert_eq!(parse_embedded_json(r#"{"a":1} or {"b":2}"#), parse(r#"{"a":1}"#));
    assert_eq!(parse_embedded_json(r#"see [this]: {"b":[2]} or [3]"#), parse(r#"{"b":[2]}"#));
    assert_eq!(parse_embedded_json(r#"{broken {"c":{}} }"#), parse(r#"{"c":{}}"#));
    assert_eq!(parse_embedded_json("{ [ } ]"), None);
    assert_eq!(parse_embedded_json("42"), None);
}

#[test]
fn call_tool_once_returns_tool_arguments() {
    let request = tool_request("m", "prompt", actions_tool_schema());
    assert_eq!(request.model, "m");
    assert_eq!(request.stream, Some(false));
    assert_eq!(field(&request.messages[0], "content"), "prompt");
    assert_eq!(request.tools.as_ref().unwrap()[0], actions_tool_schema());
    let response = value(
        r#"{"message":{"role":"assistant","tool_calls":[{"function":{"name":"list_actions","arguments":{"actions":[{"command":"ls -l","goal":"show as a list"}]}}}]}}"#,
    );
    let args = tool_arguments(&response, "list_actions").unwrap().expect("tool arguments");
    assert_eq!(args, value(r#"{"actions": [{"command": "ls -l", "goal": "show as a list"}]}"#));
}

#[test]
fn call_tool_once_falls_back_to_json_content() {
    let response = value(
        r#"{"message":{"role":"assistant","content":"```json\n{\"actions\":[{\"command\":\"pwd\",\"goal\":\"print cwd\"}]}\n```"}}"#,
    );
    let args = tool_arguments(&response, "list_actions").unwrap().expect("content fallback");
    assert_eq!(args, value(r#"{"actions": [{"command": "pwd", "goal": "print cwd"}]}"#));
}

#[test]
fn call_tool_once_ignores_other_tools_and_plain_prose() {
    let response = value(
        r#"{"message":{"role":"assistant","tool_calls":[{"function":{"name":"web_search","arguments":{"query":"x"}}}],"content":"sorry"}}"#,
    );
    assert_eq!(tool_arguments(&response, "list_actions"), Ok(None));
    let message = response.get("message").unwrap();
    assert_eq!(tool_call_arguments(message, "list_actions"), None);
    assert!(tool_call_arguments(message, "web_search").is_some());
    assert_eq!(message_content(message), "sorry");
    assert_eq!(
        tool_arguments(&value(r#"{"error":"busy"}"#), "list_actions"),
        Err(OllamaError::StreamError("busy".to_string()))
    );
}

#[test]
fn schemas_are_what_the_server_expects() {
    assert_eq!(
        web_search_tool_schema(),
        value(
            r#"{
                "type": "function",
                "function": {
                    "name": "web_search",
                    "description": "Search the live web for up-to-date facts, versions, changelogs, or docs not present in the local Reference.",
                    "parameters": {
                        "type": "object",
                        "required": ["query"],
                        "properties": {
                            "query": { "type": "string", "description": "Search query string" }
                        }
                    }
                }
            }"#
        )
    );
    let command = run_command_tool_schema();
    let function = command.get("function").unwrap();
    assert_eq!(field(function, "name"), "run_command");
    assert!(field(function, "description").ends_with("run one command per call."));
    let actions = actions_tool_schema();
    assert_eq!(field(actions.get("function").unwrap(), "name"), "list_actions");
    assert_eq!(field(&actions, "type"), "function");
}

#[test]
fn requests_go_to_the_chat_and_tags_endpoints() {
    assert_eq!(chat_url("http://h:1/"), "http://h:1/api/chat");
    assert_eq!(tags_url("http://h:1"), "http://h:1/api/tags");
    let round = round_request("m", vec![], None);
    assert_eq!(round.tools, None);
    assert_eq!(round.stream, Some(false));
}

#[test]
fn stream_values_without_text_pass_nothing_on() {
    let read = read_stream_value(Some(&value(r#"{"message":{"content":""},"done":true}"#)));
    assert_eq!(read.chunk, None);
    assert!(read.done);
    let read = read_stream_value(None);
    assert!(!read.done && read.error.is_none() && read.chunk.is_none());
}
