use learnminal::ipc_client::{
    checked_url, http_error, map_transport_error, needs_refresh, read_sse_line, request_url,
    sse_data_payload, Endpoint, IpcError, SseEvent, SseLine, SseStep, SseStream, DEFAULT_BASE_URL,
};
use learnminal::types::SystemInfo;

/// Reads an event of a stream.
fn decode(data: &str) -> SseEvent {
    let value: serde_json::Value = serde_json::from_str(data).unwrap();
    let done = value.get("done").and_then(|v| v.as_bool());
    SseEvent {
        error: value
            .get("error")
            .and_then(|v| v.as_str())
            .zip(done)
            .map(|(message, done)| (message.to_string(), done)),
        is_chunk: value.get("text").is_some() && value.get("chunk_index").is_some(),
        is_done: value.get("structured").is_some() && done == Some(true),
    }
}

fn run(lines: &[&str], chat: bool) -> (Vec<SseStep>, Result<(), IpcError>) {
    let mut stream = SseStream::new(chat);
    let mut steps = Vec::new();
    for line in lines {
        match read_sse_line(line) {
            SseLine::Skip => {},
            SseLine::End => break,
            SseLine::Event(data) => {
                let step = stream.on_event(&decode(&data));
                let stop = matches!(step, SseStep::Report(_));
                steps.push(step);
                if stop {
                    return (steps, Ok(()));
                }
            },
        }
    }
    (steps, stream.finish())
}

#[test]
fn successful_stream_invokes_callbacks_in_order() {
    let body = "data: {\"text\": \"hello\", \"chunk_index\": 0}\n\n\
                data: {\"structured\": {\"command_name\": \"git\", \"flags_explained\": [], \
                \"general_utility\": \"g\", \"contextual_usage\": \"c\", \"error_fix\": null, \
                \"similar_commands\": [], \"tool_calls_made\": []}, \"done\": true}\n\n\
                data: [DONE]\n\n";
    let lines: Vec<&str> = body.lines().collect();
    let (steps, end) = run(&lines, false);
    assert_eq!(steps, vec![SseStep::Chunk, SseStep::Done]);
    assert_eq!(end, Ok(()));
}

#[test]
fn every_chunk_comes_before_the_final_reply() {
    for count in 1..32usize {
        let mut lines: Vec<String> = (0..count)
            .map(|i| format!("data: {{\"text\": \"tok{i}\", \"chunk_index\": {i}}}"))
            .collect();
        lines.push("data: {\"structured\": {}, \"done\": true}".to_string());
        lines.push("data: [DONE]".to_string());
        let borrowed: Vec<&str> = lines.iter().map(String::as_str).collect();
        let (steps, end) = run(&borrowed, false);
        assert_eq!(end, Ok(()));
        assert_eq!(steps.len(), count + 1);
        assert_eq!(steps[count], SseStep::Done);
        assert!(steps[..count].iter().all(|s| *s == SseStep::Chunk));
    }
}

#[test]
fn connection_refused_returns_backend_not_running() {
    assert_eq!(
        map_transport_error(true, Some(true), false, "x".to_string()),
        IpcError::BackendNotRunning
    );
    assert_eq!(
        map_transport_error(true, None, false, "Connection refused (os error 111)".to_string()),
        IpcError::BackendNotRunning
    );
    assert_eq!(map_transport_error(false, None, true, "x".to_string()), IpcError::Timeout);
    assert_eq!(
        map_transport_error(false, None, false, "x".to_string()),
        IpcError::StreamError("x".to_string())
    );
}

#[test]
fn error_event_does_not_call_on_done() {
    let body = "data: {\"error\": \"Ollama not running\", \"done\": true}\n\ndata: [DONE]\n\n";
    let lines: Vec<&str> = body.lines().collect();
    let (steps, end) = run(&lines, false);
    assert_eq!(steps, vec![SseStep::Report("Ollama not running".to_string())]);
    assert_eq!(end, Ok(()));
}

#[test]
fn a_chat_goes_on_after_an_error_that_does_not_end_it() {
    let (steps, end) = run(
        &[
            "data: {\"error\":\"retrying\",\"done\":false}",
            "data: {\"text\": \"a\", \"chunk_index\": 0}",
        ],
        true,
    );
    assert_eq!(steps, vec![SseStep::Ignore, SseStep::Chunk]);
    assert_eq!(end, Err(IpcError::IncompleteStream));
    let (_, end) = run(&["data: [DONE]"], true);
    assert_eq!(end, Err(IpcError::StreamError("empty SSE stream".to_string())));
}

#[test]
fn requests_go_to_valid_addresses_only() {
    assert_eq!(
        request_url(DEFAULT_BASE_URL, Endpoint::Explain),
        Ok(format!("{DEFAULT_BASE_URL}/explain"))
    );
    assert_eq!(
        request_url("http://h:1//", Endpoint::SystemInfo { refresh: true }),
        Ok("http://h:1/system-info?refresh=true".to_string())
    );
    let invalid = Err(IpcError::StreamError("invalid URL".to_string()));
    assert_eq!(request_url("no scheme", Endpoint::Chat), invalid);
    assert_eq!(checked_url("anything".to_string(), false), invalid);
    assert_eq!(http_error("500"), IpcError::StreamError("HTTP 500".to_string()));
}

#[test]
fn event_payloads_follow_the_data_field() {
    assert_eq!(sse_data_payload("data: x "), Some("x"));
    assert_eq!(sse_data_payload("data:x"), Some("x"));
    assert_eq!(sse_data_payload("data:   "), None);
    assert_eq!(sse_data_payload("event: x"), None);
}

#[test]
fn incomplete_system_information_is_asked_for_once_more() {
    let mut info = SystemInfo {
        os: String::new(),
        arch: String::new(),
        shell: String::new(),
        package_managers: Vec::new(),
        installed_packages: Vec::new(),
        installed_packages_total: None,
        installed_tools: Vec::new(),
        collected_at: Some(1),
        collected_at_display: None,
    };
    assert!(needs_refresh(false, &info));
    assert!(!needs_refresh(true, &info));
    info.os = "Linux".to_string();
    assert!(!needs_refresh(false, &info));
}
