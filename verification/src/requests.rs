//! What is sent to the model server: the schemas of the tools, and the bodies of requests.

use crate::actions;
use crate::json;
use crate::json::{Json, JsonView};
use crate::ollama;
use crate::ollama::{OllamaError, Tool, ToolSet};
use crate::text;
use vstd::prelude::*;
use vstd::string::*;

verus! {

broadcast use vstd::string::group_string_axioms;

/// Keep the model in memory until it is dropped explicitly.
pub const KEEP_ALIVE_FOREVER: i64 = -1;

/// Drop the model from memory.
pub const KEEP_ALIVE_NONE: i64 = 0;

// ── Schemas ──────────────────────────────────────────────────────────────────

/// A parameter that is a string.
pub open spec fn string_schema(description: Seq<char>) -> JsonView {
    JsonView::Object(
        seq![
            ("description"@, JsonView::Text(description)),
            ("type"@, JsonView::Text("string"@)),
        ],
    )
}

/// An object with the given properties, of which some are required.
pub open spec fn object_schema(
    properties: Seq<(Seq<char>, JsonView)>,
    required: Seq<JsonView>,
) -> JsonView {
    JsonView::Object(
        seq![
            ("properties"@, JsonView::Object(properties)),
            ("required"@, JsonView::List(required)),
            ("type"@, JsonView::Text("object"@)),
        ],
    )
}

/// A tool: its name, what it is for, and its parameters.
pub open spec fn tool_schema(
    name: Seq<char>,
    description: Seq<char>,
    parameters: JsonView,
) -> JsonView {
    JsonView::Object(
        seq![
            (
                "function"@,
                JsonView::Object(
                    seq![
                        ("description"@, JsonView::Text(description)),
                        ("name"@, JsonView::Text(name)),
                        ("parameters"@, parameters),
                    ],
                ),
            ),
            ("type"@, JsonView::Text("function"@)),
        ],
    )
}

/// A tool with one parameter, a string that is required.
pub open spec fn one_string_tool(
    name: Seq<char>,
    description: Seq<char>,
    parameter: Seq<char>,
    about: Seq<char>,
) -> JsonView {
    tool_schema(
        name,
        description,
        object_schema(
            seq![(parameter, string_schema(about))],
            seq![JsonView::Text(parameter)],
        ),
    )
}

/// The schema of a tool that the model may call while it answers.
pub open spec fn schema_of(tool: Tool) -> JsonView {
    match tool {
        Tool::WebSearch => one_string_tool(
            "web_search"@,
            "Search the live web for up-to-date facts, versions, changelogs, or docs not present in the local Reference."@,
            "query"@,
            "Search query string"@,
        ),
        Tool::RunCommand => one_string_tool(
            "run_command"@,
            "Run a single read-only shell command to inspect the user's machine (files, git state, installed versions, environment). Only inspection commands are permitted; anything that writes, deletes, installs, or connects to the network is refused. No pipes, redirects, or command chaining — run one command per call."@,
            "command"@,
            "One command with its arguments, e.g. \"git status --short\" or \"ls -la src\""@,
        ),
    }
}

/// The schemas of `tools`.
pub open spec fn schemas_of(tools: Seq<Tool>) -> Seq<JsonView> {
    Seq::new(tools.len(), |i: int| schema_of(tools[i]))
}

/// The schema of the tool by which the model registers the commands of its own answer.
pub open spec fn actions_schema() -> JsonView {
    let item = object_schema(
        seq![
            (
                "command"@,
                string_schema("A single-line shell command the user can run as-is"@),
            ),
            (
                "goal"@,
                string_schema("A 2-4 word lowercase phrase describing what the command achieves"@),
            ),
        ],
        seq![JsonView::Text("command"@), JsonView::Text("goal"@)],
    );
    let list = JsonView::Object(
        seq![
            (
                "description"@,
                JsonView::Text(
                    "Up to 5 commands, most useful first. Empty if the answer has none."@,
                ),
            ),
            ("items"@, item),
            ("type"@, JsonView::Text("array"@)),
        ],
    );
    tool_schema(
        actions::TOOL_NAME@,
        "Register the runnable shell commands contained in an answer, each with a short goal."@,
        object_schema(seq![("actions"@, list)], seq![JsonView::Text("actions"@)]),
    )
}

fn new_string_schema(description: &str) -> (r: Json)
    ensures
        r@ == string_schema(description@),
{
    let mut members: Vec<(String, Json)> = Vec::new();
    json::push_member(&mut members, "description", json::text_of(description));
    json::push_member(&mut members, "type", json::text_of("string"));
    assert(json::member_views(members@) =~= string_schema(description@)->Object_0);
    json::object_of(members)
}

fn new_object_schema(properties: Vec<(String, Json)>, required: Vec<Json>) -> (r: Json)
    ensures
        r@ == object_schema(json::member_views(properties@), json::json_views(required@)),
{
    let ghost inner = json::member_views(properties@);
    let ghost names = json::json_views(required@);
    let mut members: Vec<(String, Json)> = Vec::new();
    json::push_member(&mut members, "properties", json::object_of(properties));
    json::push_member(&mut members, "required", json::list_of(required));
    json::push_member(&mut members, "type", json::text_of("object"));
    assert(json::member_views(members@) =~= object_schema(inner, names)->Object_0);
    json::object_of(members)
}

fn new_tool_schema(name: &str, description: &str, parameters: Json) -> (r: Json)
    ensures
        r@ == tool_schema(name@, description@, parameters@),
{
    let ghost inner = parameters@;
    let mut function: Vec<(String, Json)> = Vec::new();
    json::push_member(&mut function, "description", json::text_of(description));
    json::push_member(&mut function, "name", json::text_of(name));
    json::push_member(&mut function, "parameters", parameters);
    assert(json::member_views(function@) =~= seq![
        ("description"@, JsonView::Text(description@)),
        ("name"@, JsonView::Text(name@)),
        ("parameters"@, inner),
    ]);
    let mut members: Vec<(String, Json)> = Vec::new();
    json::push_member(&mut members, "function", json::object_of(function));
    json::push_member(&mut members, "type", json::text_of("function"));
    assert(json::member_views(members@) =~= tool_schema(name@, description@, inner)->Object_0);
    json::object_of(members)
}

fn new_one_string_tool(name: &str, description: &str, parameter: &str, about: &str) -> (r: Json)
    ensures
        r@ == one_string_tool(name@, description@, parameter@, about@),
{
    let mut properties: Vec<(String, Json)> = Vec::new();
    json::push_member(&mut properties, parameter, new_string_schema(about));
    let mut required: Vec<Json> = Vec::new();
    json::push_json(&mut required, json::text_of(parameter));
    assert(json::member_views(properties@) =~= seq![(parameter@, string_schema(about@))]);
    assert(json::json_views(required@) =~= seq![JsonView::Text(parameter@)]);
    new_tool_schema(name, description, new_object_schema(properties, required))
}

/// The schema of the tool that searches the web.
pub fn web_search_tool_schema() -> (r: Json)
    ensures
        r@ == schema_of(Tool::WebSearch),
{
    new_one_string_tool(
        "web_search",
        "Search the live web for up-to-date facts, versions, changelogs, or docs not present in the local Reference.",
        "query",
        "Search query string",
    )
}

/// The schema of the tool that runs a read-only command.
pub fn run_command_tool_schema() -> (r: Json)
    ensures
        r@ == schema_of(Tool::RunCommand),
{
    new_one_string_tool(
        "run_command",
        "Run a single read-only shell command to inspect the user's machine (files, git state, installed versions, environment). Only inspection commands are permitted; anything that writes, deletes, installs, or connects to the network is refused. No pipes, redirects, or command chaining — run one command per call.",
        "command",
        "One command with its arguments, e.g. \"git status --short\" or \"ls -la src\"",
    )
}

/// The schema of the tool by which the model registers the commands of its own answer.
pub fn actions_tool_schema() -> (r: Json)
    ensures
        r@ == actions_schema(),
{
    let mut fields: Vec<(String, Json)> = Vec::new();
    json::push_member(
        &mut fields,
        "command",
        new_string_schema("A single-line shell command the user can run as-is"),
    );
    json::push_member(
        &mut fields,
        "goal",
        new_string_schema("A 2-4 word lowercase phrase describing what the command achieves"),
    );
    let mut names: Vec<Json> = Vec::new();
    json::push_json(&mut names, json::text_of("command"));
    json::push_json(&mut names, json::text_of("goal"));
    assert(json::member_views(fields@) =~= seq![
        ("command"@, string_schema("A single-line shell command the user can run as-is"@)),
        (
            "goal"@,
            string_schema("A 2-4 word lowercase phrase describing what the command achieves"@),
        ),
    ]);
    assert(json::json_views(names@) =~= seq![
        JsonView::Text("command"@),
        JsonView::Text("goal"@),
    ]);
    let item = new_object_schema(fields, names);
    let ghost inner = item@;
    let mut list: Vec<(String, Json)> = Vec::new();
    json::push_member(
        &mut list,
        "description",
        json::text_of("Up to 5 commands, most useful first. Empty if the answer has none."),
    );
    json::push_member(&mut list, "items", item);
    json::push_member(&mut list, "type", json::text_of("array"));
    assert(json::member_views(list@) =~= seq![
        (
            "description"@,
            JsonView::Text("Up to 5 commands, most useful first. Empty if the answer has none."@),
        ),
        ("items"@, inner),
        ("type"@, JsonView::Text("array"@)),
    ]);
    let list = json::object_of(list);
    let ghost of = list@;
    let mut properties: Vec<(String, Json)> = Vec::new();
    json::push_member(&mut properties, "actions", list);
    let mut required: Vec<Json> = Vec::new();
    json::push_json(&mut required, json::text_of("actions"));
    assert(json::member_views(properties@) =~= seq![("actions"@, of)]);
    assert(json::json_views(required@) =~= seq![JsonView::Text("actions"@)]);
    new_tool_schema(
        actions::TOOL_NAME,
        "Register the runnable shell commands contained in an answer, each with a short goal.",
        new_object_schema(properties, required),
    )
}

impl ToolSet {
    /// The schemas of the tools that are offered.
    pub fn schemas(&self) -> (r: Vec<Json>)
        ensures
            json::json_views(r@) == schemas_of(self.offered()),
    {
        let mut out: Vec<Json> = Vec::new();
        if self.web_search {
            json::push_json(&mut out, web_search_tool_schema());
        }
        if self.read_exec.is_some() {
            json::push_json(&mut out, run_command_tool_schema());
        }
        assert(json::json_views(out@) =~= schemas_of(self.offered()));
        out
    }
}

// ── Requests ─────────────────────────────────────────────────────────────────

/// The body of a chat request.
#[derive(Debug, PartialEq, Eq)]
pub struct ChatRequest {
    pub model: String,
    pub messages: Vec<Json>,
    /// Whether the answer comes in pieces; left to the server where it is `None`.
    pub stream: Option<bool>,
    pub keep_alive: i64,
    /// The tools offered; no such field goes with the request where it is `None`.
    pub tools: Option<Vec<Json>>,
}

/// What a [`ChatRequest`] asks.
pub ghost struct ChatRequestView {
    pub model: Seq<char>,
    pub messages: Seq<JsonView>,
    pub stream: Option<bool>,
    pub keep_alive: i64,
    pub tools: Option<Seq<JsonView>>,
}

impl View for ChatRequest {
    type V = ChatRequestView;

    open spec fn view(&self) -> ChatRequestView {
        ChatRequestView {
            model: self.model@,
            messages: json::json_views(self.messages@),
            stream: self.stream,
            keep_alive: self.keep_alive,
            tools: match self.tools {
                Some(tools) => Some(json::json_views(tools@)),
                None => None,
            },
        }
    }
}

/// Where chat requests go.
pub fn chat_url(base_url: &str) -> (r: String)
    ensures
        r@ == text::trimmed_end(base_url@, text::CharSet::Just('/')) + "/api/chat"@,
{
    text::concat(text::trim_end_of(base_url, text::CharSet::Just('/')), "/api/chat")
}

/// Where the list of installed models is.
pub fn tags_url(base_url: &str) -> (r: String)
    ensures
        r@ == text::trimmed_end(base_url@, text::CharSet::Just('/')) + "/api/tags"@,
{
    text::concat(text::trim_end_of(base_url, text::CharSet::Just('/')), "/api/tags")
}

/// A request for a streamed answer, without tools.
pub fn stream_request(model: &str, messages: Vec<Json>) -> (r: ChatRequest)
    ensures
        r@ == (ChatRequestView {
            model: model@,
            messages: json::json_views(messages@),
            stream: Some(true),
            keep_alive: KEEP_ALIVE_FOREVER,
            tools: None,
        }),
{
    ChatRequest {
        model: model.to_owned(),
        messages,
        stream: Some(true),
        keep_alive: KEEP_ALIVE_FOREVER,
        tools: None,
    }
}

/// A request for a whole answer, with the tools that the model may call.
pub fn round_request(model: &str, messages: Vec<Json>, tools: Option<Vec<Json>>) -> (r: ChatRequest)
    ensures
        r@ == (ChatRequestView {
            model: model@,
            messages: json::json_views(messages@),
            stream: Some(false),
            keep_alive: KEEP_ALIVE_FOREVER,
            tools: match tools {
                Some(tools) => Some(json::json_views(tools@)),
                None => None,
            },
        }),
{
    ChatRequest {
        model: model.to_owned(),
        messages,
        stream: Some(false),
        keep_alive: KEEP_ALIVE_FOREVER,
        tools,
    }
}

/// A request that offers one tool for one prompt.
pub fn tool_request(model: &str, prompt: &str, tool: Json) -> (r: ChatRequest)
    ensures
        r@ == (ChatRequestView {
            model: model@,
            messages: seq![ollama::said("user"@, prompt@)],
            stream: Some(false),
            keep_alive: KEEP_ALIVE_FOREVER,
            tools: Some(seq![tool@]),
        }),
{
    let ghost offered = tool@;
    let mut messages: Vec<Json> = Vec::new();
    json::push_json(&mut messages, ollama::chat_message("user", prompt));
    let mut tools: Vec<Json> = Vec::new();
    json::push_json(&mut tools, tool);
    assert(json::json_views(messages@) =~= seq![ollama::said("user"@, prompt@)]);
    assert(json::json_views(tools@) =~= seq![offered]);
    round_request(model, messages, Some(tools))
}

/// A request that loads a model and keeps it in memory. A blank name is an error.
pub fn load_request(model: &str) -> (r: Result<ChatRequest, OllamaError>)
    ensures
        match r {
            Ok(request) => text::trimmed(model@).len() > 0 && request@ == (ChatRequestView {
                model: model@,
                messages: seq![],
                stream: Some(false),
                keep_alive: KEEP_ALIVE_FOREVER,
                tools: None,
            }),
            Err(e) => text::trimmed(model@).len() == 0 && e@ == ollama::Failure::StreamError(
                "Model name must not be empty"@,
            ),
        },
{
    if text::trim(model).unicode_len() == 0 {
        return Err(OllamaError::StreamError("Model name must not be empty".to_owned()));
    }
    let messages: Vec<Json> = Vec::new();
    assert(json::json_views(messages@) =~= seq![]);
    Ok(round_request(model, messages, None))
}

/// A request that drops a model from memory: none for a blank name.
pub fn unload_request(model: &str) -> (r: Option<ChatRequest>)
    ensures
        match r {
            Some(request) => text::trimmed(model@).len() > 0 && request@ == (ChatRequestView {
                model: model@,
                messages: seq![],
                stream: None,
                keep_alive: KEEP_ALIVE_NONE,
                tools: None,
            }),
            None => text::trimmed(model@).len() == 0,
        },
{
    if text::trim(model).unicode_len() == 0 {
        return None;
    }
    let messages: Vec<Json> = Vec::new();
    assert(json::json_views(messages@) =~= seq![]);
    Some(
        ChatRequest {
            model: model.to_owned(),
            messages,
            stream: None,
            keep_alive: KEEP_ALIVE_NONE,
            tools: None,
        },
    )
}

/// Whether a tool is offered as a function under `name` that takes one parameter of `kind`, which
/// must be given.
pub open spec fn offers(
    schema: JsonView,
    name: Seq<char>,
    parameter: Seq<char>,
    kind: Seq<char>,
) -> bool {
    &&& schema.text_at("type"@) == Some("function"@)
    &&& schema.get("function"@) matches Some(f)
    &&& f.text_at("name"@) == Some(name)
    &&& f.get("parameters"@) matches Some(p)
    &&& p.text_at("type"@) == Some("object"@)
    &&& p.get("required"@) == Some(JsonView::List(seq![JsonView::Text(parameter)]))
    &&& p.get("properties"@) matches Some(list)
    &&& list.get(parameter) matches Some(about)
    &&& about.text_at("type"@) == Some(kind)
}

proof fn lemma_tool_schema(
    name: Seq<char>,
    description: Seq<char>,
    parameter: Seq<char>,
    about: JsonView,
    kind: Seq<char>,
)
    requires
        about.text_at("type"@) == Some(kind),
    ensures
        offers(
            tool_schema(
                name,
                description,
                object_schema(seq![(parameter, about)], seq![JsonView::Text(parameter)]),
            ),
            name,
            parameter,
            kind,
        ),
{
    reveal_strlit("function");
    reveal_strlit("type");
    reveal_strlit("description");
    reveal_strlit("name");
    reveal_strlit("parameters");
    reveal_strlit("properties");
    reveal_strlit("required");
    assert("function"@.len() == 8 && "type"@.len() == 4 && "description"@.len() == 11
        && "name"@.len() == 4 && "parameters"@.len() == 10 && "properties"@.len() == 10
        && "required"@.len() == 8);
    let p = object_schema(seq![(parameter, about)], seq![JsonView::Text(parameter)]);
    let t = tool_schema(name, description, p);
    let tm = t->Object_0;
    json::lemma_lookup(tm, 0);
    json::lemma_lookup(tm, 1);
    let fm = tm[0].1->Object_0;
    json::lemma_lookup(fm, 1);
    json::lemma_lookup(fm, 2);
    let pm = p->Object_0;
    json::lemma_lookup(pm, 0);
    json::lemma_lookup(pm, 1);
    json::lemma_lookup(pm, 2);
    json::lemma_lookup(seq![(parameter, about)], 0);
}

proof fn lemma_string_schema(description: Seq<char>)
    ensures
        string_schema(description).text_at("type"@) == Some("string"@),
        string_schema(description).text_at("description"@) == Some(description),
{
    reveal_strlit("type");
    reveal_strlit("description");
    assert("type"@.len() == 4 && "description"@.len() == 11);
    let m = string_schema(description)->Object_0;
    json::lemma_lookup(m, 0);
    json::lemma_lookup(m, 1);
}

/// The tools are offered under the names that calls of them are known by, each with the parameter
/// that is read from a call.
pub proof fn law_tools_are_offered(tools: Seq<Tool>, i: int)
    requires
        0 <= i < tools.len(),
    ensures
        schemas_of(tools).len() == tools.len(),
        tools[i] == Tool::WebSearch ==> offers(
            schemas_of(tools)[i],
            "web_search"@,
            "query"@,
            "string"@,
        ),
        tools[i] == Tool::RunCommand ==> offers(
            schemas_of(tools)[i],
            "run_command"@,
            "command"@,
            "string"@,
        ),
        offers(actions_schema(), "list_actions"@, "actions"@, "array"@),
{
    let schema = schemas_of(tools)[i];
    match tools[i] {
        Tool::WebSearch => {
            let about = "Search query string"@;
            lemma_string_schema(about);
            lemma_tool_schema(
                "web_search"@,
                schema->Object_0[0].1->Object_0[0].1->Text_0,
                "query"@,
                string_schema(about),
                "string"@,
            );
        },
        Tool::RunCommand => {
            let about = "One command with its arguments, e.g. \"git status --short\" or \"ls -la src\""@;
            lemma_string_schema(about);
            lemma_tool_schema(
                "run_command"@,
                schema->Object_0[0].1->Object_0[0].1->Text_0,
                "command"@,
                string_schema(about),
                "string"@,
            );
        },
    }
    let f = actions_schema()->Object_0[0].1->Object_0;
    let list = f[2].1->Object_0[0].1->Object_0[0].1;
    reveal_strlit("description");
    reveal_strlit("items");
    reveal_strlit("type");
    assert("description"@.len() == 11 && "items"@.len() == 5 && "type"@.len() == 4);
    json::lemma_lookup(list->Object_0, 2);
    lemma_tool_schema("list_actions"@, f[0].1->Text_0, "actions"@, list, "array"@);
}

} // verus!
