//! What is said to the Ollama daemon, and what its answers mean.
//!
//! Requests are sent and replies are read elsewhere; the messages, the choice of a
//! model, the course of a streamed reply and that of a chat with tools are decided
//! here.
use vstd::prelude::*;
use vstd::string::*;

use crate::json;
use crate::json::{Json, JsonView};
use crate::read_exec;
use crate::text;
use crate::text::CharSet;
use crate::types;
use crate::types::Platform;

verus! {

broadcast use vstd::string::group_string_axioms;

/// Built-in default model when nothing else is configured/installed.
pub const DEFAULT_MODEL: &'static str = "gemma4:e4b";

/// macOS MLX-optimized variant of [`DEFAULT_MODEL`].
pub const DEFAULT_MODEL_MLX: &'static str = "gemma4:e4b-mlx";

/// Where the daemon listens by default.
pub const DEFAULT_HOST: &'static str = "http://127.0.0.1:11434";

/// Max non-streaming tool rounds before forcing a final streamed answer.
///
/// Environment inspection is sequential (`pwd` → `ls` → `cat`), and searching
/// for something whose location is unknown takes several more probes, so this
/// sits above the length of a real investigation rather than below it.
pub const MAX_TOOL_ROUNDS: usize = 8;

/// Turns kept for replay. Enough for a short exchange, bounded so the model's
/// context is not consumed by history instead of the actual question.
pub const MAX_HISTORY_TURNS: usize = 4;

/// Total character budget for replayed history.
pub const HISTORY_BUDGET_CHARS: usize = 2_000;

/// Per-reply cap, so one long answer cannot crowd out earlier turns.
pub const HISTORY_REPLY_CHARS: usize = 500;

/// The default model of a platform.
pub open spec fn platform_model(platform: Platform) -> Seq<char> {
    if platform == Platform::MacOs {
        DEFAULT_MODEL_MLX@
    } else {
        DEFAULT_MODEL@
    }
}

/// Platform default: MLX tag on macOS, standard tag elsewhere.
pub fn default_model(platform: Platform) -> (r: &'static str)
    ensures
        r@ == platform_model(platform),
{
    if platform == Platform::MacOs {
        DEFAULT_MODEL_MLX
    } else {
        DEFAULT_MODEL
    }
}

// ── Tools ────────────────────────────────────────────────────────────────────

/// Tools offered to the model for one request.
///
/// Enablement and scope travel together: `read_exec` carries the directory the
/// `run_command` tool is confined to.
#[derive(Debug, Clone, PartialEq, Eq)]
pub struct ToolSet {
    pub web_search: bool,
    /// `Some(root)` enables `run_command`, restricted to that directory.
    pub read_exec: Option<String>,
}

impl Default for ToolSet {
    fn default() -> (r: Self)
        ensures
            !r.web_search,
            r.read_exec is None,
    {
        ToolSet { web_search: false, read_exec: None }
    }
}

/// A tool that the model may call.
#[derive(Debug, Clone, Copy, PartialEq, Eq, Structural)]
pub enum Tool {
    WebSearch,
    RunCommand,
}

impl ToolSet {
    /// The tools that are offered, in their order.
    pub open spec fn offered(self) -> Seq<Tool> {
        (if self.web_search {
            seq![Tool::WebSearch]
        } else {
            seq![]
        }) + (if self.read_exec is Some {
            seq![Tool::RunCommand]
        } else {
            seq![]
        })
    }

    /// Whether no tool is available, in which case the plain stream is used.
    pub fn is_empty(&self) -> (r: bool)
        ensures
            r == (self.offered().len() == 0),
    {
        !self.web_search && self.read_exec.is_none()
    }
}

// ── Errors and hosts ─────────────────────────────────────────────────────────

#[derive(Debug, Clone, PartialEq, Eq)]
pub enum OllamaError {
    /// Connection refused — the daemon is not running.
    NotRunning,
    Timeout,
    StreamError(String),
    /// Chunks arrived but the terminating `done` line never did.
    IncompleteStream,
}

/// What an [`OllamaError`] says.
pub ghost enum Failure {
    NotRunning,
    Timeout,
    StreamError(Seq<char>),
    IncompleteStream,
}

impl View for OllamaError {
    type V = Failure;

    open spec fn view(&self) -> Failure {
        match self {
            OllamaError::NotRunning => Failure::NotRunning,
            OllamaError::Timeout => Failure::Timeout,
            OllamaError::StreamError(m) => Failure::StreamError(m@),
            OllamaError::IncompleteStream => Failure::IncompleteStream,
        }
    }
}

impl OllamaError {
    /// User-facing message shown in the overlay error panel.
    pub fn user_message(&self) -> (r: String)
        ensures
            r@ == match self@ {
                Failure::NotRunning => "Ollama not running. Start with: ollama serve"@,
                Failure::Timeout => "Ollama request timed out. The model may be overloaded."@,
                Failure::StreamError(m) => m,
                Failure::IncompleteStream => "Ollama stream ended before completion. Try again."@,
            },
    {
        match self {
            OllamaError::NotRunning => "Ollama not running. Start with: ollama serve".to_owned(),
            OllamaError::Timeout => {
                "Ollama request timed out. The model may be overloaded.".to_owned()
            },
            OllamaError::StreamError(msg) => msg.clone(),
            OllamaError::IncompleteStream => {
                "Ollama stream ended before completion. Try again.".to_owned()
            },
        }
    }
}

/// A host with a scheme and without slashes behind it.
pub open spec fn host_url(host: Seq<char>) -> Seq<char> {
    let h = text::trimmed_end(host, CharSet::Just('/'));
    if text::has_sub(h, "://"@) {
        h
    } else {
        "http://"@ + h
    }
}

/// A host with a scheme and without slashes behind it.
pub fn normalize_host(host: &str) -> (r: String)
    ensures
        r@ == host_url(host@),
{
    let h = text::trim_end_of(host, CharSet::Just('/'));
    if text::contains(h, "://") {
        h.to_owned()
    } else {
        text::concat("http://", h)
    }
}

/// Resolve the Ollama base URL, honoring the value of `OLLAMA_HOST`.
pub fn base_url(host: Option<&str>) -> (r: String)
    ensures
        r@ == match host {
            Some(h) => if text::trimmed(h@).len() > 0 {
                host_url(text::trimmed(h@))
            } else {
                DEFAULT_HOST@
            },
            None => DEFAULT_HOST@,
        },
{
    if let Some(h) = host {
        let h = text::trim(h);
        if !h.is_empty() {
            return normalize_host(h);
        }
    }
    DEFAULT_HOST.to_owned()
}

/// What a failed request means, by what the transport says of it: whether the connection could
/// not be made, whether the system says that it was refused, whether time ran out, and its
/// message.
pub open spec fn transport_failure(
    is_connect: bool,
    refused: Option<bool>,
    is_timeout: bool,
    message: Seq<char>,
) -> Failure {
    if is_connect && match refused {
        Some(r) => r,
        None => text::has_sub(message, "Connection refused"@),
    } {
        Failure::NotRunning
    } else if is_timeout {
        Failure::Timeout
    } else {
        Failure::StreamError(message)
    }
}

/// What a failed request means.
pub fn map_transport_error(
    is_connect: bool,
    refused: Option<bool>,
    is_timeout: bool,
    message: String,
) -> (r: OllamaError)
    ensures
        r@ == transport_failure(is_connect, refused, is_timeout, message@),
{
    if is_connect {
        let was_refused = match refused {
            Some(r) => r,
            None => text::contains(message.as_str(), "Connection refused"),
        };
        if was_refused {
            return OllamaError::NotRunning;
        }
    }
    if is_timeout {
        OllamaError::Timeout
    } else {
        OllamaError::StreamError(message)
    }
}

/// The error for a reply with an HTTP status that is no success, with the start of its body.
pub fn http_error(status: &str, body: &str) -> (r: OllamaError)
    ensures
        r@ == Failure::StreamError({
            let detail = text::first_chars(text::trimmed(body@), 200);
            if detail.len() == 0 {
                "HTTP "@ + status@
            } else {
                "HTTP "@ + status@ + ": "@ + detail
            }
        }),
{
    let detail = text::take(text::trim(body), 200);
    let mut message = text::concat("HTTP ", status);
    if !detail.is_empty() {
        message.append(": ");
        message.append(detail);
    }
    OllamaError::StreamError(message)
}

// ── Messages and history ─────────────────────────────────────────────────────

/// A chat message.
pub open spec fn said(role: Seq<char>, content: Seq<char>) -> JsonView {
    JsonView::Object(
        seq![("content"@, JsonView::Text(content)), ("role"@, JsonView::Text(role))],
    )
}

/// A chat message.
pub fn chat_message(role: &str, content: &str) -> (r: Json)
    ensures
        r@ == said(role@, content@),
{
    let mut members: Vec<(String, Json)> = Vec::new();
    members.push(("content".to_owned(), Json::Text(content.to_owned())));
    members.push(("role".to_owned(), Json::Text(role.to_owned())));
    let r = Json::Object(members);
    proof {
        reveal_with_fuel(Json::said, 2);
    }
    assert(r@->Object_0 =~= said(role@, content@)->Object_0);
    r
}

/// Prior turns replayed so a follow-up question makes sense.
///
/// Each request is otherwise stateless — the daemon keeps no session — so
/// without this the model cannot resolve "how big was it?" against anything.
#[derive(Debug, Clone, PartialEq, Eq)]
pub struct ChatTurn {
    /// The user's raw question, not the assembled prompt.
    pub user: String,
    pub assistant: String,
}

/// What a [`ChatTurn`] says.
pub ghost struct TurnView {
    pub user: Seq<char>,
    pub assistant: Seq<char>,
}

impl View for ChatTurn {
    type V = TurnView;

    open spec fn view(&self) -> TurnView {
        TurnView { user: self.user@, assistant: self.assistant@ }
    }
}

/// What each of the turns says.
pub open spec fn turn_views(turns: Seq<ChatTurn>) -> Seq<TurnView> {
    Seq::new(turns.len(), |i: int| turns[i]@)
}

/// A reply as it is replayed.
pub open spec fn replayed(reply: Seq<char>) -> Seq<char> {
    types::cut_with_marker(reply, HISTORY_REPLY_CHARS as nat, "…"@)
}

/// How many characters a turn takes up when it is replayed.
pub open spec fn turn_cost(turn: TurnView) -> nat {
    turn.user.len() + replayed(turn.assistant).len()
}

/// The newest of `turns` that fit, where `taken` turns that came after them cost `used`. The
/// newest of all is kept whatever it costs.
pub open spec fn kept_turns(turns: Seq<TurnView>, taken: int, used: int) -> Seq<TurnView>
    decreases turns.len(),
{
    if turns.len() == 0 || taken >= MAX_HISTORY_TURNS {
        seq![]
    } else {
        let cost = used + turn_cost(turns.last());
        if taken > 0 && cost > HISTORY_BUDGET_CHARS {
            seq![]
        } else {
            kept_turns(turns.drop_last(), taken + 1, cost).push(turns.last())
        }
    }
}

/// The messages of `turns`: the question and the reply of each.
pub open spec fn turn_messages(turns: Seq<TurnView>) -> Seq<JsonView>
    decreases turns.len(),
{
    if turns.len() == 0 {
        seq![]
    } else {
        turn_messages(turns.drop_last()) + seq![
            said("user"@, turns.last().user),
            said("assistant"@, replayed(turns.last().assistant)),
        ]
    }
}

/// What is replayed are the newest turns, in their order, at most [`MAX_HISTORY_TURNS`] of
/// them; the newest is always among them.
pub proof fn law_kept_turns(turns: Seq<TurnView>)
    ensures
        kept_turns(turns, 0, 0).len() <= MAX_HISTORY_TURNS,
        kept_turns(turns, 0, 0).is_suffix_of(turns),
        turns.len() > 0 ==> kept_turns(turns, 0, 0).len() > 0 && kept_turns(turns, 0, 0).last()
            == turns.last(),
        turn_messages(kept_turns(turns, 0, 0)).len() == 2 * kept_turns(turns, 0, 0).len(),
{
    lemma_kept_turns(turns, 0, 0);
    lemma_turn_messages(kept_turns(turns, 0, 0));
}

/// How many characters turns take up together when they are replayed.
pub open spec fn history_cost(turns: Seq<TurnView>) -> nat
    decreases turns.len(),
{
    if turns.len() == 0 {
        0
    } else {
        history_cost(turns.drop_last()) + turn_cost(turns.last())
    }
}

/// What is replayed keeps to the history budget, unless it is the newest turn alone. No reply
/// takes more than its cap and the mark of the cut, so one long answer cannot crowd out the
/// earlier turns.
pub proof fn law_history_within_budget(turns: Seq<TurnView>)
    ensures
        history_cost(kept_turns(turns, 0, 0)) <= HISTORY_BUDGET_CHARS || kept_turns(
            turns,
            0,
            0,
        ).len() == 1,
        forall|i: int|
            0 <= i < turns.len() ==> replayed((#[trigger] turns[i]).assistant).len()
                <= HISTORY_REPLY_CHARS + 1,
{
    reveal_strlit("…");
    assert forall|i: int| 0 <= i < turns.len() implies replayed(
        (#[trigger] turns[i]).assistant,
    ).len() <= HISTORY_REPLY_CHARS + 1 by {
        let reply = turns[i].assistant;
        if reply.len() > HISTORY_REPLY_CHARS {
            text::lemma_trail(reply.take(HISTORY_REPLY_CHARS as int), CharSet::White);
        }
    }
    if turns.len() > 0 {
        let cost = turn_cost(turns.last()) as int;
        lemma_history_cost(turns.drop_last(), 1, cost);
        let rest = kept_turns(turns.drop_last(), 1, cost);
        assert(rest.push(turns.last()).drop_last() =~= rest);
    }
}

proof fn lemma_history_cost(turns: Seq<TurnView>, taken: int, used: int)
    requires
        taken > 0,
    ensures
        ({
            let kept = kept_turns(turns, taken, used);
            kept.len() == 0 || used + history_cost(kept) <= HISTORY_BUDGET_CHARS
        }),
    decreases turns.len(),
{
    reveal_with_fuel(history_cost, 2);
    let kept = kept_turns(turns, taken, used);
    if kept.len() > 0 {
        let cost = used + turn_cost(turns.last());
        lemma_history_cost(turns.drop_last(), taken + 1, cost);
        assert(kept.drop_last() =~= kept_turns(turns.drop_last(), taken + 1, cost));
    }
}

proof fn lemma_kept_turns(turns: Seq<TurnView>, taken: int, used: int)
    requires
        0 <= taken <= MAX_HISTORY_TURNS,
    ensures
        kept_turns(turns, taken, used).len() <= MAX_HISTORY_TURNS - taken,
        kept_turns(turns, taken, used).is_suffix_of(turns),
    decreases turns.len(),
{
    let r = kept_turns(turns, taken, used);
    if r.len() > 0 {
        let init = turns.drop_last();
        let cost = used + turn_cost(turns.last());
        lemma_kept_turns(init, taken + 1, cost);
        let k = kept_turns(init, taken + 1, cost);
        assert(init.subrange(init.len() - k.len(), init.len() as int) =~= k);
        assert(turns.subrange(turns.len() - r.len(), turns.len() as int) =~= r);
    } else {
        assert(turns.subrange(turns.len() as int, turns.len() as int) =~= r);
    }
}

proof fn lemma_turn_messages(turns: Seq<TurnView>)
    ensures
        turn_messages(turns).len() == 2 * turns.len(),
    decreases turns.len(),
{
    if turns.len() > 0 {
        lemma_turn_messages(turns.drop_last());
    }
}

/// How many of the last turns are kept.
fn count_kept(turns: &[ChatTurn]) -> (r: usize)
    ensures
        r <= turns@.len(),
        kept_turns(turn_views(turns@), 0, 0) == turn_views(turns@).skip(turns@.len() - r),
{
    let ghost all = turn_views(turns@);
    let ghost want = kept_turns(all, 0, 0);
    let mut taken: usize = 0;
    let mut used: u128 = 0;
    assert(all.take(all.len() as int) =~= all);
    assert(all.skip(all.len() as int) =~= seq![]);
    assert(want + seq![] =~= want);
    while taken < turns.len() && taken < MAX_HISTORY_TURNS
        invariant
            taken <= turns@.len(),
            taken <= MAX_HISTORY_TURNS,
            all == turn_views(turns@),
            used <= taken * 0x1_0000_0000_0000_0200,
            want == kept_turns(all, 0, 0),
            want == kept_turns(all.take(all.len() - taken), taken as int, used as int) + all.skip(
                all.len() - taken,
            ),
        decreases turns@.len() - taken,
    {
        let at: usize = turns.len() - 1 - taken;
        let ghost rest = all.take(all.len() - taken);
        let ghost tail = all.skip(all.len() - taken);
        assert(rest.last() == turns@[at as int]@);
        assert(rest.drop_last() =~= all.take(at as int));
        let reply = types::truncate_with_marker(
            turns[at].assistant.as_str(),
            HISTORY_REPLY_CHARS,
            "…",
        );
        proof {
            reveal_strlit("…");
        }
        let a = turns[at].user.as_str().unicode_len();
        let b = reply.as_str().unicode_len();
        let cost: u128 = used + a as u128 + b as u128;
        if taken > 0 && cost > HISTORY_BUDGET_CHARS as u128 {
            assert(seq![] + tail =~= tail);
            return taken;
        }
        proof {
            let before = kept_turns(all.take(at as int), taken + 1, cost as int);
            assert(before.push(rest.last()) + tail =~= before + all.skip(at as int));
        }
        used = cost;
        taken += 1;
    }
    proof {
        let rest = all.take(all.len() - taken);
        assert(kept_turns(rest, taken as int, used as int) =~= seq![]);
        assert(seq![] + all.skip(all.len() - taken) =~= all.skip(all.len() - taken));
    }
    taken
}

/// Render prior turns as chat messages, newest first within the budget.
///
/// Only the raw question is replayed, never the assembled prompt: the system
/// instructions, terminal context, and Reference block belong to the current
/// turn alone and would multiply if every turn carried its own copy.
pub fn history_messages(turns: &[ChatTurn]) -> (r: Vec<Json>)
    ensures
        json::json_views(r@) == turn_messages(kept_turns(turn_views(turns@), 0, 0)),
{
    let n = count_kept(turns);
    let ghost kept = turn_views(turns@).skip(turns@.len() - n);
    let start: usize = turns.len() - n;
    let mut out: Vec<Json> = Vec::new();
    let mut i: usize = start;
    assert(json::json_views(out@) =~= turn_messages(kept.take(0)));
    while i < turns.len()
        invariant
            start <= i <= turns@.len(),
            kept == turn_views(turns@).skip(start as int),
            json::json_views(out@) == turn_messages(kept.take(i - start)),
        decreases turns@.len() - i,
    {
        let ghost before = json::json_views(out@);
        assert(kept.take(i - start + 1).drop_last() =~= kept.take(i - start));
        assert(kept.take(i - start + 1).last() == turns@[i as int]@);
        let reply = types::truncate_with_marker(
            turns[i].assistant.as_str(),
            HISTORY_REPLY_CHARS,
            "…",
        );
        json::push_json(&mut out, chat_message("user", turns[i].user.as_str()));
        json::push_json(&mut out, chat_message("assistant", reply.as_str()));
        i += 1;
        assert(json::json_views(out@) =~= turn_messages(kept.take(i - start)));
    }
    assert(kept.take(i - start) =~= kept);
    out
}

// ── A streamed reply ─────────────────────────────────────────────────────────

/// What one line of a streamed reply brings.
#[derive(Debug, Clone, PartialEq, Eq)]
pub struct StreamLine {
    /// An error that the daemon reports; nothing else is read from such a line.
    pub error: Option<String>,
    /// A piece of the reply.
    pub chunk: Option<String>,
    /// Whether the reply is complete.
    pub done: bool,
}

/// What a [`StreamLine`] says.
pub ghost struct LineView {
    pub error: Option<Seq<char>>,
    pub chunk: Option<Seq<char>>,
    pub done: bool,
}

impl View for StreamLine {
    type V = LineView;

    open spec fn view(&self) -> LineView {
        LineView {
            error: text::opt_string(self.error),
            chunk: text::opt_string(self.chunk),
            done: self.done,
        }
    }
}

/// The content of a message, empty where it has none.
pub open spec fn content_of(message: JsonView) -> Seq<char> {
    match message.text_at("content"@) {
        Some(t) => t,
        None => seq![],
    }
}

/// What a value in a streamed reply brings. A line that is no JSON brings nothing.
pub open spec fn line_event(v: Option<JsonView>) -> LineView {
    match v {
        None => LineView { error: None, chunk: None, done: false },
        Some(v) => if v.text_at("error"@) is Some {
            LineView { error: v.text_at("error"@), chunk: None, done: false }
        } else {
            LineView {
                error: None,
                chunk: match v.get("message"@) {
                    Some(m) => if content_of(m).len() > 0 {
                        Some(content_of(m))
                    } else {
                        None
                    },
                    None => None,
                },
                done: v.get("done"@) == Some(JsonView::Bool(true)),
            }
        },
    }
}

/// What a line of a streamed reply brings. A blank line brings nothing.
pub open spec fn line_in(line: Seq<char>) -> LineView {
    if text::trimmed(line).len() == 0 {
        line_event(None)
    } else {
        line_event(json::parsed_json(text::trimmed(line)))
    }
}

fn error_of(v: &Json) -> (r: Option<String>)
    ensures
        text::opt_string(r) == v@.text_at("error"@),
{
    match v.get("error") {
        Some(e) => match e.as_str() {
            Some(t) => Some(t.to_owned()),
            None => None,
        },
        None => None,
    }
}

/// The content of a message.
pub fn message_content(message: &Json) -> (r: String)
    ensures
        r@ == content_of(message@),
{
    match message.get("content") {
        Some(c) => match c.as_str() {
            Some(t) => t.to_owned(),
            None => String::new(),
        },
        None => String::new(),
    }
}

/// What a value in a streamed reply brings.
pub fn read_stream_value(v: Option<&Json>) -> (r: StreamLine)
    ensures
        r@ == line_event(
            match v {
                Some(j) => Some(j@),
                None => None,
            },
        ),
{
    let v = match v {
        Some(v) => v,
        None => {
            return StreamLine { error: None, chunk: None, done: false };
        },
    };
    let error = error_of(v);
    if error.is_some() {
        return StreamLine { error, chunk: None, done: false };
    }
    let chunk = match v.get("message") {
        Some(m) => {
            let content = message_content(m);
            if content.as_str().is_empty() {
                None
            } else {
                Some(content)
            }
        },
        None => None,
    };
    let done = match v.get("done") {
        Some(Json::Bool(b)) => *b,
        _ => false,
    };
    StreamLine { error: None, chunk, done }
}

/// A reply that is being streamed.
#[derive(Debug, Clone, PartialEq, Eq)]
pub struct ChatStream {
    /// What has arrived of it.
    pub reply: String,
}

impl ChatStream {
    pub fn new() -> (r: Self)
        ensures
            r.reply@ == Seq::<char>::empty(),
    {
        ChatStream { reply: String::new() }
    }

    /// Take in one line. The caller passes a chunk on, and stops at an error or the end.
    pub fn accept(&mut self, line: &str) -> (r: StreamLine)
        ensures
            r@ == line_in(line@),
            final(self).reply@ == match r@.chunk {
                Some(c) => old(self).reply@ + c,
                None => old(self).reply@,
            },
    {
        let trimmed = text::trim(line);
        let found = if trimmed.is_empty() {
            read_stream_value(None)
        } else {
            match json::parse(trimmed) {
                Some(v) => read_stream_value(Some(&v)),
                None => read_stream_value(None),
            }
        };
        if let Some(chunk) = &found.chunk {
            self.reply.append(chunk.as_str());
        }
        found
    }

    /// The full reply where the stream came to its end, and what went wrong where it did not.
    pub fn finish(self, done: bool) -> (r: Result<String, OllamaError>)
        ensures
            match r {
                Ok(reply) => done && reply@ == self.reply@,
                Err(e) => !done && e@ == unfinished(self.reply@),
            },
    {
        if done {
            Ok(self.reply)
        } else if self.reply.as_str().is_empty() {
            Err(OllamaError::StreamError("empty response from Ollama".to_owned()))
        } else {
            Err(OllamaError::IncompleteStream)
        }
    }
}

/// What a stream that broke off means, by what had arrived of the reply.
pub open spec fn unfinished(reply: Seq<char>) -> Failure {
    if reply.len() == 0 {
        Failure::StreamError("empty response from Ollama"@)
    } else {
        Failure::IncompleteStream
    }
}

/// How a stream came to its end.
pub ghost enum StreamEnd {
    /// With the full reply.
    Done(Seq<char>),
    /// With an error that the daemon reported.
    Reported(Seq<char>),
    /// By breaking off.
    Failed(Failure),
}

/// How a stream with these lines ends, where `reply` had arrived before them.
pub open spec fn stream_end(lines: Seq<LineView>, reply: Seq<char>) -> StreamEnd
    decreases lines.len(),
{
    if lines.len() == 0 {
        StreamEnd::Failed(unfinished(reply))
    } else if lines[0].error is Some {
        StreamEnd::Reported(lines[0].error->0)
    } else {
        let more = reply + chunk_text(lines[0]);
        if lines[0].done {
            StreamEnd::Done(more)
        } else {
            stream_end(lines.drop_first(), more)
        }
    }
}

/// The piece of the reply that a line brings.
pub open spec fn chunk_text(line: LineView) -> Seq<char> {
    match line.chunk {
        Some(c) => c,
        None => seq![],
    }
}

/// The pieces of the reply that are passed on, one behind the other.
pub open spec fn passed_on(lines: Seq<LineView>) -> Seq<char>
    decreases lines.len(),
{
    if lines.len() == 0 || lines[0].error is Some {
        seq![]
    } else if lines[0].done {
        chunk_text(lines[0])
    } else {
        chunk_text(lines[0]) + passed_on(lines.drop_first())
    }
}

/// The full reply is what was passed on piece by piece.
pub proof fn law_reply_is_its_chunks(lines: Seq<LineView>)
    ensures
        stream_end(lines, seq![]) matches StreamEnd::Done(reply) ==> reply == passed_on(lines),
{
    lemma_stream_end(lines, seq![]);
}

proof fn lemma_stream_end(lines: Seq<LineView>, reply: Seq<char>)
    ensures
        stream_end(lines, reply) matches StreamEnd::Done(r) ==> r == reply + passed_on(lines),
    decreases lines.len(),
{
    if lines.len() > 0 && lines[0].error is None && !lines[0].done {
        let more = reply + chunk_text(lines[0]);
        lemma_stream_end(lines.drop_first(), more);
        assert(more + passed_on(lines.drop_first()) =~= reply + passed_on(lines));
    }
}

// ── JSON in prose ────────────────────────────────────────────────────────────

/// `s` without white space and code fences around it.
pub open spec fn unfenced(s: Seq<char>) -> Seq<char> {
    text::trimmed(
        text::without_trailing(
            text::without_leading(text::without_leading(text::trimmed(s), "```json"@), "```"@),
            "```"@,
        ),
    )
}

/// Whether `c` opens an object or an array.
pub open spec fn is_opening(c: char) -> bool {
    c == '{' || c == '['
}

/// Whether `c` closes an object or an array.
pub open spec fn is_closing(c: char) -> bool {
    c == '}' || c == ']'
}

/// The value of the shortest text that starts at `start`, ends with a closing bracket at `end`
/// or later, and is JSON.
pub open spec fn value_from(s: Seq<char>, start: int, end: int) -> Option<JsonView>
    decreases s.len() - end,
{
    if end >= s.len() {
        None
    } else if is_closing(s[end]) && json::parsed_json(s.subrange(start, end + 1)) is Some {
        json::parsed_json(s.subrange(start, end + 1))
    } else {
        value_from(s, start, end + 1)
    }
}

/// The value of the leftmost bracketed text of `s`, from `start` on, that is JSON.
pub open spec fn bracketed_value(s: Seq<char>, start: int) -> Option<JsonView>
    decreases s.len() - start,
{
    if start >= s.len() {
        None
    } else if is_opening(s[start]) && value_from(s, start, start + 1) is Some {
        value_from(s, start, start + 1)
    } else {
        bracketed_value(s, start + 1)
    }
}

/// The first JSON object or array embedded in `s`, whatever stands around it.
pub open spec fn embedded_json(s: Seq<char>) -> Option<JsonView> {
    bracketed_value(unfenced(s), 0)
}

/// `s` without white space and code fences around it.
pub fn strip_fences(s: &str) -> (r: &str)
    ensures
        r@ == unfenced(s@),
{
    let a = text::trim_leading(text::trim(s), "```json");
    let b = text::trim_leading(a, "```");
    let c = text::trim_trailing(b, "```");
    text::trim(c)
}

/// The value of the shortest text that starts at `start`, ends with a closing bracket, and is
/// JSON.
fn parse_from(s: &str, chars: &[char], start: usize) -> (r: Option<Json>)
    requires
        chars@ == s@,
        start < chars@.len(),
    ensures
        match r {
            Some(v) => value_from(s@, start as int, start + 1) == Some(v@),
            None => value_from(s@, start as int, start + 1) is None,
        },
{
    let total = chars.len();
    let mut end: usize = start + 1;
    while end < total
        invariant
            chars@ == s@,
            total == chars@.len(),
            start < end <= total,
            value_from(s@, start as int, start + 1) == value_from(s@, start as int, end as int),
        decreases chars@.len() - end,
    {
        if chars[end] == '}' || chars[end] == ']' {
            if let Some(v) = json::parse(s.substring_char(start, end + 1)) {
                return Some(v);
            }
        }
        end += 1;
    }
    None
}

/// First JSON object or array embedded in `text`, tolerating code fences and prose.
pub fn parse_embedded_json(text: &str) -> (r: Option<Json>)
    ensures
        match r {
            Some(v) => embedded_json(text@) == Some(v@),
            None => embedded_json(text@) is None,
        },
{
    let t = strip_fences(text);
    let chars = text::chars_of(t);
    let mut start: usize = 0;
    while start < chars.len()
        invariant
            chars@ == t@,
            start <= chars@.len(),
            embedded_json(text@) == bracketed_value(t@, start as int),
        decreases chars@.len() - start,
    {
        if chars[start] == '{' || chars[start] == '[' {
            if let Some(v) = parse_from(t, chars.as_slice(), start) {
                return Some(v);
            }
        }
        start += 1;
    }
    None
}

/// The embedded value is that of a bracketed text, and no bracketed text that starts further
/// left is JSON. Where there is none, no bracketed text is JSON.
pub proof fn law_embedded_is_leftmost(s: Seq<char>)
    ensures
        match embedded_json(s) {
            Some(v) => exists|start: int| #[trigger]
                is_value_at(unfenced(s), start, v) && no_value_before(unfenced(s), start),
            None => no_value_before(unfenced(s), unfenced(s).len() as int),
        },
{
    lemma_bracketed_value(unfenced(s), 0);
}

/// Whether a bracketed text that starts at `start` is JSON and has the value `v`.
pub open spec fn is_value_at(s: Seq<char>, start: int, v: JsonView) -> bool {
    &&& 0 <= start < s.len()
    &&& is_opening(s[start])
    &&& exists|end: int|
        start < end < s.len() && is_closing(#[trigger] s[end]) && json::parsed_json(
            s.subrange(start, end + 1),
        ) == Some(v)
}

/// Whether no bracketed text that starts before `limit` is JSON.
pub open spec fn no_value_before(s: Seq<char>, limit: int) -> bool {
    forall|start: int, end: int|
        0 <= start < limit && start < end < s.len() && is_opening(#[trigger] s[start])
            && is_closing(#[trigger] s[end]) ==> json::parsed_json(s.subrange(start, end + 1))
            is None
}

proof fn lemma_value_from(s: Seq<char>, start: int, end: int)
    requires
        0 <= start < end,
    ensures
        match value_from(s, start, end) {
            Some(v) => exists|e: int|
                end <= e < s.len() && is_closing(#[trigger] s[e]) && json::parsed_json(
                    s.subrange(start, e + 1),
                ) == Some(v),
            None => forall|e: int|
                end <= e < s.len() && is_closing(#[trigger] s[e]) ==> json::parsed_json(
                    s.subrange(start, e + 1),
                ) is None,
        },
    decreases s.len() - end,
{
    if end < s.len() && !(is_closing(s[end]) && json::parsed_json(s.subrange(start, end + 1))
        is Some) {
        lemma_value_from(s, start, end + 1);
    }
}

proof fn lemma_bracketed_value(s: Seq<char>, from: int)
    requires
        0 <= from <= s.len(),
        no_value_before(s, from),
    ensures
        match bracketed_value(s, from) {
            Some(v) => exists|start: int| #[trigger]
                is_value_at(s, start, v) && no_value_before(s, start),
            None => no_value_before(s, s.len() as int),
        },
    decreases s.len() - from,
{
    if from < s.len() {
        lemma_value_from(s, from, from + 1);
        if is_opening(s[from]) && value_from(s, from, from + 1) is Some {
            assert(is_value_at(s, from, value_from(s, from, from + 1)->0));
        } else {
            lemma_bracketed_value(s, from + 1);
        }
    }
}

// ── Tool calls ───────────────────────────────────────────────────────────────

/// A call that a message asks for.
#[derive(Debug, PartialEq, Eq)]
pub struct ToolCall {
    pub name: String,
    /// Raw `arguments`, kept untyped so each tool reads its own keys.
    pub args: Json,
}

/// What a [`ToolCall`] says.
pub ghost struct CallView {
    pub name: Seq<char>,
    pub args: JsonView,
}

impl View for ToolCall {
    type V = CallView;

    open spec fn view(&self) -> CallView {
        CallView { name: self.name@, args: self.args@ }
    }
}

/// What each of the calls says.
pub open spec fn call_views(calls: Seq<ToolCall>) -> Seq<CallView> {
    Seq::new(calls.len(), |i: int| calls[i]@)
}

/// The part of an entry that describes the call.
pub open spec fn function_in(entry: JsonView) -> JsonView {
    match entry.get("function"@) {
        Some(f) => f,
        None => entry,
    }
}

/// The name of the function that an entry calls, empty where it has none.
pub open spec fn name_in(entry: JsonView) -> Seq<char> {
    match function_in(entry).text_at("name"@) {
        Some(n) => text::trimmed(n),
        None => seq![],
    }
}

/// The calls that entries ask for; an entry without a name asks for none.
pub open spec fn calls_in(entries: Seq<JsonView>) -> Seq<CallView>
    decreases entries.len(),
{
    if entries.len() == 0 {
        seq![]
    } else {
        let before = calls_in(entries.drop_last());
        let entry = entries.last();
        if name_in(entry).len() == 0 {
            before
        } else {
            before.push(
                CallView {
                    name: name_in(entry),
                    args: match function_in(entry).get("arguments"@) {
                        Some(a) => a,
                        None => JsonView::Null,
                    },
                },
            )
        }
    }
}

/// The entries of a message that ask for calls.
pub open spec fn call_entries(message: JsonView) -> Seq<JsonView> {
    match message.get("tool_calls"@) {
        Some(JsonView::List(entries)) => entries,
        _ => seq![],
    }
}

fn function_of(entry: &Json) -> (r: &Json)
    ensures
        r@ == function_in(entry@),
{
    match entry.get("function") {
        Some(f) => f,
        None => entry,
    }
}

fn call_name(entry: &Json) -> (r: String)
    ensures
        r@ == name_in(entry@),
{
    match function_of(entry).get("name") {
        Some(n) => match n.as_str() {
            Some(t) => text::trim(t).to_owned(),
            None => String::new(),
        },
        None => String::new(),
    }
}

/// Parse Ollama `message.tool_calls` defensively (arguments may be object or JSON string).
pub fn extract_tool_calls(message: &Json) -> (r: Vec<ToolCall>)
    ensures
        call_views(r@) == calls_in(call_entries(message@)),
{
    let mut out: Vec<ToolCall> = Vec::new();
    assert(call_views(out@) =~= seq![]);
    let entries = match message.get("tool_calls") {
        Some(Json::List(entries)) => entries,
        _ => {
            return out;
        },
    };
    let ghost all = call_entries(message@);
    assert(all.len() == entries@.len() && forall|k: int|
        0 <= k < all.len() ==> #[trigger] all[k] == entries@[k]@) by {
        reveal_with_fuel(Json::said, 2);
    }
    let mut i: usize = 0;
    assert(all.take(0) =~= seq![]);
    while i < entries.len()
        invariant
            i <= entries@.len(),
            all.len() == entries@.len(),
            forall|k: int| 0 <= k < all.len() ==> #[trigger] all[k] == entries@[k]@,
            call_views(out@) == calls_in(all.take(i as int)),
        decreases entries@.len() - i,
    {
        let ghost before = call_views(out@);
        assert(all.take(i + 1).drop_last() =~= all.take(i as int));
        assert(all.take(i + 1).last() == all[i as int]);
        let entry = &entries[i];
        let name = call_name(entry);
        if !name.as_str().is_empty() {
            let args = match function_of(entry).get("arguments") {
                Some(a) => a.copy(),
                None => Json::Null,
            };
            let call = ToolCall { name, args };
            let ghost cv = call@;
            out.push(call);
            assert(call_views(out@) =~= before.push(cv));
        }
        i += 1;
    }
    assert(all.take(i as int) =~= all);
    out
}

/// A string that is not blank, trimmed.
pub open spec fn filled(s: Option<Seq<char>>) -> Option<Seq<char>> {
    match s {
        Some(t) => if text::trimmed(t).len() > 0 {
            Some(text::trimmed(t))
        } else {
            None
        },
        None => None,
    }
}

/// The string argument `key`, where `inner` is what an argument that is itself a string holds
/// as JSON: a string that is no object is the argument.
pub open spec fn argument(args: JsonView, inner: Option<JsonView>, key: Seq<char>) -> Option<
    Seq<char>,
> {
    match args {
        JsonView::Object(_) => filled(args.text_at(key)),
        JsonView::Text(s) => if text::trimmed(s).len() == 0 {
            None
        } else if inner is Some && inner->0 is Object {
            filled(inner->0.text_at(key))
        } else {
            Some(text::trimmed(s))
        },
        _ => None,
    }
}

/// What a value that is a string holds as JSON.
pub open spec fn inner_json(args: JsonView) -> Option<JsonView> {
    match args {
        JsonView::Text(s) => json::parsed_json(text::trimmed(s)),
        _ => None,
    }
}

fn filled_member(v: &Json, key: &str) -> (r: Option<String>)
    ensures
        text::opt_string(r) == filled(v@.text_at(key@)),
{
    match v.get(key) {
        Some(m) => match m.as_str() {
            Some(t) => {
                let t = text::trim(t);
                if t.is_empty() {
                    None
                } else {
                    Some(t.to_owned())
                }
            },
            None => None,
        },
        None => None,
    }
}

/// Read string argument `key` from raw tool `arguments`, where `inner` is what an argument that
/// is itself a string holds as JSON.
pub fn string_arg_with(args: &Json, inner: Option<&Json>, key: &str) -> (r: Option<String>)
    ensures
        text::opt_string(r) == argument(
            args@,
            match inner {
                Some(v) => Some(v@),
                None => None,
            },
            key@,
        ),
{
    match args {
        Json::Object(_) => filled_member(args, key),
        Json::Text(s) => {
            let trimmed = text::trim(s.as_str());
            if trimmed.is_empty() {
                return None;
            }
            if let Some(v) = inner {
                if let Json::Object(_) = v {
                    return filled_member(v, key);
                }
            }
            // Bare argument string.
            Some(trimmed.to_owned())
        },
        _ => None,
    }
}

/// Read string argument `key` from raw tool `arguments`, tolerating an object, JSON in a
/// string, or a bare string (which small models emit for single-argument tools).
pub fn string_arg_from(args: &Json, key: &str) -> (r: Option<String>)
    ensures
        text::opt_string(r) == argument(args@, inner_json(args@), key@),
{
    let inner = match args {
        Json::Text(s) => json::parse(text::trim(s.as_str())),
        _ => None,
    };
    match &inner {
        Some(v) => string_arg_with(args, Some(v), key),
        None => string_arg_with(args, None, key),
    }
}

/// The arguments of the first call to `tool` among entries: a string counts where JSON is
/// embedded in it.
pub open spec fn arguments_in(entries: Seq<JsonView>, tool: Seq<char>) -> Option<JsonView>
    decreases entries.len(),
{
    if entries.len() == 0 {
        None
    } else {
        let rest = arguments_in(entries.drop_first(), tool);
        if name_in(entries[0]) != tool {
            rest
        } else {
            match function_in(entries[0]).get("arguments"@) {
                Some(JsonView::Text(t)) => match embedded_json(t) {
                    Some(v) => Some(v),
                    None => rest,
                },
                Some(v) => Some(v),
                None => rest,
            }
        }
    }
}

/// Raw `arguments` of the first call to `tool_name` (object, or JSON in a string).
pub fn tool_call_arguments(message: &Json, tool_name: &str) -> (r: Option<Json>)
    ensures
        match r {
            Some(v) => arguments_in(call_entries(message@), tool_name@) == Some(v@),
            None => arguments_in(call_entries(message@), tool_name@) is None,
        },
{
    let entries = match message.get("tool_calls") {
        Some(Json::List(entries)) => entries,
        _ => {
            return None;
        },
    };
    let ghost all = call_entries(message@);
    assert(all.len() == entries@.len() && forall|k: int|
        0 <= k < all.len() ==> #[trigger] all[k] == entries@[k]@) by {
        reveal_with_fuel(Json::said, 2);
    }
    let mut i: usize = 0;
    assert(all.skip(0) =~= all);
    while i < entries.len()
        invariant
            i <= entries@.len(),
            all == call_entries(message@),
            all.len() == entries@.len(),
            forall|k: int| 0 <= k < all.len() ==> #[trigger] all[k] == entries@[k]@,
            arguments_in(all, tool_name@) == arguments_in(all.skip(i as int), tool_name@),
        decreases entries@.len() - i,
    {
        assert(all.skip(i as int)[0] == all[i as int]);
        assert(all.skip(i as int).drop_first() =~= all.skip(i + 1));
        let entry = &entries[i];
        let name = call_name(entry);
        if text::same(name.as_str(), tool_name) {
            match function_of(entry).get("arguments") {
                Some(Json::Text(t)) => {
                    if let Some(v) = parse_embedded_json(t.as_str()) {
                        return Some(v);
                    }
                },
                Some(v) => {
                    return Some(v.copy());
                },
                None => {},
            }
        }
        i += 1;
    }
    None
}

/// An object without members.
pub open spec fn no_members() -> JsonView {
    JsonView::Object(seq![])
}

/// The message in a reply, an empty one where it has none.
pub open spec fn message_in(response: JsonView) -> JsonView {
    match response.get("message"@) {
        Some(m) => m,
        None => no_members(),
    }
}

/// The arguments that a reply to a request with one tool gives: those of a call to it, else
/// JSON in what it says.
pub open spec fn answer_arguments(response: JsonView, tool: Seq<char>) -> Result<
    Option<JsonView>,
    Failure,
> {
    match response.text_at("error"@) {
        Some(e) => Err(Failure::StreamError(e)),
        None => {
            let message = message_in(response);
            match arguments_in(call_entries(message), tool) {
                Some(v) => Ok(Some(v)),
                None => Ok(embedded_json(content_of(message))),
            }
        },
    }
}

/// The arguments in the reply to a request that offered a single tool.
///
/// Small models frequently answer with bare JSON text instead of emitting a
/// real tool call, so the message content is parsed as a fallback.
pub fn tool_arguments(response: &Json, tool_name: &str) -> (r: Result<Option<Json>, OllamaError>)
    ensures
        match r {
            Ok(found) => answer_arguments(response@, tool_name@) == Ok::<
                Option<JsonView>,
                Failure,
            >(
                match found {
                    Some(v) => Some(v@),
                    None => None,
                },
            ),
            Err(e) => answer_arguments(response@, tool_name@) == Err::<Option<JsonView>, Failure>(
                e@,
            ),
        },
{
    if let Some(error) = error_of(response) {
        return Err(OllamaError::StreamError(error));
    }
    let empty = Json::Object(Vec::new());
    assert(empty@ == no_members()) by {
        assert(empty@->Object_0 =~= seq![]);
    }
    let message = match response.get("message") {
        Some(m) => m,
        None => &empty,
    };
    if let Some(v) = tool_call_arguments(message, tool_name) {
        return Ok(Some(v));
    }
    let content = message_content(message);
    Ok(parse_embedded_json(content.as_str()))
}

// ── A chat with tools ────────────────────────────────────────────────────────

/// A call to carry out.
#[derive(Debug, Clone, PartialEq, Eq)]
pub enum ToolRequest {
    WebSearch { query: String },
    RunCommand { command: String },
    /// A tool that does not exist or was not offered.
    Unknown { name: String },
}

/// What a [`ToolRequest`] says.
pub ghost enum RequestView {
    WebSearch { query: Seq<char> },
    RunCommand { command: Seq<char> },
    Unknown { name: Seq<char> },
}

impl View for ToolRequest {
    type V = RequestView;

    open spec fn view(&self) -> RequestView {
        match self {
            ToolRequest::WebSearch { query } => RequestView::WebSearch { query: query@ },
            ToolRequest::RunCommand { command } => RequestView::RunCommand { command: command@ },
            ToolRequest::Unknown { name } => RequestView::Unknown { name: name@ },
        }
    }
}

/// What each of the requests says.
pub open spec fn request_views(requests: Seq<ToolRequest>) -> Seq<RequestView> {
    Seq::new(requests.len(), |i: int| requests[i]@)
}

/// The text, empty where there is none.
pub open spec fn or_empty(s: Option<Seq<char>>) -> Seq<char> {
    match s {
        Some(t) => t,
        None => seq![],
    }
}

/// The call to carry out, where only tools that were offered count.
pub open spec fn request_for(call: CallView, tools: ToolSet) -> RequestView {
    if call.name == "web_search"@ && tools.web_search {
        RequestView::WebSearch {
            query: or_empty(argument(call.args, inner_json(call.args), "query"@)),
        }
    } else if call.name == "run_command"@ && tools.read_exec is Some {
        RequestView::RunCommand {
            command: or_empty(argument(call.args, inner_json(call.args), "command"@)),
        }
    } else {
        RequestView::Unknown { name: call.name }
    }
}

/// The calls to carry out.
pub open spec fn requests_for(calls: Seq<CallView>, tools: ToolSet) -> Seq<RequestView> {
    Seq::new(calls.len(), |i: int| request_for(calls[i], tools))
}

/// Whether a request is one that the tools allow.
pub open spec fn is_offered(request: RequestView, tools: ToolSet) -> bool {
    match request {
        RequestView::WebSearch { query } => tools.web_search,
        RequestView::RunCommand { command } => tools.read_exec is Some,
        RequestView::Unknown { name } => true,
    }
}

/// A tool is carried out only where it was offered.
pub proof fn law_only_offered_tools_run(calls: Seq<CallView>, tools: ToolSet)
    ensures
        forall|i: int|
            0 <= i < calls.len() ==> is_offered(#[trigger] requests_for(calls, tools)[i], tools),
{
}

impl ToolRequest {
    /// The progress that is shown while the call is carried out, if any.
    pub fn status(&self) -> (r: Option<String>)
        ensures
            text::opt_string(r) == match self@ {
                RequestView::WebSearch { query } => Some("Searching the web…"@),
                RequestView::RunCommand { command } => Some(
                    read_exec::RUNNING_STATUS_PREFIX@ + command,
                ),
                RequestView::Unknown { name } => None,
            },
    {
        match self {
            ToolRequest::WebSearch { query } => Some("Searching the web…".to_owned()),
            ToolRequest::RunCommand { command } => Some(
                text::concat(read_exec::RUNNING_STATUS_PREFIX, command.as_str()),
            ),
            ToolRequest::Unknown { name } => None,
        }
    }

    /// The result of a call that needs nothing to be carried out.
    pub fn ready_result(&self) -> (r: Option<String>)
        ensures
            text::opt_string(r) == match self@ {
                RequestView::Unknown { name } => Some("unknown tool: "@ + name),
                _ => None,
            },
    {
        match self {
            ToolRequest::Unknown { name } => Some(text::concat("unknown tool: ", name.as_str())),
            _ => None,
        }
    }
}

fn plan_request(call: &ToolCall, tools: &ToolSet) -> (r: ToolRequest)
    ensures
        r@ == request_for(call@, *tools),
{
    if text::same(call.name.as_str(), "web_search") && tools.web_search {
        let query = match string_arg_from(&call.args, "query") {
            Some(q) => q,
            None => String::new(),
        };
        ToolRequest::WebSearch { query }
    } else if text::same(call.name.as_str(), "run_command") && tools.read_exec.is_some() {
        let command = match string_arg_from(&call.args, "command") {
            Some(c) => c,
            None => String::new(),
        };
        ToolRequest::RunCommand { command }
    } else {
        ToolRequest::Unknown { name: call.name.clone() }
    }
}

fn plan_requests(calls: &[ToolCall], tools: &ToolSet) -> (r: Vec<ToolRequest>)
    ensures
        request_views(r@) == requests_for(call_views(calls@), *tools),
{
    let mut out: Vec<ToolRequest> = Vec::new();
    let mut i: usize = 0;
    while i < calls.len()
        invariant
            i <= calls@.len(),
            out@.len() == i,
            forall|k: int|
                0 <= k < i ==> #[trigger] out@[k]@ == request_for(calls@[k]@, *tools),
        decreases calls@.len() - i,
    {
        out.push(plan_request(&calls[i], tools));
        i += 1;
    }
    assert(request_views(out@) =~= requests_for(call_views(calls@), *tools));
    out
}

/// What to do next in a chat with tools.
#[derive(Debug, Clone, PartialEq, Eq)]
pub enum NextStep {
    /// Send the messages with the tools, and hand the reply to [`ToolLoop::on_response`].
    Ask,
    /// Send the messages without tools, and stream the reply.
    Stream,
    /// Give this answer.
    Answer(String),
    /// Report this error.
    Report(String),
    /// Carry out these calls, and hand their results to [`ToolLoop::on_results`].
    CallTools(Vec<ToolRequest>),
}

/// What a [`NextStep`] says.
pub ghost enum StepView {
    Ask,
    Stream,
    Answer(Seq<char>),
    Report(Seq<char>),
    CallTools(Seq<RequestView>),
}

impl View for NextStep {
    type V = StepView;

    open spec fn view(&self) -> StepView {
        match self {
            NextStep::Ask => StepView::Ask,
            NextStep::Stream => StepView::Stream,
            NextStep::Answer(t) => StepView::Answer(t@),
            NextStep::Report(t) => StepView::Report(t@),
            NextStep::CallTools(r) => StepView::CallTools(request_views(r@)),
        }
    }
}

/// A chat with tools: rounds of questions and calls, then the final answer.
#[derive(Debug, PartialEq, Eq)]
pub struct ToolLoop {
    /// What is sent with the next request.
    pub messages: Vec<Json>,
    /// Rounds in which tools were called.
    pub rounds: usize,
}

/// What to do with a reply.
pub open spec fn step_for(response: JsonView, tools: ToolSet) -> StepView {
    let message = message_in(response);
    let calls = calls_in(call_entries(message));
    if response.text_at("error"@) is Some {
        StepView::Report(response.text_at("error"@)->0)
    } else if calls.len() > 0 {
        StepView::CallTools(requests_for(calls, tools))
    } else if content_of(message).len() > 0 {
        StepView::Answer(content_of(message))
    } else {
        StepView::Stream
    }
}

/// The messages that hand results back to the model.
pub open spec fn result_messages(results: Seq<Seq<char>>) -> Seq<JsonView> {
    Seq::new(results.len(), |i: int| said("tool"@, results[i]))
}

impl ToolLoop {
    /// Prior turns first, then this turn's fully assembled prompt. Without tools the reply is
    /// streamed at once.
    pub fn start(history: Vec<Json>, prompt: &str, tools: &ToolSet) -> (r: (ToolLoop, NextStep))
        ensures
            json::json_views(r.0.messages@) == json::json_views(history@).push(said("user"@, prompt@)),
            r.0.rounds == 0,
            r.1@ == if tools.offered().len() == 0 {
                StepView::Stream
            } else {
                StepView::Ask
            },
    {
        let mut messages = history;
        json::push_json(&mut messages, chat_message("user", prompt));
        let step = if tools.is_empty() {
            NextStep::Stream
        } else {
            NextStep::Ask
        };
        (ToolLoop { messages, rounds: 0 }, step)
    }

    /// What to do with the reply to a request with tools. A message that calls tools is kept.
    pub fn on_response(&mut self, response: &Json, tools: &ToolSet) -> (r: NextStep)
        requires
            old(self).rounds < MAX_TOOL_ROUNDS,
        ensures
            r@ == step_for(response@, *tools),
            r@ is CallTools ==> final(self).rounds == old(self).rounds + 1 && json::json_views(
                final(self).messages@,
            ) == json::json_views(old(self).messages@).push(message_in(response@)),
            !(r@ is CallTools) ==> *final(self) == *old(self),
    {
        if let Some(error) = error_of(response) {
            return NextStep::Report(error);
        }
        let empty = Json::Object(Vec::new());
        assert(empty@ == no_members()) by {
            assert(empty@->Object_0 =~= seq![]);
        }
        let message = match response.get("message") {
            Some(m) => m,
            None => &empty,
        };
        let calls = extract_tool_calls(message);
        assert(calls@.len() == call_views(calls@).len());
        if calls.len() == 0 {
            let content = message_content(message);
            if content.as_str().is_empty() {
                // Nothing useful — fall through to a streaming retry without tools.
                return NextStep::Stream;
            }
            return NextStep::Answer(content);
        }
        json::push_json(&mut self.messages, message.copy());
        self.rounds = self.rounds + 1;
        NextStep::CallTools(plan_requests(calls.as_slice(), tools))
    }

    /// Take in the results of the calls, and ask again while rounds are left.
    pub fn on_results(&mut self, results: &[String]) -> (r: NextStep)
        ensures
            json::json_views(final(self).messages@) == json::json_views(old(self).messages@) + result_messages(
                text::views(results@),
            ),
            final(self).rounds == old(self).rounds,
            r@ == if old(self).rounds < MAX_TOOL_ROUNDS {
                StepView::Ask
            } else {
                StepView::Stream
            },
    {
        let ghost start = json::json_views(self.messages@);
        let ghost want = result_messages(text::views(results@));
        let ghost rounds = self.rounds;
        let mut i: usize = 0;
        assert(start + want.take(0) =~= start);
        while i < results.len()
            invariant
                i <= results@.len(),
                want == result_messages(text::views(results@)),
                self.rounds == rounds,
                json::json_views(self.messages@) == start + want.take(i as int),
            decreases results@.len() - i,
        {
            json::push_json(&mut self.messages, chat_message("tool", results[i].as_str()));
            i += 1;
            assert(json::json_views(self.messages@) =~= start + want.take(i as int));
        }
        assert(want.take(i as int) =~= want);
        if self.rounds < MAX_TOOL_ROUNDS {
            NextStep::Ask
        } else {
            NextStep::Stream
        }
    }
}

// ── Models ───────────────────────────────────────────────────────────────────

/// An installed model as the daemon lists it.
#[derive(Debug, Clone, PartialEq, Eq)]
pub struct TagEntry {
    pub name: Option<String>,
    pub model: Option<String>,
}

/// The name of an installed model: the tag where it is not blank, else the name.
pub open spec fn entry_name(name: Option<Seq<char>>, model: Option<Seq<char>>) -> Option<Seq<char>> {
    if filled(model) is Some {
        filled(model)
    } else {
        filled(name)
    }
}

/// The names of installed models.
pub open spec fn entry_names(entries: Seq<TagEntry>) -> Seq<Seq<char>>
    decreases entries.len(),
{
    if entries.len() == 0 {
        seq![]
    } else {
        let before = entry_names(entries.drop_last());
        match entry_name(
            text::opt_string(entries.last().name),
            text::opt_string(entries.last().model),
        ) {
            Some(n) => before.push(n),
            None => before,
        }
    }
}

fn filled_text(s: &Option<String>) -> (r: Option<String>)
    ensures
        text::opt_string(r) == filled(text::opt_string(*s)),
{
    match s {
        Some(t) => {
            let t = text::trim(t.as_str());
            if t.is_empty() {
                None
            } else {
                Some(t.to_owned())
            }
        },
        None => None,
    }
}

/// The names of installed models.
pub fn model_names(entries: &[TagEntry]) -> (r: Vec<String>)
    ensures
        text::views(r@) == entry_names(entries@),
{
    let mut out: Vec<String> = Vec::new();
    let mut i: usize = 0;
    assert(text::views(out@) =~= seq![]);
    while i < entries.len()
        invariant
            i <= entries@.len(),
            text::views(out@) == entry_names(entries@.take(i as int)),
        decreases entries@.len() - i,
    {
        assert(entries@.take(i + 1).drop_last() =~= entries@.take(i as int));
        assert(entries@.take(i + 1).last() == entries@[i as int]);
        let name = match filled_text(&entries[i].model) {
            Some(n) => Some(n),
            None => filled_text(&entries[i].name),
        };
        if let Some(n) = name {
            text::push_text(&mut out, n);
        }
        i += 1;
    }
    assert(entries@.take(i as int) =~= entries@);
    out
}

/// The texts of the candidates that are there.
pub open spec fn present_texts(list: Seq<Option<String>>) -> Seq<Seq<char>>
    decreases list.len(),
{
    if list.len() == 0 {
        seq![]
    } else {
        match list.last() {
            Some(s) => present_texts(list.drop_last()).push(s@),
            None => present_texts(list.drop_last()),
        }
    }
}

/// The first of `candidates` that is installed.
pub open spec fn first_installed(candidates: Seq<Seq<char>>, installed: Seq<Seq<char>>) -> Option<
    Seq<char>,
>
    decreases candidates.len(),
{
    if candidates.len() == 0 {
        None
    } else if installed.contains(candidates[0]) {
        Some(candidates[0])
    } else {
        first_installed(candidates.drop_first(), installed)
    }
}

/// The first of `installed` whose name up to the colon is that of `model`.
pub open spec fn same_base(model: Seq<char>, installed: Seq<Seq<char>>) -> Option<Seq<char>>
    decreases installed.len(),
{
    if installed.len() == 0 {
        None
    } else if text::before(installed[0], ':') == text::before(model, ':') {
        Some(installed[0])
    } else {
        same_base(model, installed.drop_first())
    }
}

/// For the first of `candidates` that shares its base with an installed model, that model.
pub open spec fn first_base(candidates: Seq<Seq<char>>, installed: Seq<Seq<char>>) -> Option<
    Seq<char>,
>
    decreases candidates.len(),
{
    if candidates.len() == 0 {
        None
    } else if same_base(candidates[0], installed) is Some {
        same_base(candidates[0], installed)
    } else {
        first_base(candidates.drop_first(), installed)
    }
}

/// The installed model to use: an exact match comes before a match of base names, and that
/// before the first that is installed.
pub open spec fn picked(candidates: Seq<Seq<char>>, installed: Seq<Seq<char>>) -> Option<Seq<char>> {
    if first_installed(candidates, installed) is Some {
        first_installed(candidates, installed)
    } else if first_base(candidates, installed) is Some {
        first_base(candidates, installed)
    } else if installed.len() > 0 {
        Some(installed[0])
    } else {
        None
    }
}

/// What is picked is installed, and something is picked exactly when anything is.
pub proof fn law_picked_is_installed(candidates: Seq<Seq<char>>, installed: Seq<Seq<char>>)
    ensures
        picked(candidates, installed) is Some <==> installed.len() > 0,
        picked(candidates, installed) matches Some(m) ==> installed.contains(m),
{
    lemma_first_installed(candidates, installed);
    lemma_first_base(candidates, installed);
    if installed.len() > 0 {
        assert(installed.contains(installed[0]));
    }
}

proof fn lemma_first_installed(candidates: Seq<Seq<char>>, installed: Seq<Seq<char>>)
    ensures
        first_installed(candidates, installed) matches Some(m) ==> installed.contains(m),
    decreases candidates.len(),
{
    if candidates.len() > 0 {
        lemma_first_installed(candidates.drop_first(), installed);
    }
}

proof fn lemma_same_base(model: Seq<char>, installed: Seq<Seq<char>>)
    ensures
        same_base(model, installed) matches Some(m) ==> installed.contains(m),
    decreases installed.len(),
{
    if installed.len() > 0 {
        let rest = installed.drop_first();
        lemma_same_base(model, rest);
        if text::before(installed[0], ':') == text::before(model, ':') {
            assert(installed.contains(installed[0]));
        } else if let Some(m) = same_base(model, rest) {
            let i = rest.index_of(m);
            assert(installed[i + 1] == m);
        }
    }
}

proof fn lemma_first_base(candidates: Seq<Seq<char>>, installed: Seq<Seq<char>>)
    ensures
        first_base(candidates, installed) matches Some(m) ==> installed.contains(m),
    decreases candidates.len(),
{
    if candidates.len() > 0 {
        lemma_same_base(candidates[0], installed);
        lemma_first_base(candidates.drop_first(), installed);
    }
}

fn find_same_base(model: &str, installed: &[String]) -> (r: Option<String>)
    ensures
        text::opt_string(r) == same_base(model@, text::views(installed@)),
{
    let ghost all = text::views(installed@);
    let base = text::split_first(model, ':');
    let mut i: usize = 0;
    assert(all.skip(0) =~= all);
    while i < installed.len()
        invariant
            i <= installed@.len(),
            all == text::views(installed@),
            base@ == text::before(model@, ':'),
            same_base(model@, all) == same_base(model@, all.skip(i as int)),
        decreases installed@.len() - i,
    {
        assert(all.skip(i as int)[0] == installed@[i as int]@);
        assert(all.skip(i as int).drop_first() =~= all.skip(i + 1));
        if text::same(text::split_first(installed[i].as_str(), ':'), base) {
            return Some(installed[i].clone());
        }
        i += 1;
    }
    None
}

fn flatten(list: &[Option<String>]) -> (r: Vec<String>)
    ensures
        text::views(r@) == present_texts(list@),
{
    let mut out: Vec<String> = Vec::new();
    let mut i: usize = 0;
    assert(text::views(out@) =~= seq![]);
    while i < list.len()
        invariant
            i <= list@.len(),
            text::views(out@) == present_texts(list@.take(i as int)),
        decreases list@.len() - i,
    {
        assert(list@.take(i + 1).drop_last() =~= list@.take(i as int));
        assert(list@.take(i + 1).last() == list@[i as int]);
        if let Some(s) = &list[i] {
            text::push_text(&mut out, s.clone());
        }
        i += 1;
    }
    assert(list@.take(i as int) =~= list@);
    out
}

/// The installed model to use: exact match, then base-name (`before ':'`) match,
/// then first installed.
pub fn pick_available(candidates: &[Option<String>], installed: &[String]) -> (r: Option<String>)
    ensures
        text::opt_string(r) == picked(present_texts(candidates@), text::views(installed@)),
{
    let names = flatten(candidates);
    let ghost all = text::views(names@);
    let ghost have = text::views(installed@);
    let mut i: usize = 0;
    assert(all.skip(0) =~= all);
    while i < names.len()
        invariant
            i <= names@.len(),
            all == text::views(names@),
            all == present_texts(candidates@),
            have == text::views(installed@),
            first_installed(all, have) == first_installed(all.skip(i as int), have),
        decreases names@.len() - i,
    {
        assert(all.skip(i as int)[0] == names@[i as int]@);
        assert(all.skip(i as int).drop_first() =~= all.skip(i + 1));
        if text::list_contains(installed, names[i].as_str()) {
            return Some(names[i].clone());
        }
        i += 1;
    }
    let mut j: usize = 0;
    while j < names.len()
        invariant
            j <= names@.len(),
            all == text::views(names@),
            all == present_texts(candidates@),
            have == text::views(installed@),
            first_installed(all, have) is None,
            first_base(all, have) == first_base(all.skip(j as int), have),
        decreases names@.len() - j,
    {
        assert(all.skip(j as int)[0] == names@[j as int]@);
        assert(all.skip(j as int).drop_first() =~= all.skip(j + 1));
        if let Some(found) = find_same_base(names[j].as_str(), installed) {
            return Some(found);
        }
        j += 1;
    }
    if installed.len() > 0 {
        assert(have[0] == installed@[0]@);
        Some(installed[0].clone())
    } else {
        None
    }
}

/// The candidates, by preference: the setting, the environment, the platform's default, and on
/// macOS the standard tag behind it.
pub open spec fn candidates_for(
    preferred: Option<Seq<char>>,
    env: Option<Seq<char>>,
    platform: Platform,
) -> Seq<Seq<char>> {
    (match preferred {
        Some(m) => seq![m],
        None => seq![],
    }) + (if env is Some && text::trimmed(env->0).len() > 0 {
        seq![env->0]
    } else {
        seq![]
    }) + seq![platform_model(platform)] + (if platform == Platform::MacOs {
        seq![DEFAULT_MODEL@]
    } else {
        seq![]
    })
}

/// Candidate models in preference order (some may be `None`).
///
/// On macOS the MLX default is preferred, with the non-MLX tag as a fallback
/// so a stock pull of `gemma4:e4b` still resolves when the `-mlx` tag is absent.
pub fn candidate_models(preferred: Option<&str>, env: Option<&str>, platform: Platform) -> (r: Vec<
    Option<String>,
>)
    ensures
        present_texts(r@) == candidates_for(text::opt_text(preferred), text::opt_text(env), platform),
{
    let mut out: Vec<Option<String>> = Vec::new();
    out.push(
        match preferred {
            Some(m) => Some(m.to_owned()),
            None => None,
        },
    );
    let ghost one = out@;
    out.push(
        match env {
            Some(m) => {
                if text::trim(m).is_empty() {
                    None
                } else {
                    Some(m.to_owned())
                }
            },
            None => None,
        },
    );
    let ghost two = out@;
    out.push(Some(default_model(platform).to_owned()));
    let ghost three = out@;
    if platform == Platform::MacOs {
        out.push(Some(DEFAULT_MODEL.to_owned()));
    }
    proof {
        assert(present_texts(Seq::<Option<String>>::empty()) =~= seq![]);
        assert(one.drop_last() =~= Seq::<Option<String>>::empty());
        assert(present_texts(one) =~= match preferred {
            Some(m) => seq![m@],
            None => seq![],
        });
        assert(two.drop_last() =~= one);
        assert(present_texts(two) =~= present_texts(one) + (if env is Some && text::trimmed(
            env->0@,
        ).len() > 0 {
            seq![env->0@]
        } else {
            seq![]
        }));
        assert(three.drop_last() =~= two);
        assert(present_texts(three) =~= present_texts(two) + seq![platform_model(platform)]);
        if platform == Platform::MacOs {
            assert(out@.drop_last() =~= three);
        }
        assert(present_texts(out@) =~= candidates_for(
            text::opt_text(preferred),
            text::opt_text(env),
            platform,
        ));
    }
    out
}

/// Resolve the active model among those installed.
///
/// Preference order: settings → `LEARNMINAL_OLLAMA_MODEL` → platform
/// default (`gemma4:e4b-mlx` on macOS, `gemma4:e4b` elsewhere) → first
/// installed. On macOS the non-MLX tag is also tried as a fallback. Where nothing is
/// installed, the most preferred is named.
pub fn resolve_active_model(
    preferred: Option<&str>,
    env: Option<&str>,
    platform: Platform,
    installed: &[String],
) -> (r: String)
    ensures
        ({
            let candidates = candidates_for(
                text::opt_text(preferred),
                text::opt_text(env),
                platform,
            );
            r@ == match picked(candidates, text::views(installed@)) {
                Some(m) => m,
                None => candidates[0],
            }
        }),
{
    let candidates = candidate_models(preferred, env, platform);
    if let Some(m) = pick_available(candidates.as_slice(), installed) {
        return m;
    }
    let names = flatten(candidates.as_slice());
    assert(text::views(names@)[0] == names@[0]@);
    names[0].clone()
}

/// What a choice of a model resolves to among those installed: itself where it is installed or
/// nothing is known to be, else one with the same base name.
pub open spec fn chosen(model: Seq<char>, installed: Seq<Seq<char>>) -> Result<Seq<char>, Failure> {
    let name = text::trimmed(model);
    if name.len() == 0 {
        Err(Failure::StreamError("Model name must not be empty"@))
    } else if installed.len() == 0 || installed.contains(name) {
        Ok(name)
    } else {
        match same_base(name, installed) {
            Some(m) => Ok(m),
            None => Err(Failure::StreamError("Model not installed: "@ + name)),
        }
    }
}

/// Validate a preferred model, returning the resolved name.
pub fn set_active_model(model: &str, installed: &[String]) -> (r: Result<String, OllamaError>)
    ensures
        match r {
            Ok(m) => chosen(model@, text::views(installed@)) == Ok::<Seq<char>, Failure>(m@),
            Err(e) => chosen(model@, text::views(installed@)) == Err::<Seq<char>, Failure>(e@),
        },
{
    let name = text::trim(model);
    if name.is_empty() {
        return Err(OllamaError::StreamError("Model name must not be empty".to_owned()));
    }
    if installed.len() == 0 || text::list_contains(installed, name) {
        return Ok(name.to_owned());
    }
    match find_same_base(name, installed) {
        Some(m) => Ok(m),
        None => Err(OllamaError::StreamError(text::concat("Model not installed: ", name))),
    }
}

// ── What a chat with tools keeps to ──────────────────────────────────────────

/// A message has the role and the content it was made of.
pub proof fn law_message_members(role: Seq<char>, content: Seq<char>)
    ensures
        said(role, content).text_at("role"@) == Some(role),
        said(role, content).text_at("content"@) == Some(content),
        content_of(said(role, content)) == content,
{
    reveal_strlit("role");
    reveal_strlit("content");
    assert("role"@.len() == 4 && "content"@.len() == 7);
    reveal_with_fuel(json::member, 3);
    let members = said(role, content)->Object_0;
    assert(members.drop_first()[0] == members[1]);
}

/// Whether an entry of a message asks for the tool `name` with the arguments `args`.
pub open spec fn asks_for(entry: JsonView, name: Seq<char>, args: JsonView) -> bool {
    entry.get("function"@) matches Some(f) && f.text_at("name"@) == Some(name) && f.get(
        "arguments"@,
    ) == Some(args)
}

/// Whether a reply asks for `names` with `args`, in this order, and reports no error.
pub open spec fn asks_for_all(
    response: JsonView,
    names: Seq<Seq<char>>,
    args: Seq<JsonView>,
) -> bool {
    &&& response.text_at("error"@) is None
    &&& response.get("message"@) matches Some(message) && message.get("tool_calls"@) matches Some(
        JsonView::List(entries),
    ) && entries.len() == names.len() && args.len() == names.len() && forall|k: int|
        #![trigger entries[k]]
        0 <= k < entries.len() ==> asks_for(entries[k], names[k], args[k])
}

/// Each call that a reply asks for is carried out, in the order of the reply, with what the model
/// gave: a search with the query, a command with the command line, both trimmed, whether the
/// arguments are an object, an object in a text, or a bare text. A tool that is not offered is
/// reported back under its name.
pub proof fn law_calls_are_carried_out(
    response: JsonView,
    names: Seq<Seq<char>>,
    args: Seq<JsonView>,
    tools: ToolSet,
    k: int,
    given: Seq<char>,
)
    requires
        asks_for_all(response, names, args),
        forall|i: int|
            0 <= i < names.len() ==> (#[trigger] names[i]).len() > 0 && text::is_tight(names[i]),
        0 <= k < names.len(),
        text::trimmed(given).len() > 0,
    ensures
        step_for(response, tools) matches StepView::CallTools(requests) && requests.len()
            == names.len() && ({
            let key = if names[k] == "web_search"@ {
                "query"@
            } else {
                "command"@
            };
            let has = match args[k] {
                JsonView::Object(_) => args[k].text_at(key) == Some(given),
                JsonView::Text(t) => if json::parsed_json(text::trimmed(t)) matches Some(inner)
                    && inner is Object {
                    text::trimmed(t).len() > 0 && json::parsed_json(
                        text::trimmed(t),
                    )->0.text_at(key) == Some(given)
                } else {
                    t == given
                },
                _ => false,
            };
            &&& names[k] == "web_search"@ && tools.web_search && has ==> requests[k]
                == (RequestView::WebSearch { query: text::trimmed(given) })
            &&& names[k] == "run_command"@ && tools.read_exec is Some && has ==> requests[k]
                == (RequestView::RunCommand { command: text::trimmed(given) })
            &&& names[k] == "web_search"@ && !tools.web_search ==> requests[k]
                == (RequestView::Unknown { name: names[k] })
            &&& names[k] == "run_command"@ && tools.read_exec is None ==> requests[k]
                == (RequestView::Unknown { name: names[k] })
            &&& names[k] != "web_search"@ && names[k] != "run_command"@ ==> requests[k]
                == (RequestView::Unknown { name: names[k] })
        }),
{
    reveal_strlit("web_search");
    reveal_strlit("run_command");
    assert("web_search"@.len() == 10 && "run_command"@.len() == 11);
    let entries = call_entries(message_in(response));
    assert forall|i: int| 0 <= i < entries.len() implies name_in(#[trigger] entries[i]) == names[i]
        && names[i].len() > 0 && function_in(entries[i]).get("arguments"@) == Some(args[i]) by {
        assert(asks_for(entries[i], names[i], args[i]));
        text::lemma_trimmed_same(names[i]);
    }
    lemma_calls_in(entries, names, args);
    let calls = calls_in(entries);
    assert(calls[k] == (CallView { name: names[k], args: args[k] }));
}

proof fn lemma_calls_in(entries: Seq<JsonView>, names: Seq<Seq<char>>, args: Seq<JsonView>)
    requires
        entries.len() == names.len(),
        args.len() == names.len(),
        forall|i: int|
            #![trigger entries[i]]
            0 <= i < entries.len() ==> name_in(entries[i]) == names[i] && names[i].len() > 0
                && function_in(entries[i]).get("arguments"@) == Some(args[i]),
    ensures
        calls_in(entries) == Seq::new(
            names.len(),
            |i: int| CallView { name: names[i], args: args[i] },
        ),
    decreases entries.len(),
{
    let want = Seq::new(names.len(), |i: int| CallView { name: names[i], args: args[i] });
    if entries.len() > 0 {
        let e = entries.drop_last();
        let n = names.drop_last();
        let a = args.drop_last();
        assert forall|i: int| #![trigger e[i]] 0 <= i < e.len() implies name_in(e[i]) == n[i]
            && n[i].len() > 0 && function_in(e[i]).get("arguments"@) == Some(a[i]) by {
            assert(e[i] == entries[i]);
        }
        lemma_calls_in(e, n, a);
        assert(entries.last() == entries[entries.len() - 1]);
        assert(calls_in(entries) =~= want);
    } else {
        assert(calls_in(entries) =~= want);
    }
}

/// A reply that asks for no tool and says something is the answer, word for word; one that
/// reports an error is reported; one that does neither is streamed again without tools.
pub proof fn law_plain_reply_is_the_answer(response: JsonView, message: JsonView, tools: ToolSet)
    requires
        response.get("message"@) == Some(message),
        message.get("tool_calls"@) is None,
    ensures
        response.text_at("error"@) matches Some(e) ==> step_for(response, tools)
            == StepView::Report(e),
        response.text_at("error"@) is None ==> match message.text_at("content"@) {
            Some(said) => step_for(response, tools) == if said.len() > 0 {
                StepView::Answer(said)
            } else {
                StepView::Stream
            },
            None => step_for(response, tools) == StepView::Stream,
        },
{
}

/// What the tools gave is handed back to the model in full, each result in a message of its own,
/// in the order of the calls.
pub proof fn law_results_are_handed_back(results: Seq<Seq<char>>)
    ensures
        result_messages(results).len() == results.len(),
        forall|i: int|
            0 <= i < results.len() ==> (#[trigger] result_messages(results)[i]).text_at("role"@)
                == Some("tool"@) && result_messages(results)[i].text_at("content"@) == Some(
                results[i],
            ),
{
    assert forall|i: int| 0 <= i < results.len() implies (#[trigger] result_messages(
        results,
    )[i]).text_at("role"@) == Some("tool"@) && result_messages(results)[i].text_at("content"@)
        == Some(results[i]) by {
        law_message_members("tool"@, results[i]);
    }
}

/// A short conversation is replayed in full: of each turn the question and then the reply, in
/// the order they were said.
pub proof fn law_short_history_is_replayed(turns: Seq<TurnView>, i: int)
    requires
        turns.len() <= 4,
        forall|k: int|
            0 <= k < turns.len() ==> (#[trigger] turns[k]).assistant.len() <= 500,
        spoken(turns) <= 2_000,
        0 <= i < turns.len(),
    ensures
        ({
            let messages = turn_messages(kept_turns(turns, 0, 0));
            &&& messages.len() == 2 * turns.len()
            &&& messages[2 * i].text_at("role"@) == Some("user"@)
            &&& messages[2 * i].text_at("content"@) == Some(turns[i].user)
            &&& messages[2 * i + 1].text_at("role"@) == Some("assistant"@)
            &&& messages[2 * i + 1].text_at("content"@) == Some(turns[i].assistant)
        }),
{
    lemma_all_turns_kept(turns, 0, 0);
    lemma_turn_message_at(turns, i);
    assert(replayed(turns[i].assistant) == turns[i].assistant);
}

/// How many characters were said in turns.
pub open spec fn spoken(turns: Seq<TurnView>) -> nat
    decreases turns.len(),
{
    if turns.len() == 0 {
        0
    } else {
        spoken(turns.drop_last()) + turns.last().user.len() + turns.last().assistant.len()
    }
}

proof fn lemma_all_turns_kept(turns: Seq<TurnView>, taken: int, used: int)
    requires
        0 <= taken,
        taken + turns.len() <= MAX_HISTORY_TURNS,
        forall|i: int|
            0 <= i < turns.len() ==> (#[trigger] turns[i]).assistant.len() <= HISTORY_REPLY_CHARS,
        used + spoken(turns) <= HISTORY_BUDGET_CHARS,
    ensures
        kept_turns(turns, taken, used) == turns,
    decreases turns.len(),
{
    if turns.len() > 0 {
        let init = turns.drop_last();
        assert(turns.last() == turns[turns.len() - 1]);
        let cost = used + turn_cost(turns.last());
        assert(replayed(turns.last().assistant) == turns.last().assistant);
        assert forall|i: int| 0 <= i < init.len() implies (#[trigger] init[i]).assistant.len()
            <= HISTORY_REPLY_CHARS by {
            assert(init[i] == turns[i]);
        }
        lemma_all_turns_kept(init, taken + 1, cost);
        assert(init.push(turns.last()) =~= turns);
    } else {
        assert(turns =~= seq![]);
    }
}

/// Of a longer conversation, whatever is replayed is what was said: each question in full, and
/// each reply in full or its start with a mark of the cut.
pub proof fn law_history_is_what_was_said(turns: Seq<TurnView>, i: int)
    requires
        0 <= i < kept_turns(turns, 0, 0).len(),
    ensures
        ({
            let messages = turn_messages(kept_turns(turns, 0, 0));
            let turn = turns[turns.len() - kept_turns(turns, 0, 0).len() + i];
            &&& messages[2 * i].text_at("content"@) == Some(turn.user)
            &&& messages[2 * i + 1].text_at("content"@) matches Some(reply) && if turn.assistant.len()
                <= 500 {
                reply == turn.assistant
            } else {
                exists|n: int|
                    #![trigger turn.assistant.take(n)]
                    0 <= n <= 500 && reply == turn.assistant.take(n) + "…"@
                        && forall|k: int|
                        n <= k < 500 ==> text::is_white(
                            #[trigger] turn.assistant[k],
                        )
            }
        }),
{
    let kept = kept_turns(turns, 0, 0);
    lemma_kept_turns(turns, 0, 0);
    assert(turns.subrange(turns.len() - kept.len(), turns.len() as int) =~= kept);
    lemma_turn_message_at(kept, i);
    let turn = kept[i];
    if turn.assistant.len() > HISTORY_REPLY_CHARS {
        let head = turn.assistant.take(HISTORY_REPLY_CHARS as int);
        text::lemma_rtrimmed(head);
        let n = text::rtrimmed(head).len() as int;
        assert(turn.assistant.take(n) =~= text::rtrimmed(head));
        assert forall|k: int| n <= k < HISTORY_REPLY_CHARS implies text::is_white(
            #[trigger] turn.assistant[k],
        ) by {
            assert(head[k] == turn.assistant[k]);
        }
    }
}

proof fn lemma_turn_message_at(turns: Seq<TurnView>, i: int)
    requires
        0 <= i < turns.len(),
    ensures
        turn_messages(turns).len() == 2 * turns.len(),
        turn_messages(turns)[2 * i].text_at("role"@) == Some("user"@),
        turn_messages(turns)[2 * i].text_at("content"@) == Some(turns[i].user),
        turn_messages(turns)[2 * i + 1].text_at("role"@) == Some("assistant"@),
        turn_messages(turns)[2 * i + 1].text_at("content"@) == Some(replayed(turns[i].assistant)),
    decreases turns.len(),
{
    lemma_turn_messages(turns);
    let init = turns.drop_last();
    lemma_turn_messages(init);
    if i < init.len() {
        lemma_turn_message_at(init, i);
    } else {
        law_message_members("user"@, turns.last().user);
        law_message_members("assistant"@, replayed(turns.last().assistant));
    }
}

/// A value of a streamed reply brings the error it reports and nothing else, or else the piece of
/// the reply it holds, and says whether the reply is complete.
pub proof fn law_streamed_value(v: JsonView, message: JsonView, piece: Seq<char>, error: Seq<char>)
    ensures
        v.text_at("error"@) == Some(error) ==> line_event(Some(v)).error == Some(error)
            && line_event(Some(v)).chunk is None,
        v.text_at("error"@) is None && v.get("message"@) == Some(message) && message.text_at(
            "content"@,
        ) == Some(piece) && piece.len() > 0 ==> line_event(Some(v)).chunk == Some(piece),
        v.text_at("error"@) is None ==> line_event(Some(v)).error is None && line_event(
            Some(v),
        ).done == (v.get("done"@) == Some(JsonView::Bool(true))),
{
}

/// The most preferred model that is installed is used: of the setting, the environment and the
/// default of the platform, in this order.
pub proof fn law_preferred_model_is_used(
    preferred: Seq<char>,
    env: Seq<char>,
    platform: Platform,
    installed: Seq<Seq<char>>,
)
    requires
        text::trimmed(env).len() > 0,
    ensures
        installed.contains(preferred) ==> picked(
            candidates_for(Some(preferred), Some(env), platform),
            installed,
        ) == Some(preferred) && picked(candidates_for(Some(preferred), None, platform), installed)
            == Some(preferred),
        installed.contains(env) ==> picked(candidates_for(None, Some(env), platform), installed)
            == Some(env),
        installed.contains(env) && !installed.contains(preferred) ==> picked(
            candidates_for(Some(preferred), Some(env), platform),
            installed,
        ) == Some(env),
        platform != Platform::MacOs && installed.contains("gemma4:e4b"@) ==> picked(
            candidates_for(None, None, platform),
            installed,
        ) == Some("gemma4:e4b"@),
        platform == Platform::MacOs && installed.contains("gemma4:e4b-mlx"@) ==> picked(
            candidates_for(None, None, platform),
            installed,
        ) == Some("gemma4:e4b-mlx"@),
{
    reveal_with_fuel(first_installed, 4);
    let both = candidates_for(Some(preferred), Some(env), platform);
    assert(both[0] == preferred && both[1] == env);
    assert(both.drop_first()[0] == env);
    assert(candidates_for(Some(preferred), None, platform)[0] == preferred);
    assert(candidates_for(None, Some(env), platform)[0] == env);
    assert(candidates_for(None, None, platform)[0] == platform_model(platform));
}

/// Where no candidate is installed, an installed model with the base name of the first candidate
/// is used before any other.
pub proof fn law_same_base_is_used(
    candidates: Seq<Seq<char>>,
    installed: Seq<Seq<char>>,
    base: Seq<char>,
    i: int,
)
    requires
        candidates.len() > 0,
        0 <= i < installed.len(),
        forall|c: int|
            0 <= c < candidates.len() ==> !installed.contains(#[trigger] candidates[c]),
        !base.contains(':'),
        (base + seq![':']).is_prefix_of(candidates[0]),
        (base + seq![':']).is_prefix_of(installed[i]),
    ensures
        picked(candidates, installed) matches Some(m) && installed.contains(m) && (m == base || (base
            + seq![':']).is_prefix_of(m)),
{
    lemma_none_installed(candidates, installed);
    lemma_before_colon(candidates[0], base);
    lemma_before_colon(installed[i], base);
    lemma_same_base_found(candidates[0], installed, i);
    lemma_same_base(candidates[0], installed);
    let m = same_base(candidates[0], installed)->0;
    lemma_base_of(m, base);
}

proof fn lemma_none_installed(candidates: Seq<Seq<char>>, installed: Seq<Seq<char>>)
    requires
        forall|c: int|
            0 <= c < candidates.len() ==> !installed.contains(#[trigger] candidates[c]),
    ensures
        first_installed(candidates, installed) is None,
    decreases candidates.len(),
{
    if candidates.len() > 0 {
        let rest = candidates.drop_first();
        assert forall|c: int| 0 <= c < rest.len() implies !installed.contains(
            #[trigger] rest[c],
        ) by {
            assert(rest[c] == candidates[c + 1]);
        }
        assert(!installed.contains(candidates[0]));
        lemma_none_installed(rest, installed);
    }
}

proof fn lemma_before_colon(s: Seq<char>, base: Seq<char>)
    requires
        !base.contains(':'),
        (base + seq![':']).is_prefix_of(s),
    ensures
        text::before(s, ':') == base,
{
    let full = base + seq![':'];
    let n = base.len() as int;
    assert forall|k: int| 0 <= k < n implies CharSet::Not(':').has(#[trigger] s[k]) by {
        assert(s[k] == full[k] && full[k] == base[k]);
        assert(base.contains(base[k]));
    }
    assert(s[n] == full[n]);
    text::lemma_lead_is(s, CharSet::Not(':'), n);
    assert forall|k: int| 0 <= k < n implies s.take(n)[k] == base[k] by {
        assert(s[k] == full[k] && full[k] == base[k]);
    }
    assert(s.take(n) =~= base);
}

proof fn lemma_base_of(m: Seq<char>, base: Seq<char>)
    requires
        text::before(m, ':') == base,
    ensures
        m == base || (base + seq![':']).is_prefix_of(m),
{
    text::lemma_lead(m, CharSet::Not(':'));
    let n = text::lead(m, CharSet::Not(':')) as int;
    if n < m.len() {
        assert((base + seq![':']) =~= m.take(n + 1));
    } else {
        assert(m.take(n) =~= m);
    }
}

proof fn lemma_same_base_found(model: Seq<char>, installed: Seq<Seq<char>>, i: int)
    requires
        0 <= i < installed.len(),
        text::before(installed[i], ':') == text::before(model, ':'),
    ensures
        same_base(model, installed) matches Some(m) && text::before(m, ':') == text::before(
            model,
            ':',
        ),
    decreases installed.len(),
{
    if text::before(installed[0], ':') != text::before(model, ':') {
        assert(installed.drop_first()[i - 1] == installed[i]);
        lemma_same_base_found(model, installed.drop_first(), i - 1);
    }
}

/// A text without code fences is searched for JSON as it is.
pub proof fn law_plain_text_is_not_unfenced(s: Seq<char>)
    requires
        !s.contains('`'),
    ensures
        unfenced(s) == text::trimmed(s),
{
    let t = text::trimmed(s);
    reveal_strlit("```json");
    reveal_strlit("```");
    text::lemma_trimmed_without(s, '`');
    text::lemma_trimmed(s);
    if t.len() > 0 {
        assert(t.contains(t[0]));
        assert(t.contains(t.last()));
    }
    assert("```json"@[0] == '`' && "```"@[0] == '`' && "```"@.last() == '`');
    assert(!"```json"@.is_prefix_of(t));
    assert(!"```"@.is_prefix_of(t));
    assert(!"```"@.is_suffix_of(t));
}

/// The address of the daemon is the one that was set, with a scheme and without slashes behind
/// it.
pub proof fn law_host_url(host: Seq<char>)
    ensures
        host_url(host).len() > 0 && host_url(host).last() != '/' || text::trimmed_end(
            host,
            CharSet::Just('/'),
        ).len() == 0,
        host.len() > 0 && host.last() != '/' && text::has_sub(host, "://"@) ==> host_url(host)
            == host,
        host.len() > 0 && host.last() != '/' && !text::has_sub(host, "://"@) ==> host_url(host)
            == "http://"@ + host,
{
    let h = text::trimmed_end(host, CharSet::Just('/'));
    text::lemma_trail(host, CharSet::Just('/'));
    if host.len() > 0 && host.last() != '/' {
        assert(text::trail(host, CharSet::Just('/')) == 0);
        assert(h =~= host);
    }
    if h.len() > 0 {
        assert(h.last() == host[h.len() - 1]);
    }
}

/// A reply to a request with one tool gives the arguments of the first call to that tool,
/// whatever else was called before it. A reply that reports an error gives the error.
pub proof fn law_answer_arguments(
    response: JsonView,
    names: Seq<Seq<char>>,
    args: Seq<JsonView>,
    i: int,
    error: Seq<char>,
)
    requires
        0 <= i < names.len(),
        forall|k: int|
            0 <= k <= i ==> (#[trigger] names[k]).len() > 0 && text::is_tight(names[k]),
        forall|k: int| 0 <= k < i ==> #[trigger] names[k] != names[i],
        args.len() == names.len(),
        args[i] !is Text,
    ensures
        asks_for_all(response, names, args) ==> answer_arguments(response, names[i]) == Ok::<
            Option<JsonView>,
            Failure,
        >(Some(args[i])),
        response.text_at("error"@) == Some(error) ==> answer_arguments(response, names[i]) == Err::<
            Option<JsonView>,
            Failure,
        >(Failure::StreamError(error)),
{
    if asks_for_all(response, names, args) {
        let entries = call_entries(message_in(response));
        assert forall|k: int| 0 <= k < entries.len() implies asks_for(
            #[trigger] entries[k],
            names[k],
            args[k],
        ) by {}
        lemma_arguments(entries, names, args, i);
    }
}

proof fn lemma_arguments(
    entries: Seq<JsonView>,
    names: Seq<Seq<char>>,
    args: Seq<JsonView>,
    i: int,
)
    requires
        0 <= i < names.len(),
        entries.len() == names.len(),
        args.len() == names.len(),
        forall|k: int|
            0 <= k <= i ==> (#[trigger] names[k]).len() > 0 && text::is_tight(names[k]),
        forall|k: int| 0 <= k < i ==> #[trigger] names[k] != names[i],
        args[i] !is Text,
        forall|k: int|
            0 <= k < entries.len() ==> asks_for(#[trigger] entries[k], names[k], args[k]),
    ensures
        arguments_in(entries, names[i]) == Some(args[i]),
    decreases entries.len(),
{
    assert(asks_for(entries[0], names[0], args[0]));
    text::lemma_trimmed_same(names[0]);
    if i > 0 {
        let rest = entries.drop_first();
        let more = names.drop_first();
        let given = args.drop_first();
        assert(more[i - 1] == names[i]);
        assert forall|k: int| 0 <= k <= i - 1 implies (#[trigger] more[k]).len() > 0
            && text::is_tight(more[k]) by {
            assert(more[k] == names[k + 1]);
        }
        assert forall|k: int| 0 <= k < i - 1 implies #[trigger] more[k] != more[i - 1] by {
            assert(more[k] == names[k + 1]);
        }
        assert forall|k: int| 0 <= k < rest.len() implies asks_for(
            #[trigger] rest[k],
            more[k],
            given[k],
        ) by {
            assert(rest[k] == entries[k + 1]);
        }
        lemma_arguments(rest, more, given, i - 1);
        assert(names[0] != names[i]);
    }
}

/// The lines of a streamed reply that comes in `pieces`.
pub open spec fn streamed(pieces: Seq<Seq<char>>) -> Seq<LineView> {
    Seq::new(
        pieces.len(),
        |i: int| LineView { error: None, chunk: Some(pieces[i]), done: false },
    )
}

/// A streamed reply is its pieces, one behind the other, once the server says that it is done.
/// Without that word it is not complete, and an error in between is reported.
pub proof fn law_streamed_reply(pieces: Seq<Seq<char>>, error: Seq<char>)
    ensures
        ({
            let end = LineView { error: None, chunk: None, done: true };
            stream_end(streamed(pieces).push(end), seq![]) == StreamEnd::Done(pieces.flatten())
        }),
        stream_end(
            streamed(pieces).push(LineView { error: Some(error), chunk: None, done: false }),
            seq![],
        ) == StreamEnd::Reported(error),
        pieces.flatten().len() > 0 ==> stream_end(streamed(pieces), seq![]) == StreamEnd::Failed(
            Failure::IncompleteStream,
        ),
        stream_end(seq![], seq![]) matches StreamEnd::Failed(_),
{
    let end = LineView { error: None, chunk: None, done: true };
    let bad = LineView { error: Some(error), chunk: None, done: false };
    let none = Seq::<char>::empty();
    lemma_streamed(pieces, none, seq![end]);
    lemma_streamed(pieces, none, seq![bad]);
    lemma_streamed(pieces, none, seq![]);
    assert(streamed(pieces) + seq![end] =~= streamed(pieces).push(end));
    assert(streamed(pieces) + seq![bad] =~= streamed(pieces).push(bad));
    assert(streamed(pieces) + seq![] =~= streamed(pieces));
    assert(none + pieces.flatten() =~= pieces.flatten());
    assert(pieces.flatten() + none =~= pieces.flatten());
}

proof fn lemma_streamed(pieces: Seq<Seq<char>>, before: Seq<char>, tail: Seq<LineView>)
    ensures
        stream_end(streamed(pieces) + tail, before) == stream_end(
            tail,
            before + pieces.flatten(),
        ),
    decreases pieces.len(),
{
    if pieces.len() == 0 {
        assert(streamed(pieces) + tail =~= tail);
        assert(before + pieces.flatten() =~= before);
    } else {
        let rest = pieces.drop_first();
        assert((streamed(pieces) + tail).drop_first() =~= streamed(rest) + tail);
        lemma_streamed(rest, before + pieces[0], tail);
        assert(pieces.flatten() == pieces[0] + rest.flatten());
        assert(before + pieces[0] + rest.flatten() =~= before + pieces.flatten());
    }
}

/// Each tool that is switched on is offered, and no other.
pub proof fn law_offered(tools: ToolSet)
    ensures
        tools.offered().contains(Tool::WebSearch) <==> tools.web_search,
        tools.offered().contains(Tool::RunCommand) <==> tools.read_exec is Some,
        tools.offered().no_duplicates(),
{
    let all = tools.offered();
    if tools.web_search {
        assert(all[0] == Tool::WebSearch);
    }
    if tools.read_exec is Some {
        assert(all[all.len() - 1] == Tool::RunCommand);
    }
}

/// A failure to reach the server is told from a timeout and from any other failure.
pub proof fn law_transport_failure(message: Seq<char>, refused: Option<bool>)
    ensures
        transport_failure(true, Some(true), false, message) == Failure::NotRunning,
        text::has_sub(message, "Connection refused"@) ==> transport_failure(
            true,
            None,
            false,
            message,
        ) == Failure::NotRunning,
        transport_failure(false, refused, true, message) == Failure::Timeout,
        transport_failure(true, Some(false), true, message) == Failure::Timeout,
        transport_failure(false, refused, false, message) == Failure::StreamError(message),
        transport_failure(true, Some(false), false, message) == Failure::StreamError(message),
{
}

/// The model that was set is tried first, then the one of the environment, then the one that goes
/// with the platform.
pub proof fn law_candidates(preferred: Seq<char>, env: Seq<char>, platform: Platform)
    requires
        text::trimmed(env).len() > 0,
    ensures
        candidates_for(Some(preferred), Some(env), platform)[0] == preferred,
        candidates_for(Some(preferred), Some(env), platform)[1] == env,
        candidates_for(None, Some(env), platform)[0] == env,
        candidates_for(None, None, platform)[0] == platform_model(platform),
        candidates_for(None, None, platform).last() == platform_model(Platform::Linux),
        candidates_for(Some(preferred), None, platform)[1] == platform_model(platform),
{
}

/// A model is chosen by its name where it is installed, or nothing is known of what is; else one
/// of the same base is, and where there is none, the name is reported.
pub proof fn law_chosen(model: Seq<char>, installed: Seq<Seq<char>>, error: Seq<char>)
    ensures
        text::trimmed(model).len() > 0 && installed.contains(text::trimmed(model)) ==> chosen(
            model,
            installed,
        ) == Ok::<Seq<char>, Failure>(text::trimmed(model)),
        text::trimmed(model).len() > 0 && installed.len() == 0 ==> chosen(model, installed) == Ok::<
            Seq<char>,
            Failure,
        >(text::trimmed(model)),
        text::trimmed(model).len() == 0 ==> chosen(model, installed) is Err,
        chosen(model, installed) matches Ok(m) ==> (installed.len() > 0 ==> installed.contains(m)
            && text::before(m, ':') == text::before(text::trimmed(model), ':')),
        chosen(model, installed) == Err::<Seq<char>, Failure>(Failure::StreamError(error))
            && text::trimmed(model).len() > 0 ==> text::has_sub(error, text::trimmed(model)),
        text::trimmed(model).len() > 0 && (exists|i: int|
            0 <= i < installed.len() && text::before(#[trigger] installed[i], ':') == text::before(
                text::trimmed(model),
                ':',
            )) ==> chosen(model, installed) is Ok,
{
    let name = text::trimmed(model);
    lemma_same_base_is(name, installed);
    text::lemma_occurs("Model not installed: "@, name, seq![]);
    assert("Model not installed: "@ + name + seq![] =~= "Model not installed: "@ + name);
}

proof fn lemma_same_base_is(model: Seq<char>, installed: Seq<Seq<char>>)
    ensures
        same_base(model, installed) matches Some(m) ==> installed.contains(m) && text::before(
            m,
            ':',
        ) == text::before(model, ':'),
        same_base(model, installed) is None ==> forall|i: int|
            0 <= i < installed.len() ==> text::before(#[trigger] installed[i], ':') != text::before(
                model,
                ':',
            ),
    decreases installed.len(),
{
    if installed.len() > 0 {
        let rest = installed.drop_first();
        lemma_same_base_is(model, rest);
        assert(installed[0] == installed.first());
        if text::before(installed[0], ':') == text::before(model, ':') {
            assert(installed.contains(installed[0]));
        } else {
            if let Some(m) = same_base(model, rest) {
                let k = rest.index_of(m);
                assert(installed[k + 1] == m);
            } else {
                assert forall|i: int| 0 <= i < installed.len() implies text::before(
                    #[trigger] installed[i],
                    ':',
                ) != text::before(model, ':') by {
                    if i > 0 {
                        assert(rest[i - 1] == installed[i]);
                    }
                }
            }
        }
    }
}

/// Every model that the server lists is known, by the name that it has there.
pub proof fn law_models_are_listed(entries: Seq<TagEntry>, i: int, name: Seq<char>)
    requires
        0 <= i < entries.len(),
        name.len() > 0,
        text::is_tight(name),
        text::opt_string(entries[i].model) == Some(name) || entries[i].model is None
            && text::opt_string(entries[i].name) == Some(name),
    ensures
        entry_names(entries).contains(name),
        entry_names(entries).len() <= entries.len(),
    decreases entries.len(),
{
    let init = entries.drop_last();
    let before = entry_names(init);
    let all = entry_names(entries);
    text::lemma_trimmed_same(name);
    lemma_fewer_names(entries);
    if i < init.len() {
        assert(init[i] == entries[i]);
        law_models_are_listed(init, i, name);
        let k = before.index_of(name);
        assert(all[k] == name);
    } else {
        assert(entries.last() == entries[i]);
        assert(all[before.len() as int] == name);
    }
}

proof fn lemma_fewer_names(entries: Seq<TagEntry>)
    ensures
        entry_names(entries).len() <= entries.len(),
    decreases entries.len(),
{
    if entries.len() > 0 {
        lemma_fewer_names(entries.drop_last());
    }
}

/// A reply that reports an error is reported, whatever else it holds; one without calls and
/// without text is asked for again as a stream.
pub proof fn law_step_for(response: JsonView, tools: ToolSet, error: Seq<char>)
    ensures
        response.text_at("error"@) == Some(error) ==> step_for(response, tools) == StepView::Report(
            error,
        ),
        response.text_at("error"@) is None && response.get("message"@) is None ==> step_for(
            response,
            tools,
        ) == StepView::Stream,
{
    reveal_strlit("content");
    reveal_strlit("tool_calls");
    assert(no_members().get("content"@) is None);
    assert(no_members().get("tool_calls"@) is None);
}

/// The fences around a text are taken off, with the white space around them.
pub proof fn law_fences_are_taken_off(s: Seq<char>)
    requires
        s.len() > 0,
        text::is_tight(s),
        !s.contains('`'),
        s[0] != 'j',
    ensures
        unfenced("```json"@ + (seq!['\n'] + s + seq!['\n']) + "```"@) == s,
        unfenced("```"@ + (seq!['\n'] + s + seq!['\n']) + "```"@) == s,
        unfenced(s) == s,
{
    reveal_strlit("```json");
    reveal_strlit("```");
    let inner = seq!['\n'] + s + seq!['\n'];
    let a = "```json"@ + inner + "```"@;
    let b = "```"@ + inner + "```"@;
    text::lemma_trimmed_same(a);
    text::lemma_trimmed_same(b);
    text::lemma_trimmed_same(s);
    text::law_trimmed_core(seq!['\n'], s, seq!['\n']);
    let rest = inner + "```"@;
    assert(a =~= "```json"@ + rest);
    assert(b =~= "```"@ + rest);
    text::law_without_ends(rest, "```json"@);
    text::law_without_ends(rest, "```"@);
    text::law_without_ends(b, "```json"@);
    text::law_without_ends(inner, "```"@);
    text::law_without_ends(s, "```json"@);
    text::law_without_ends(s, "```"@);
    assert(rest[0] == '\n');
    assert("```json"@[0] == '`' && "```"@[0] == '`' && "```json"@[3] == 'j' && "```"@.last() == '`');
    assert(b[3] == '\n');
    if "```json"@.is_prefix_of(b) {
        assert("```json"@[3] == b[3]);
    }
    if "```json"@.is_prefix_of(rest) {
        assert("```json"@[0] == rest[0]);
    }
    if "```"@.is_prefix_of(rest) {
        assert("```"@[0] == rest[0]);
    }
    if "```"@.is_suffix_of(inner) {
        assert("```"@[2] == inner[inner.len() - 1]);
    }
    assert(s.contains(s[0]));
    assert(s.contains(s[s.len() - 1]));
    if "```json"@.is_prefix_of(s) {
        assert("```json"@[0] == s[0]);
    }
    if "```"@.is_prefix_of(s) {
        assert("```"@[0] == s[0]);
    }
    if "```"@.is_suffix_of(s) {
        assert("```"@[2] == s[s.len() - 1]);
    }
}

/// A reply that calls nothing is searched for the arguments in what it says.
pub proof fn law_arguments_in_content(
    response: JsonView,
    message: JsonView,
    content: Seq<char>,
    tool: Seq<char>,
)
    requires
        response.text_at("error"@) is None,
        response.get("message"@) == Some(message),
        message.get("tool_calls"@) is None,
        message.text_at("content"@) == Some(content),
    ensures
        answer_arguments(response, tool) == Ok::<Option<JsonView>, Failure>(embedded_json(content)),
{
}

/// Arguments that are JSON in a text are read from the text.
pub proof fn law_arguments_in_text(entry: JsonView, name: Seq<char>, t: Seq<char>, v: JsonView)
    requires
        asks_for(entry, name, JsonView::Text(t)),
        name.len() > 0,
        text::is_tight(name),
        embedded_json(t) == Some(v),
    ensures
        arguments_in(seq![entry], name) == Some(v),
{
    text::lemma_trimmed_same(name);
    assert(seq![entry][0] == entry);
}

} // verus!
