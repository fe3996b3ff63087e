//! What is asked of the explanation backend, and what its event streams mean.
//!
//! Requests are sent and events are decoded elsewhere; where they go, how a stream of
//! events runs and what its end means is decided here.
use vstd::prelude::*;
use vstd::string::*;

use crate::text;
use crate::text::CharSet;
use crate::types::SystemInfo;

verus! {

broadcast use vstd::string::group_string_axioms;

/// Where the backend listens by default.
pub const DEFAULT_BASE_URL: &'static str = "http://127.0.0.1:8765";

#[derive(Debug, Clone, PartialEq, Eq)]
pub enum IpcError {
    BackendNotRunning,
    Timeout,
    StreamError(String),
    /// Tokens were received but no parseable structured `done` event arrived.
    IncompleteStream,
}

/// What an [`IpcError`] says.
pub ghost enum IpcFailure {
    BackendNotRunning,
    Timeout,
    StreamError(Seq<char>),
    IncompleteStream,
}

impl View for IpcError {
    type V = IpcFailure;

    open spec fn view(&self) -> IpcFailure {
        match self {
            IpcError::BackendNotRunning => IpcFailure::BackendNotRunning,
            IpcError::Timeout => IpcFailure::Timeout,
            IpcError::StreamError(m) => IpcFailure::StreamError(m@),
            IpcError::IncompleteStream => IpcFailure::IncompleteStream,
        }
    }
}

// ── Requests ─────────────────────────────────────────────────────────────────

/// What the backend is asked for.
#[derive(Debug, Clone, Copy, PartialEq, Eq, Structural)]
pub enum Endpoint {
    Explain,
    Chat,
    CommandReference,
    SystemInfo { refresh: bool },
}

/// The URL of an endpoint.
pub open spec fn endpoint_url(base: Seq<char>, endpoint: Endpoint) -> Seq<char> {
    text::trimmed_end(base, CharSet::Just('/')) + match endpoint {
        Endpoint::Explain => "/explain"@,
        Endpoint::Chat => "/chat"@,
        Endpoint::CommandReference => "/command-reference"@,
        Endpoint::SystemInfo { refresh } => if refresh {
            "/system-info?refresh=true"@
        } else {
            "/system-info"@
        },
    }
}

/// Whether a text is an absolute URL.
pub uninterp spec fn is_url(s: Seq<char>) -> bool;

/// `reqwest::Url::parse`: whether it succeeds is a function of the text, named [`is_url`].
#[verifier::external_body]
fn parses_as_url(s: &str) -> (r: bool)
    ensures
        r == is_url(s@),
{
    reqwest::Url::parse(s).is_ok()
}

/// The URL of an endpoint, where `valid` says whether it is one.
pub fn checked_url(url: String, valid: bool) -> (r: Result<String, IpcError>)
    ensures
        match r {
            Ok(u) => valid && u@ == url@,
            Err(e) => !valid && e@ == IpcFailure::StreamError("invalid URL"@),
        },
{
    if valid {
        Ok(url)
    } else {
        Err(IpcError::StreamError("invalid URL".to_owned()))
    }
}

/// The URL to send a request to.
pub fn request_url(base: &str, endpoint: Endpoint) -> (r: Result<String, IpcError>)
    ensures
        match r {
            Ok(u) => is_url(endpoint_url(base@, endpoint)) && u@ == endpoint_url(base@, endpoint),
            Err(e) => !is_url(endpoint_url(base@, endpoint)) && e@ == IpcFailure::StreamError(
                "invalid URL"@,
            ),
        },
{
    let path = match endpoint {
        Endpoint::Explain => "/explain",
        Endpoint::Chat => "/chat",
        Endpoint::CommandReference => "/command-reference",
        Endpoint::SystemInfo { refresh } => {
            if refresh {
                "/system-info?refresh=true"
            } else {
                "/system-info"
            }
        },
    };
    let url = text::concat(text::trim_end_of(base, CharSet::Just('/')), path);
    let valid = parses_as_url(url.as_str());
    checked_url(url, valid)
}

/// What a failed request means, by what the transport says of it: whether the connection could
/// not be made, whether the system says that it was refused, whether time ran out, and its
/// message.
pub fn map_transport_error(
    is_connect: bool,
    refused: Option<bool>,
    is_timeout: bool,
    message: String,
) -> (r: IpcError)
    ensures
        r@ == if is_connect && match refused {
            Some(b) => b,
            None => text::has_sub(message@, "Connection refused"@),
        } {
            IpcFailure::BackendNotRunning
        } else if is_timeout {
            IpcFailure::Timeout
        } else {
            IpcFailure::StreamError(message@)
        },
{
    if is_connect {
        let was_refused = match refused {
            Some(b) => b,
            None => text::contains(message.as_str(), "Connection refused"),
        };
        if was_refused {
            return IpcError::BackendNotRunning;
        }
    }
    if is_timeout {
        IpcError::Timeout
    } else {
        IpcError::StreamError(message)
    }
}

/// The error for a reply with an HTTP status that is no success.
pub fn http_error(status: &str) -> (r: IpcError)
    ensures
        r@ == IpcFailure::StreamError("HTTP "@ + status@),
{
    IpcError::StreamError(text::concat("HTTP ", status))
}

/// Whether system information has to be asked for again, this time afresh, so `/info` does not
/// surface a spurious error to the user: the reply is incomplete and may be an old one.
pub fn needs_refresh(refreshed: bool, info: &SystemInfo) -> (r: bool)
    ensures
        r == (!refreshed && !(info.os@.len() > 0 && info.collected_at is Some)),
{
    !refreshed && !info.is_complete()
}

// ── Event streams ────────────────────────────────────────────────────────────

/// The payload of an event line.
pub open spec fn payload_of(line: Seq<char>) -> Option<Seq<char>> {
    if "data:"@.is_prefix_of(line) && text::trimmed(line.skip(5)).len() > 0 {
        Some(text::trimmed(line.skip(5)))
    } else {
        None
    }
}

/// Extract the payload from an SSE `data:` line (`data: ` or `data:`).
pub fn sse_data_payload(line: &str) -> (r: Option<&str>)
    ensures
        text::opt_text(r) == payload_of(line@),
{
    if !text::starts_with(line, "data:") {
        return None;
    }
    proof {
        reveal_strlit("data:");
    }
    let n = line.unicode_len();
    let rest = line.substring_char(5, n);
    assert(rest@ =~= line@.skip(5));
    let payload = text::trim(rest);
    if payload.is_empty() {
        None
    } else {
        Some(payload)
    }
}

/// What a line of a stream is.
#[derive(Debug, Clone, PartialEq, Eq)]
pub enum SseLine {
    /// Nothing to look at.
    Skip,
    /// The end of the stream.
    End,
    /// An event to decode.
    Event(String),
}

/// What a line of a stream is.
pub fn read_sse_line(line: &str) -> (r: SseLine)
    ensures
        match payload_of(line@) {
            None => r == SseLine::Skip,
            Some(p) => if p == "[DONE]"@ {
                r == SseLine::End
            } else {
                r matches SseLine::Event(e) && e@ == p
            },
        },
{
    match sse_data_payload(line) {
        None => SseLine::Skip,
        Some(p) => {
            if text::same(p, "[DONE]") {
                SseLine::End
            } else {
                SseLine::Event(p.to_owned())
            }
        },
    }
}

/// What an event reads as. More than one may hold.
#[derive(Debug, Clone, PartialEq, Eq)]
pub struct SseEvent {
    /// An error, and whether it ends the stream.
    pub error: Option<(String, bool)>,
    /// A piece of text.
    pub is_chunk: bool,
    /// The final reply.
    pub is_done: bool,
}

/// What to do with an event.
#[derive(Debug, Clone, PartialEq, Eq)]
pub enum SseStep {
    /// Report this error and stop.
    Report(String),
    /// Pass the piece of text on.
    Chunk,
    /// Pass the final reply on.
    Done,
    /// Go on to the next event.
    Ignore,
}

/// A stream of events.
#[derive(Debug, Clone, Copy, PartialEq, Eq, Structural)]
pub struct SseStream {
    /// Whether only an error that ends the stream counts, as in a chat.
    pub chat: bool,
    /// Whether a piece of text was passed on.
    pub has_chunks: bool,
    /// Whether a final reply was passed on.
    pub is_done: bool,
}

/// Whether an event is an error that ends a stream.
pub open spec fn ends_stream(event: SseEvent, chat: bool) -> bool {
    event.error is Some && (!chat || (event.error->0).1)
}

/// The stream after an event that does not end it.
pub open spec fn after_event(stream: SseStream, event: SseEvent) -> SseStream {
    SseStream {
        chat: stream.chat,
        has_chunks: stream.has_chunks || event.is_chunk,
        is_done: stream.is_done || (!event.is_chunk && event.is_done),
    }
}

/// The stream after `events`: `None` where one of them ended it with an error.
pub open spec fn after_events(stream: SseStream, events: Seq<SseEvent>) -> Option<SseStream>
    decreases events.len(),
{
    if events.len() == 0 {
        Some(stream)
    } else if ends_stream(events[0], stream.chat) {
        None
    } else {
        after_events(after_event(stream, events[0]), events.drop_first())
    }
}

/// A stream is cut short exactly where an event is an error that ends it. One that is not
/// cut short has a final reply exactly where an event was one, and pieces of text exactly
/// where an event was one.
pub proof fn law_stream(stream: SseStream, events: Seq<SseEvent>)
    ensures
        match after_events(stream, events) {
            None => exists|i: int|
                0 <= i < events.len() && ends_stream(#[trigger] events[i], stream.chat),
            Some(end) => {
                &&& forall|i: int|
                    0 <= i < events.len() ==> !ends_stream(#[trigger] events[i], stream.chat)
                &&& end.is_done == (stream.is_done || exists|i: int|
                    0 <= i < events.len() && !(#[trigger] events[i]).is_chunk && events[i].is_done)
                &&& end.has_chunks == (stream.has_chunks || exists|i: int|
                    0 <= i < events.len() && (#[trigger] events[i]).is_chunk)
            },
        },
    decreases events.len(),
{
    if events.len() > 0 {
        let first = events[0];
        let rest = events.drop_first();
        assert forall|i: int| 1 <= i < events.len() implies events[i] == #[trigger] rest[i - 1] by {
        }
        assert forall|i: int| 0 <= i < rest.len() implies rest[i] == #[trigger] events[i + 1] by {
        }
        if !ends_stream(first, stream.chat) {
            law_stream(after_event(stream, first), rest);
            assert forall|i: int| 0 <= i < events.len() && after_events(stream, events) is Some
                implies !ends_stream(#[trigger] events[i], stream.chat) by {
                if i > 0 {
                    assert(events[i] == rest[i - 1]);
                }
            }
            if let Some(end) = after_events(stream, events) {
                if exists|i: int| 0 <= i < events.len() && (#[trigger] events[i]).is_chunk {
                    let i = choose|i: int| 0 <= i < events.len() && (#[trigger] events[i]).is_chunk;
                    if i > 0 {
                        assert(rest[i - 1].is_chunk);
                    }
                }
                if exists|i: int|
                    0 <= i < events.len() && !(#[trigger] events[i]).is_chunk && events[i].is_done {
                    let i = choose|i: int|
                        0 <= i < events.len() && !(#[trigger] events[i]).is_chunk
                            && events[i].is_done;
                    if i > 0 {
                        assert(!rest[i - 1].is_chunk && rest[i - 1].is_done);
                    }
                }
            }
        }
    }
}

impl SseStream {
    pub fn new(chat: bool) -> (r: Self)
        ensures
            r == (SseStream { chat, has_chunks: false, is_done: false }),
    {
        SseStream { chat, has_chunks: false, is_done: false }
    }

    /// What to do with an event: an error comes before a piece of text, and that before a final
    /// reply.
    pub fn on_event(&mut self, event: &SseEvent) -> (r: SseStep)
        ensures
            ends_stream(*event, old(self).chat) ==> (r matches SseStep::Report(m) && m@ == (
            event.error->0).0@) && *final(self) == *old(self),
            !ends_stream(*event, old(self).chat) ==> {
                &&& r == if event.is_chunk {
                    SseStep::Chunk
                } else if event.is_done {
                    SseStep::Done
                } else {
                    SseStep::Ignore
                }
                &&& *final(self) == after_event(*old(self), *event)
            },
    {
        if let Some((message, ends)) = &event.error {
            if !self.chat || *ends {
                return SseStep::Report(message.clone());
            }
        }
        if event.is_chunk {
            self.has_chunks = true;
            SseStep::Chunk
        } else if event.is_done {
            self.is_done = true;
            SseStep::Done
        } else {
            SseStep::Ignore
        }
    }

    /// What the end of the stream means: it succeeded exactly when a final reply was passed on.
    pub fn finish(&self) -> (r: Result<(), IpcError>)
        ensures
            match r {
                Ok(_) => self.is_done,
                Err(e) => !self.is_done && e@ == if self.has_chunks {
                    IpcFailure::IncompleteStream
                } else {
                    IpcFailure::StreamError("empty SSE stream"@)
                },
            },
    {
        if self.is_done {
            Ok(())
        } else if self.has_chunks {
            Err(IpcError::IncompleteStream)
        } else {
            Err(IpcError::StreamError("empty SSE stream".to_owned()))
        }
    }
}

/// The address of an endpoint is the base address without the slashes at its end, and the path of
/// the endpoint behind it; no two endpoints share an address.
pub proof fn law_endpoints(base: Seq<char>, endpoint: Endpoint, other: Endpoint)
    ensures
        endpoint_url(base + seq!['/'], endpoint) == endpoint_url(base, endpoint),
        base.len() > 0 && base.last() != '/' ==> base.is_prefix_of(endpoint_url(base, endpoint))
            && endpoint_url(base, endpoint).skip(base.len() as int) == (match endpoint {
            Endpoint::Explain => "/explain"@,
            Endpoint::Chat => "/chat"@,
            Endpoint::CommandReference => "/command-reference"@,
            Endpoint::SystemInfo { refresh: true } => "/system-info?refresh=true"@,
            Endpoint::SystemInfo { refresh: false } => "/system-info"@,
        }),
        endpoint != other ==> endpoint_url(base, endpoint) != endpoint_url(base, other),
{
    let longer = base + seq!['/'];
    assert(longer.drop_last() =~= base);
    let n = text::trail(base, CharSet::Just('/'));
    assert(text::trail(longer, CharSet::Just('/')) == n + 1);
    text::lemma_trail(base, CharSet::Just('/'));
    assert(longer.take(longer.len() - (n + 1)) =~= base.take(base.len() - n));
    let start = text::trimmed_end(base, CharSet::Just('/'));
    if base.len() > 0 && base.last() != '/' {
        assert(start =~= base);
        assert(endpoint_url(base, endpoint).take(base.len() as int) =~= base);
    }
    reveal_strlit("/explain");
    reveal_strlit("/chat");
    reveal_strlit("/command-reference");
    reveal_strlit("/system-info?refresh=true");
    reveal_strlit("/system-info");
    if endpoint != other {
        assert(endpoint_url(base, endpoint).len() != endpoint_url(base, other).len());
    }
}

/// The payload of an event line is what stands behind `data:`, without the white space around it;
/// other lines have none.
pub proof fn law_payload(before: Seq<char>, payload: Seq<char>, after: Seq<char>)
    requires
        payload.len() > 0,
        text::is_tight(payload),
        payload[0] != 'd',
        forall|k: int| 0 <= k < before.len() ==> text::is_white(#[trigger] before[k]),
        forall|k: int| 0 <= k < after.len() ==> text::is_white(#[trigger] after[k]),
    ensures
        payload_of("data:"@ + (before + payload + after)) == Some(payload),
        payload_of("data:"@ + before) is None,
        payload_of(payload) is None,
{
    reveal_strlit("data:");
    let core = before + payload + after;
    assert(("data:"@ + core).take(5) =~= "data:"@);
    assert(("data:"@ + core).skip(5) =~= core);
    assert(("data:"@ + before).skip(5) =~= before);
    text::law_trimmed_core(before, payload, after);
    text::lemma_blank(before);
    if "data:"@.is_prefix_of(payload) {
        assert("data:"@[0] == payload[0]);
    }
}

/// An error ends a stream, but in a chat only one that says so; what is no error never does.
pub proof fn law_errors_end_streams(event: SseEvent, message: String, fatal: bool)
    ensures
        event.error is None ==> !ends_stream(event, true) && !ends_stream(event, false),
        event.error == Some((message, fatal)) ==> ends_stream(event, false) && (ends_stream(
            event,
            true,
        ) <==> fatal),
{
}

/// A stream is done once a final reply came, and has text once a piece of text came; nothing
/// takes that back.
pub proof fn law_events_are_remembered(stream: SseStream, event: SseEvent)
    ensures
        after_event(stream, event).chat == stream.chat,
        stream.is_done ==> after_event(stream, event).is_done,
        stream.has_chunks ==> after_event(stream, event).has_chunks,
        event.is_chunk ==> after_event(stream, event).has_chunks,
        event.is_done && !event.is_chunk ==> after_event(stream, event).is_done,
        !event.is_chunk && !event.is_done ==> after_event(stream, event) == stream,
{
}

} // verus!
