//! Normalized streaming events and their Server-Sent Events framing.
//!
//! A unified event model over the different LLM protocols, framed for the
//! client UI both under its own event names and under the AG-UI names. The
//! AG-UI payloads are JSON objects whose keys appear in sorted order; string
//! values are escaped by `serde_json`.

use vstd::prelude::*;

use crate::mcp::digest::hex_digit;
use crate::text::{concat, owned};

verus! {

/// Citation reference for source attribution.
pub struct Citation {
    /// Zero-based index of this citation in the response.
    pub index: usize,
    /// URL of the source.
    pub url: String,
    /// Optional title of the source.
    pub title: Option<String>,
    /// Optional snippet from the source.
    pub snippet: Option<String>,
}

/// Normalized streaming events emitted by the LLM orchestrator.
#[allow(inconsistent_fields)]
pub enum NormalizedEvent {
    /// Indicates the start of a new streaming response.
    StreamStart { request_id: String },
    /// Incremental text delta from the assistant's response.
    MessageDelta { text: String },
    /// Incremental thinking delta, for models that expose it.
    ThinkingDelta { text: String },
    /// Incremental reasoning delta.
    ReasoningDelta { text: String },
    /// A citation/source reference was added.
    CitationAdded(Citation),
    /// Memory/context update from the model; `operation` is "set", "append"
    /// or "delete".
    MemoryUpdate { key: String, value: String, operation: String },
    /// Incremental tool call delta.
    ToolCallDelta { call_index: usize, id: Option<String>, name: Option<String>, arguments_delta: Option<String> },
    /// Tool call is fully assembled and ready for execution.
    ToolCallComplete { call_index: usize, id: String, name: String, arguments_json: String },
    /// Result from executing a tool.
    ToolResult { id: String, name: String, content: String, success: bool },
    /// An error occurred during streaming.
    Error { message: String, code: Option<String> },
    /// Token usage information from the API.
    Usage { prompt_tokens: u32, completion_tokens: u32, total_tokens: u32 },
    /// Stream has completed successfully.
    Done,
}

/// The operation a memory update has when none is given.
pub fn default_memory_operation() -> (r: String)
    ensures
        r@ == "set"@,
{
    owned("set")
}

/// A tool result succeeded unless it says otherwise.
pub fn default_true() -> (r: bool)
    ensures
        r,
{
    true
}

/// The SSE event name of an event.
pub open spec fn event_name_of(evt: NormalizedEvent) -> Seq<char> {
    match evt {
        NormalizedEvent::StreamStart { .. } => "stream.start"@,
        NormalizedEvent::MessageDelta { .. } => "message.delta"@,
        NormalizedEvent::ThinkingDelta { .. } => "thinking.delta"@,
        NormalizedEvent::ReasoningDelta { .. } => "reasoning.delta"@,
        NormalizedEvent::CitationAdded(..) => "citation.added"@,
        NormalizedEvent::MemoryUpdate { .. } => "memory.update"@,
        NormalizedEvent::ToolCallDelta { .. } => "tool_call.delta"@,
        NormalizedEvent::ToolCallComplete { .. } => "tool_call.complete"@,
        NormalizedEvent::ToolResult { .. } => "tool_result"@,
        NormalizedEvent::Usage { .. } => "usage"@,
        NormalizedEvent::Error { .. } => "error"@,
        NormalizedEvent::Done => "done"@,
    }
}

/// Get the SSE event name for an event.
pub fn event_name(evt: &NormalizedEvent) -> (r: &'static str)
    ensures
        r@ == event_name_of(*evt),
{
    match evt {
        NormalizedEvent::StreamStart { .. } => "stream.start",
        NormalizedEvent::MessageDelta { .. } => "message.delta",
        NormalizedEvent::ThinkingDelta { .. } => "thinking.delta",
        NormalizedEvent::ReasoningDelta { .. } => "reasoning.delta",
        NormalizedEvent::CitationAdded(..) => "citation.added",
        NormalizedEvent::MemoryUpdate { .. } => "memory.update",
        NormalizedEvent::ToolCallDelta { .. } => "tool_call.delta",
        NormalizedEvent::ToolCallComplete { .. } => "tool_call.complete",
        NormalizedEvent::ToolResult { .. } => "tool_result",
        NormalizedEvent::Usage { .. } => "usage",
        NormalizedEvent::Error { .. } => "error",
        NormalizedEvent::Done => "done",
    }
}

/// The AG-UI event name of an event.
pub open spec fn agui_name_of(evt: NormalizedEvent) -> Seq<char> {
    match evt {
        NormalizedEvent::StreamStart { .. } => "agui.stream.start"@,
        NormalizedEvent::MessageDelta { .. } => "agui.message.delta"@,
        NormalizedEvent::ThinkingDelta { .. } => "agui.thinking.delta"@,
        NormalizedEvent::ReasoningDelta { .. } => "agui.reasoning.delta"@,
        NormalizedEvent::CitationAdded(..) => "agui.citation.added"@,
        NormalizedEvent::MemoryUpdate { .. } => "agui.memory.update"@,
        NormalizedEvent::ToolCallDelta { .. } => "agui.tool_call.delta"@,
        NormalizedEvent::ToolCallComplete { .. } => "agui.tool_call.complete"@,
        NormalizedEvent::ToolResult { .. } => "agui.tool_result"@,
        NormalizedEvent::Usage { .. } => "agui.usage"@,
        NormalizedEvent::Error { .. } => "agui.error"@,
        NormalizedEvent::Done => "agui.done"@,
    }
}

/// Get the AG-UI event name for an event.
pub fn agui_event_name(evt: &NormalizedEvent) -> (r: &'static str)
    ensures
        r@ == agui_name_of(*evt),
{
    match evt {
        NormalizedEvent::StreamStart { .. } => "agui.stream.start",
        NormalizedEvent::MessageDelta { .. } => "agui.message.delta",
        NormalizedEvent::ThinkingDelta { .. } => "agui.thinking.delta",
        NormalizedEvent::ReasoningDelta { .. } => "agui.reasoning.delta",
        NormalizedEvent::CitationAdded(..) => "agui.citation.added",
        NormalizedEvent::MemoryUpdate { .. } => "agui.memory.update",
        NormalizedEvent::ToolCallDelta { .. } => "agui.tool_call.delta",
        NormalizedEvent::ToolCallComplete { .. } => "agui.tool_call.complete",
        NormalizedEvent::ToolResult { .. } => "agui.tool_result",
        NormalizedEvent::Usage { .. } => "agui.usage",
        NormalizedEvent::Error { .. } => "agui.error",
        NormalizedEvent::Done => "agui.done",
    }
}

/// One SSE event: an `event:` line, a `data:` line and a blank line.
pub open spec fn sse_frame(name: Seq<char>, json: Seq<char>) -> Seq<char> {
    "event: "@ + name + "\ndata: "@ + json + "\n\n"@
}

/// Frame a named event and its JSON payload as SSE.
pub fn frame(name: &str, json: &str) -> (r: String)
    ensures
        r@ == sse_frame(name@, json@),
{
    let a = concat("event: ", name);
    let b = concat(a.as_str(), "\ndata: ");
    let c = concat(b.as_str(), json);
    let d = concat(c.as_str(), "\n\n");
    assert(d@ =~= sse_frame(name@, json@));
    d
}

/// Convert an event to an SSE string, given its normalized JSON serialization
/// (`{"type": <event name>, "data": <fields>}`), which the host produces.
pub fn sse_event(evt: &NormalizedEvent, json: &str) -> (r: String)
    ensures
        r@ == sse_frame(event_name_of(*evt), json@),
{
    frame(event_name(evt), json)
}

/// How `serde_json` writes one character inside a string literal: the quote
/// and backslash escaped, the short escapes for backspace, form feed,
/// newline, carriage return and tab, other control characters below U+0020
/// as `\u00` and two lowercase hex digits, and every other character as is.
pub open spec fn json_escape(c: char) -> Seq<char> {
    if c == '"' {
        seq!['\\', '"']
    } else if c == '\\' {
        seq!['\\', '\\']
    } else if c == '\u{8}' {
        seq!['\\', 'b']
    } else if c == '\u{c}' {
        seq!['\\', 'f']
    } else if c == '\n' {
        seq!['\\', 'n']
    } else if c == '\r' {
        seq!['\\', 'r']
    } else if c == '\t' {
        seq!['\\', 't']
    } else if (c as u32) < 0x20 {
        seq!['\\', 'u', '0', '0', hex_digit(((c as u32) / 16) as u8), hex_digit(((c as u32) % 16) as u8)]
    } else {
        seq![c]
    }
}

/// Every character of a text, escaped.
pub open spec fn json_escaped(s: Seq<char>) -> Seq<char>
    decreases s.len(),
{
    if s.len() == 0 {
        Seq::empty()
    } else {
        json_escaped(s.drop_last()) + json_escape(s.last())
    }
}

/// What `serde_json` writes for a string: the escaped text in double quotes.
#[verifier::opaque]
pub open spec fn json_quoted(s: Seq<char>) -> Seq<char> {
    seq!['"'] + json_escaped(s) + seq!['"']
}

/// Calls `serde_json::to_string` on a string slice, which yields its quoted,
/// escaped JSON literal, as `format_escaped_str` writes it. Serializing a
/// string cannot fail.
#[verifier::external_body]
pub fn json_string(s: &str) -> (r: String)
    ensures
        r@ == json_quoted(s@),
{
    match serde_json::to_string(s) {
        Ok(text) => text,
        Err(_) => String::new(),
    }
}

/// The decimal digit for `d < 10`.
pub open spec fn digit(d: nat) -> char {
    if d == 0 { '0' } else if d == 1 { '1' } else if d == 2 { '2' } else if d == 3 { '3' } else if d == 4 { '4' }
    else if d == 5 { '5' } else if d == 6 { '6' } else if d == 7 { '7' } else if d == 8 { '8' } else { '9' }
}

/// Decimal notation of a natural number, without leading zeros.
pub open spec fn decimal_text(n: nat) -> Seq<char>
    decreases n,
{
    if n < 10 {
        seq![digit(n)]
    } else {
        decimal_text(n / 10).push(digit(n % 10))
    }
}

fn digit_char(d: u64) -> (r: char)
    requires
        d < 10,
    ensures
        r == digit(d as nat),
{
    if d == 0 { '0' } else if d == 1 { '1' } else if d == 2 { '2' } else if d == 3 { '3' } else if d == 4 { '4' }
    else if d == 5 { '5' } else if d == 6 { '6' } else if d == 7 { '7' } else if d == 8 { '8' } else { '9' }
}

/// Decimal notation of an unsigned number, as JSON writes integers.
pub fn decimal(n: u64) -> (r: String)
    ensures
        r@ == decimal_text(n as nat),
    decreases n,
{
    if n < 10 {
        let mut s = String::new();
        crate::text::push_char(&mut s, digit_char(n));
        assert(s@ =~= decimal_text(n as nat));
        s
    } else {
        let mut s = decimal(n / 10);
        crate::text::push_char(&mut s, digit_char(n % 10));
        s
    }
}

/// `"key":value`.
pub open spec fn field_text(key: Seq<char>, value: Seq<char>) -> Seq<char> {
    seq!['"'] + key + seq!['"', ':'] + value
}

/// The members joined with commas.
pub open spec fn joined(members: Seq<Seq<char>>) -> Seq<char>
    decreases members.len(),
{
    if members.len() == 0 {
        Seq::empty()
    } else if members.len() == 1 {
        members[0]
    } else {
        joined(members.drop_last()) + seq![','] + members.last()
    }
}

/// A JSON object of already rendered members.
pub open spec fn object_text(members: Seq<Seq<char>>) -> Seq<char> {
    seq!['{'] + joined(members) + seq!['}']
}

/// JSON `null` or a quoted string.
pub open spec fn optional_text(o: Option<Seq<char>>) -> Seq<char> {
    match o {
        Some(s) => json_quoted(s),
        None => "null"@,
    }
}

pub open spec fn bool_text(b: bool) -> Seq<char> {
    if b { "true"@ } else { "false"@ }
}

pub open spec fn opt_view(o: Option<String>) -> Option<Seq<char>> {
    match o {
        Some(s) => Some(s@),
        None => None,
    }
}

fn field(key: &str, value: &str) -> (r: String)
    ensures
        r@ == field_text(key@, value@),
{
    let mut s = String::new();
    crate::text::push_char(&mut s, '"');
    let s = concat(s.as_str(), key);
    let mut s = s;
    crate::text::push_char(&mut s, '"');
    crate::text::push_char(&mut s, ':');
    let s = concat(s.as_str(), value);
    assert(s@ =~= field_text(key@, value@));
    s
}

fn object(members: &Vec<String>) -> (r: String)
    ensures
        r@ == object_text(crate::text::views(members@)),
{
    let ghost mv = crate::text::views(members@);
    let mut body = String::new();
    let mut i: usize = 0;
    assert(body@ =~= joined(mv.subrange(0, 0)));
    while i < members.len()
        invariant
            mv == crate::text::views(members@),
            i <= mv.len(),
            body@ == joined(mv.subrange(0, i as int)),
        decreases members.len() - i,
    {
        let ghost pre = mv.subrange(0, i + 1);
        assert(pre.drop_last() =~= mv.subrange(0, i as int));
        assert(pre.last() == members@[i as int]@);
        if i > 0 {
            crate::text::push_char(&mut body, ',');
        }
        body = concat(body.as_str(), members[i].as_str());
        proof {
            if i == 0 {
                assert(body@ =~= joined(pre));
            } else {
                assert(body@ =~= joined(pre));
            }
        }
        i = i + 1;
    }
    assert(mv.subrange(0, mv.len() as int) =~= mv);
    let mut out = String::new();
    crate::text::push_char(&mut out, '{');
    let mut out = concat(out.as_str(), body.as_str());
    crate::text::push_char(&mut out, '}');
    assert(out@ =~= object_text(mv));
    out
}

fn optional(o: &Option<String>) -> (r: String)
    ensures
        r@ == optional_text(opt_view(*o)),
{
    match o {
        Some(s) => json_string(s.as_str()),
        None => owned("null"),
    }
}

fn boolean(b: bool) -> (r: String)
    ensures
        r@ == bool_text(b),
{
    if b {
        owned("true")
    } else {
        owned("false")
    }
}

/// A citation as a JSON object, absent options omitted.
pub open spec fn citation_text(c: Citation) -> Seq<char> {
    object_text(
        seq![field_text("index"@, decimal_text(c.index as nat))] + (match c.snippet {
            Some(s) => seq![field_text("snippet"@, json_quoted(s@))],
            None => Seq::empty(),
        }) + (match c.title {
            Some(t) => seq![field_text("title"@, json_quoted(t@))],
            None => Seq::empty(),
        }) + seq![field_text("url"@, json_quoted(c.url@))],
    )
}

/// A delta object of one member.
pub open spec fn delta_text(key: Seq<char>, value: Seq<char>) -> Seq<char> {
    object_text(seq![field_text(key, value)])
}

/// The members of an event's AG-UI payload, in key order, for the request `rid`.
pub open spec fn agui_members(evt: NormalizedEvent, rid: Seq<char>) -> Seq<Seq<char>> {
    match evt {
        NormalizedEvent::StreamStart { request_id } => seq![
                field_text("kind"@, json_quoted("stream"@)),
                field_text("phase"@, json_quoted("start"@)),
                field_text("request_id"@, json_quoted(request_id@)),
        ],
        NormalizedEvent::MessageDelta { text } => seq![
                field_text("delta"@, delta_text("text"@, json_quoted(text@))),
                field_text("kind"@, json_quoted("message"@)),
                field_text("phase"@, json_quoted("delta"@)),
                field_text("request_id"@, json_quoted(rid)),
        ],
        NormalizedEvent::ThinkingDelta { text } => seq![
                field_text("delta"@, delta_text("text"@, json_quoted(text@))),
                field_text("kind"@, json_quoted("thinking"@)),
                field_text("phase"@, json_quoted("delta"@)),
                field_text("request_id"@, json_quoted(rid)),
        ],
        NormalizedEvent::ReasoningDelta { text } => seq![
                field_text("delta"@, delta_text("text"@, json_quoted(text@))),
                field_text("kind"@, json_quoted("reasoning"@)),
                field_text("phase"@, json_quoted("delta"@)),
                field_text("request_id"@, json_quoted(rid)),
        ],
        NormalizedEvent::CitationAdded(c) => seq![
                field_text("citation"@, citation_text(c)),
                field_text("kind"@, json_quoted("citation"@)),
                field_text("phase"@, json_quoted("added"@)),
                field_text("request_id"@, json_quoted(rid)),
        ],
        NormalizedEvent::MemoryUpdate { key, value, operation } => seq![
                field_text("key"@, json_quoted(key@)),
                field_text("kind"@, json_quoted("memory"@)),
                field_text("operation"@, json_quoted(operation@)),
                field_text("phase"@, json_quoted("update"@)),
                field_text("request_id"@, json_quoted(rid)),
                field_text("value"@, json_quoted(value@)),
        ],
        NormalizedEvent::ToolCallDelta { call_index, id, name, arguments_delta } => seq![
                field_text("call_index"@, decimal_text(call_index as nat)),
                field_text("delta"@, delta_text("arguments"@, optional_text(opt_view(arguments_delta)))),
                field_text("id"@, optional_text(opt_view(id))),
                field_text("kind"@, json_quoted("tool_call"@)),
                field_text("name"@, optional_text(opt_view(name))),
                field_text("phase"@, json_quoted("delta"@)),
                field_text("request_id"@, json_quoted(rid)),
        ],
        NormalizedEvent::ToolCallComplete { call_index, id, name, arguments_json } => seq![
                field_text("arguments_json"@, json_quoted(arguments_json@)),
                field_text("call_index"@, decimal_text(call_index as nat)),
                field_text("id"@, json_quoted(id@)),
                field_text("kind"@, json_quoted("tool_call"@)),
                field_text("name"@, json_quoted(name@)),
                field_text("phase"@, json_quoted("complete"@)),
                field_text("request_id"@, json_quoted(rid)),
        ],
        NormalizedEvent::ToolResult { id, name, content, success } => seq![
                field_text("content"@, json_quoted(content@)),
                field_text("id"@, json_quoted(id@)),
                field_text("kind"@, json_quoted("tool_result"@)),
                field_text("name"@, json_quoted(name@)),
                field_text("request_id"@, json_quoted(rid)),
                field_text("success"@, bool_text(success)),
        ],
        NormalizedEvent::Usage { prompt_tokens, completion_tokens, total_tokens } => seq![
                field_text("completion_tokens"@, decimal_text(completion_tokens as nat)),
                field_text("kind"@, json_quoted("usage"@)),
                field_text("prompt_tokens"@, decimal_text(prompt_tokens as nat)),
                field_text("request_id"@, json_quoted(rid)),
                field_text("total_tokens"@, decimal_text(total_tokens as nat)),
        ],
        NormalizedEvent::Error { message, code } => seq![
                field_text("code"@, optional_text(opt_view(code))),
                field_text("kind"@, json_quoted("error"@)),
                field_text("message"@, json_quoted(message@)),
                field_text("request_id"@, json_quoted(rid)),
        ],
        NormalizedEvent::Done => seq![field_text("kind"@, json_quoted("done"@)), field_text("request_id"@, json_quoted(rid))],
    }
}

/// The AG-UI payload of an event, for the request `rid`.
pub open spec fn agui_payload(evt: NormalizedEvent, rid: Seq<char>) -> Seq<char> {
    object_text(agui_members(evt, rid))
}

fn quoted_field(key: &str, value: &str) -> (r: String)
    ensures
        r@ == field_text(key@, json_quoted(value@)),
{
    let q = json_string(value);
    field(key, q.as_str())
}

fn citation_json(c: &Citation) -> (r: String)
    ensures
        r@ == citation_text(*c),
{
    let index = decimal(c.index as u64);
    let mut members: Vec<String> = Vec::new();
    members.push(field("index", index.as_str()));
    match &c.snippet {
        Some(s) => members.push(quoted_field("snippet", s.as_str())),
        None => {},
    }
    match &c.title {
        Some(t) => members.push(quoted_field("title", t.as_str())),
        None => {},
    }
    members.push(quoted_field("url", c.url.as_str()));
    let r = object(&members);
    assert(crate::text::views(members@) =~= seq![field_text("index"@, decimal_text(c.index as nat))] + (match c.snippet {
        Some(s) => seq![field_text("snippet"@, json_quoted(s@))],
        None => Seq::empty(),
    }) + (match c.title {
        Some(t) => seq![field_text("title"@, json_quoted(t@))],
        None => Seq::empty(),
    }) + seq![field_text("url"@, json_quoted(c.url@))]);
    r
}

fn delta_json(key: &str, value: &str) -> (r: String)
    ensures
        r@ == delta_text(key@, value@),
{
    let members = vec![field(key, value)];
    assert(crate::text::views(members@) =~= seq![field_text(key@, value@)]);
    object(&members)
}

/// The AG-UI payload of an event, as JSON text.
pub fn agui_payload_json(evt: &NormalizedEvent, rid: &str) -> (r: String)
    ensures
        r@ == agui_payload(*evt, rid@),
{
    let members: Vec<String> = match evt {
        NormalizedEvent::StreamStart { request_id } => vec![
            quoted_field("kind", "stream"),
            quoted_field("phase", "start"),
            quoted_field("request_id", request_id.as_str()),
        ],
        NormalizedEvent::MessageDelta { text } => {
            let d = delta_json("text", json_string(text.as_str()).as_str());
            vec![
                field("delta", d.as_str()),
                quoted_field("kind", "message"),
                quoted_field("phase", "delta"),
                quoted_field("request_id", rid),
            ]
        },
        NormalizedEvent::ThinkingDelta { text } => {
            let d = delta_json("text", json_string(text.as_str()).as_str());
            vec![
                field("delta", d.as_str()),
                quoted_field("kind", "thinking"),
                quoted_field("phase", "delta"),
                quoted_field("request_id", rid),
            ]
        },
        NormalizedEvent::ReasoningDelta { text } => {
            let d = delta_json("text", json_string(text.as_str()).as_str());
            vec![
                field("delta", d.as_str()),
                quoted_field("kind", "reasoning"),
                quoted_field("phase", "delta"),
                quoted_field("request_id", rid),
            ]
        },
        NormalizedEvent::CitationAdded(c) => {
            let cj = citation_json(c);
            vec![
                field("citation", cj.as_str()),
                quoted_field("kind", "citation"),
                quoted_field("phase", "added"),
                quoted_field("request_id", rid),
            ]
        },
        NormalizedEvent::MemoryUpdate { key, value, operation } => vec![
            quoted_field("key", key.as_str()),
            quoted_field("kind", "memory"),
            quoted_field("operation", operation.as_str()),
            quoted_field("phase", "update"),
            quoted_field("request_id", rid),
            quoted_field("value", value.as_str()),
        ],
        NormalizedEvent::ToolCallDelta { call_index, id, name, arguments_delta } => {
            let ci = decimal(*call_index as u64);
            let d = delta_json("arguments", optional(arguments_delta).as_str());
            vec![
                field("call_index", ci.as_str()),
                field("delta", d.as_str()),
                field("id", optional(id).as_str()),
                quoted_field("kind", "tool_call"),
                field("name", optional(name).as_str()),
                quoted_field("phase", "delta"),
                quoted_field("request_id", rid),
            ]
        },
        NormalizedEvent::ToolCallComplete { call_index, id, name, arguments_json } => {
            let ci = decimal(*call_index as u64);
            vec![
                quoted_field("arguments_json", arguments_json.as_str()),
                field("call_index", ci.as_str()),
                quoted_field("id", id.as_str()),
                quoted_field("kind", "tool_call"),
                quoted_field("name", name.as_str()),
                quoted_field("phase", "complete"),
                quoted_field("request_id", rid),
            ]
        },
        NormalizedEvent::ToolResult { id, name, content, success } => vec![
            quoted_field("content", content.as_str()),
            quoted_field("id", id.as_str()),
            quoted_field("kind", "tool_result"),
            quoted_field("name", name.as_str()),
            quoted_field("request_id", rid),
            field("success", boolean(*success).as_str()),
        ],
        NormalizedEvent::Usage { prompt_tokens, completion_tokens, total_tokens } => vec![
            field("completion_tokens", decimal(*completion_tokens as u64).as_str()),
            quoted_field("kind", "usage"),
            field("prompt_tokens", decimal(*prompt_tokens as u64).as_str()),
            quoted_field("request_id", rid),
            field("total_tokens", decimal(*total_tokens as u64).as_str()),
        ],
        NormalizedEvent::Error { message, code } => vec![
            field("code", optional(code).as_str()),
            quoted_field("kind", "error"),
            quoted_field("message", message.as_str()),
            quoted_field("request_id", rid),
        ],
        NormalizedEvent::Done => vec![quoted_field("kind", "done"), quoted_field("request_id", rid)],
    };
    assert(crate::text::views(members@) =~= agui_members(*evt, rid@));
    object(&members)
}

/// Convert an event to an AG-UI compatible SSE event.
pub fn agui_sse_event(evt: &NormalizedEvent, request_id: &str) -> (r: String)
    ensures
        r@ == sse_frame(agui_name_of(*evt), agui_payload(*evt, request_id@)),
{
    let payload = agui_payload_json(evt, request_id);
    frame(agui_event_name(evt), payload.as_str())
}

/// Emit both normalized and AG-UI events for a single event, given the
/// event's normalized JSON serialization.
pub fn dual_sse_event(evt: &NormalizedEvent, request_id: &str, json: &str) -> (r: String)
    ensures
        r@ == sse_frame(event_name_of(*evt), json@) + sse_frame(agui_name_of(*evt), agui_payload(*evt, request_id@)),
{
    let normalized = sse_event(evt, json);
    let agui = agui_sse_event(evt, request_id);
    concat(normalized.as_str(), agui.as_str())
}

/// The request an AG-UI payload names: the stream's own id for a stream
/// start, else the request the frame is sent for.
pub open spec fn agui_request_id(evt: NormalizedEvent, rid: Seq<char>) -> Seq<char> {
    match evt {
        NormalizedEvent::StreamStart { request_id } => request_id@,
        _ => rid,
    }
}

/// Every AG-UI payload carries a `request_id` member: the request the frame
/// is sent for, except that a stream start keeps its own id.
pub proof fn law_agui_payloads_name_their_request(evt: NormalizedEvent, rid: Seq<char>)
    ensures
        agui_members(evt, rid).contains(field_text("request_id"@, json_quoted(agui_request_id(evt, rid)))),
{
    let m = agui_members(evt, rid);
    let f = field_text("request_id"@, json_quoted(agui_request_id(evt, rid)));
    match evt {
        NormalizedEvent::StreamStart { .. } => assert(m[2] == f),
        NormalizedEvent::MessageDelta { .. } => assert(m[3] == f),
        NormalizedEvent::ThinkingDelta { .. } => assert(m[3] == f),
        NormalizedEvent::ReasoningDelta { .. } => assert(m[3] == f),
        NormalizedEvent::CitationAdded(_) => assert(m[3] == f),
        NormalizedEvent::MemoryUpdate { .. } => assert(m[4] == f),
        NormalizedEvent::ToolCallDelta { .. } => assert(m[6] == f),
        NormalizedEvent::ToolCallComplete { .. } => assert(m[6] == f),
        NormalizedEvent::ToolResult { .. } => assert(m[4] == f),
        NormalizedEvent::Usage { .. } => assert(m[3] == f),
        NormalizedEvent::Error { .. } => assert(m[3] == f),
        NormalizedEvent::Done => assert(m[1] == f),
    }
}


/// Every AG-UI event name is the plain event name under the `agui.` prefix.
pub proof fn law_agui_names_prefix_event_names(evt: NormalizedEvent)
    ensures
        agui_name_of(evt) == "agui."@ + event_name_of(evt),
{
    reveal_strlit("agui.");
    match evt {
        NormalizedEvent::StreamStart { .. } => {
            reveal_strlit("agui.stream.start");
            reveal_strlit("stream.start");
        },
        NormalizedEvent::MessageDelta { .. } => {
            reveal_strlit("agui.message.delta");
            reveal_strlit("message.delta");
        },
        NormalizedEvent::ThinkingDelta { .. } => {
            reveal_strlit("agui.thinking.delta");
            reveal_strlit("thinking.delta");
        },
        NormalizedEvent::ReasoningDelta { .. } => {
            reveal_strlit("agui.reasoning.delta");
            reveal_strlit("reasoning.delta");
        },
        NormalizedEvent::CitationAdded(..) => {
            reveal_strlit("agui.citation.added");
            reveal_strlit("citation.added");
        },
        NormalizedEvent::MemoryUpdate { .. } => {
            reveal_strlit("agui.memory.update");
            reveal_strlit("memory.update");
        },
        NormalizedEvent::ToolCallDelta { .. } => {
            reveal_strlit("agui.tool_call.delta");
            reveal_strlit("tool_call.delta");
        },
        NormalizedEvent::ToolCallComplete { .. } => {
            reveal_strlit("agui.tool_call.complete");
            reveal_strlit("tool_call.complete");
        },
        NormalizedEvent::ToolResult { .. } => {
            reveal_strlit("agui.tool_result");
            reveal_strlit("tool_result");
        },
        NormalizedEvent::Usage { .. } => {
            reveal_strlit("agui.usage");
            reveal_strlit("usage");
        },
        NormalizedEvent::Error { .. } => {
            reveal_strlit("agui.error");
            reveal_strlit("error");
        },
        NormalizedEvent::Done => {
            reveal_strlit("agui.done");
            reveal_strlit("done");
        },
    }
    assert(agui_name_of(evt) =~= "agui."@ + event_name_of(evt));
}

/// The number a text of decimal digits denotes.
pub open spec fn decimal_value(s: Seq<char>) -> int
    decreases s.len(),
{
    if s.len() == 0 {
        0
    } else {
        decimal_value(s.drop_last()) * 10 + ((s.last() as int) - ('0' as int))
    }
}

proof fn lemma_digit_value(d: nat)
    requires
        d < 10,
    ensures
        (digit(d) as int) - ('0' as int) == d,
        '0' <= digit(d) <= '9',
{
}

/// Decimal notation reads back as the number it was written for, and has
/// no leading zero except for zero itself.
pub proof fn law_decimal_text_reads_back(n: nat)
    ensures
        decimal_value(decimal_text(n)) == n,
        decimal_text(n).len() >= 1,
        decimal_text(n)[0] == '0' ==> n == 0,
        forall|k: int| 0 <= k < decimal_text(n).len() ==> '0' <= #[trigger] decimal_text(n)[k] <= '9',
    decreases n,
{
    if n < 10 {
        lemma_digit_value(n);
        assert(decimal_text(n).drop_last() =~= Seq::<char>::empty());
        assert(decimal_value(Seq::<char>::empty()) == 0);
        assert(decimal_text(n).last() == digit(n));
    } else {
        lemma_digit_value(n % 10);
        law_decimal_text_reads_back(n / 10);
        let p = decimal_text(n / 10);
        assert(decimal_text(n).drop_last() =~= p);
        assert(decimal_text(n)[0] == p[0]);
        assert(decimal_text(n).last() == digit(n % 10));
        assert(decimal_value(decimal_text(n)) == decimal_value(p) * 10 + (n % 10) as int);
        assert(n == (n / 10) * 10 + n % 10);
        assert forall|k: int| 0 <= k < decimal_text(n).len() implies '0' <= #[trigger] decimal_text(n)[k] <= '9' by {
            if k < p.len() {
                assert(decimal_text(n)[k] == p[k]);
            }
        }
    }
}

/// Text without quotes, backslashes or control characters is written into
/// a JSON string unchanged.
pub proof fn law_plain_text_needs_no_escapes(s: Seq<char>)
    requires
        forall|k: int| 0 <= k < s.len() ==> #[trigger] s[k] != '"' && s[k] != '\\' && (s[k] as u32) >= 0x20,
    ensures
        json_escaped(s) == s,
    decreases s.len(),
{
    if s.len() > 0 {
        assert forall|k: int| 0 <= k < s.drop_last().len() implies #[trigger] s.drop_last()[k] != '"' && s.drop_last()[k] != '\\'
            && (s.drop_last()[k] as u32) >= 0x20 by {
            assert(s.drop_last()[k] == s[k]);
        }
        law_plain_text_needs_no_escapes(s.drop_last());
        let c = s.last();
        assert(s[s.len() - 1] == c);
        assert(json_escape(c) == seq![c]);
        assert(s =~= s.drop_last() + seq![c]);
    }
}

} // verus!
