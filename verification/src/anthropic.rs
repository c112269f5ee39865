//! Converting the messages of an Anthropic Messages request into OpenAI chat
//! messages: system prompts, assistant text with tool calls, user text and
//! images, and tool results.

use vstd::prelude::*;

use crate::ids::{ascii_lower, v4_bytes};
use crate::mcp::digest::hex;
use crate::server::{ensure_toolu_id, toolu_of};
use crate::text::{chars_of, concat, is_blank, owned, push_char, str_eq, trimmed};

verus! {

/// The string fields of an image block's `source` object.
pub struct ImageSource {
    pub source_type: Option<String>,
    pub media_type: Option<String>,
    pub data: Option<String>,
    pub url: Option<String>,
}

/// One element of a tool result given as a list: an object with a string
/// `text` field, a bare string, or any other value.
pub enum ResultPart {
    Text(String),
    Plain(String),
    Other,
}

/// The `content` of a tool-result block: a string; a list of parts with the
/// JSON text of the whole list; or the JSON text of any other value.
pub enum ToolResultContent {
    Text(String),
    Parts(Vec<ResultPart>, String),
    Other(String),
}

/// One content block of an Anthropic message.
pub struct AnthropicBlock {
    pub block_type: String,
    pub text: Option<String>,
    pub id: Option<String>,
    pub name: Option<String>,
    /// The JSON text of the block's `input`, where it has one.
    pub input_json: Option<String>,
    pub source: Option<ImageSource>,
    pub content: Option<ToolResultContent>,
    pub tool_use_id: Option<String>,
}

/// The content of a message or of the system prompt: a string, nothing, or
/// a list of blocks.
pub enum AnthropicContent {
    Text(String),
    Empty,
    Blocks(Vec<AnthropicBlock>),
}

/// One message of the request.
pub struct AnthropicMessage {
    pub role: String,
    pub content: AnthropicContent,
}

/// One part of an OpenAI user message.
pub enum UserPart {
    Text(String),
    /// An `image_url` part with detail `auto`.
    ImageUrl(String),
}

/// An OpenAI function call of an assistant message.
pub struct ToolCall {
    pub id: String,
    pub name: String,
    pub arguments: String,
}

/// One OpenAI chat message.
pub enum OpenAiMessage {
    System(String),
    /// Text and tool calls; no calls are written as `null`.
    Assistant(String, Vec<ToolCall>),
    /// A tool result: the call id and the text content.
    Tool(String, String),
    /// A user message of a single text part, written as a string.
    UserText(String),
    UserParts(Vec<UserPart>),
}

pub struct SourceView {
    pub source_type: Option<Seq<char>>,
    pub media_type: Option<Seq<char>>,
    pub data: Option<Seq<char>>,
    pub url: Option<Seq<char>>,
}

pub enum PartView {
    Text(Seq<char>),
    Plain(Seq<char>),
    Other,
}

pub enum ResultView {
    Text(Seq<char>),
    Parts(Seq<PartView>, Seq<char>),
    Other(Seq<char>),
}

pub struct BlockView {
    pub block_type: Seq<char>,
    pub text: Option<Seq<char>>,
    pub id: Option<Seq<char>>,
    pub name: Option<Seq<char>>,
    pub input_json: Option<Seq<char>>,
    pub source: Option<SourceView>,
    pub content: Option<ResultView>,
    pub tool_use_id: Option<Seq<char>>,
}

pub enum UserPartView {
    Text(Seq<char>),
    ImageUrl(Seq<char>),
}

/// A tool call as the conversion asks for it: `id` is the id the block gave
/// (empty where it gave none), which the result turns into a `toolu_` id.
pub struct CallView {
    pub id: Seq<char>,
    pub name: Seq<char>,
    pub arguments: Seq<char>,
}

/// An OpenAI message as the conversion asks for it; the first field of
/// `Tool` is the id that the tool-result block gave.
pub enum OpenAiView {
    System(Seq<char>),
    Assistant(Seq<char>, Seq<CallView>),
    Tool(Seq<char>, Seq<char>),
    UserText(Seq<char>),
    UserParts(Seq<UserPartView>),
}

pub open spec fn opt_seq(o: Option<String>) -> Option<Seq<char>> {
    match o {
        Some(s) => Some(s@),
        None => None,
    }
}

impl View for ImageSource {
    type V = SourceView;

    open spec fn view(&self) -> SourceView {
        SourceView {
            source_type: opt_seq(self.source_type),
            media_type: opt_seq(self.media_type),
            data: opt_seq(self.data),
            url: opt_seq(self.url),
        }
    }
}

impl View for ResultPart {
    type V = PartView;

    open spec fn view(&self) -> PartView {
        match self {
            ResultPart::Text(t) => PartView::Text(t@),
            ResultPart::Plain(t) => PartView::Plain(t@),
            ResultPart::Other => PartView::Other,
        }
    }
}

impl View for ToolResultContent {
    type V = ResultView;

    open spec fn view(&self) -> ResultView {
        match self {
            ToolResultContent::Text(t) => ResultView::Text(t@),
            ToolResultContent::Parts(ps, raw) => ResultView::Parts(ps@.map_values(|p: ResultPart| p@), raw@),
            ToolResultContent::Other(raw) => ResultView::Other(raw@),
        }
    }
}

impl View for AnthropicBlock {
    type V = BlockView;

    open spec fn view(&self) -> BlockView {
        BlockView {
            block_type: self.block_type@,
            text: opt_seq(self.text),
            id: opt_seq(self.id),
            name: opt_seq(self.name),
            input_json: opt_seq(self.input_json),
            source: match self.source {
                Some(s) => Some(s@),
                None => None,
            },
            content: match self.content {
                Some(c) => Some(c@),
                None => None,
            },
            tool_use_id: opt_seq(self.tool_use_id),
        }
    }
}

impl View for UserPart {
    type V = UserPartView;

    open spec fn view(&self) -> UserPartView {
        match self {
            UserPart::Text(t) => UserPartView::Text(t@),
            UserPart::ImageUrl(u) => UserPartView::ImageUrl(u@),
        }
    }
}

/// Two texts joined by a line break, or the second alone after an empty first.
pub open spec fn append_line(text: Seq<char>, part: Seq<char>) -> Seq<char> {
    if text.len() == 0 {
        part
    } else {
        text + seq!['\n'] + part
    }
}

pub open spec fn or_text(o: Option<Seq<char>>, default: Seq<char>) -> Seq<char> {
    match o {
        Some(s) => s,
        None => default,
    }
}

/// The texts of a tool result's parts, one per line; parts without text
/// are skipped.
pub open spec fn parts_text(parts: Seq<PartView>) -> Seq<char>
    decreases parts.len(),
{
    if parts.len() == 0 {
        Seq::empty()
    } else {
        let prev = parts_text(parts.drop_last());
        match parts.last() {
            PartView::Text(t) => append_line(prev, t),
            PartView::Plain(t) => append_line(prev, t),
            PartView::Other => prev,
        }
    }
}

/// The text of a tool result: a string as it is, the lines of a list's
/// texts (the list's JSON where it has none), or another value's JSON.
pub open spec fn result_text(content: Option<ResultView>) -> Seq<char> {
    match content {
        None => Seq::empty(),
        Some(ResultView::Text(s)) => s,
        Some(ResultView::Parts(ps, raw)) => if parts_text(ps).len() == 0 {
            raw
        } else {
            parts_text(ps)
        },
        Some(ResultView::Other(raw)) => raw,
    }
}

/// The URL of an image block: a `data:` URL for a base64 source (PNG where
/// no media type is given; none without data), else the source's `url`.
pub open spec fn image_url(source: Option<SourceView>) -> Option<Seq<char>> {
    match source {
        None => None,
        Some(s) => if or_text(s.source_type, Seq::empty()) == "base64"@ {
            match s.data {
                Some(d) => Some("data:"@ + or_text(s.media_type, "image/png"@) + ";base64,"@ + d),
                None => None,
            }
        } else {
            s.url
        },
    }
}

/// The block a plain-text content stands for.
pub open spec fn text_block(t: Seq<char>) -> BlockView {
    BlockView {
        block_type: "text"@,
        text: Some(t),
        id: None,
        name: None,
        input_json: None,
        source: None,
        content: None,
        tool_use_id: None,
    }
}

/// The blocks of a content: one text block for a string.
pub open spec fn content_blocks(c: AnthropicContent) -> Seq<BlockView> {
    match c {
        AnthropicContent::Text(t) => seq![text_block(t@)],
        AnthropicContent::Empty => Seq::empty(),
        AnthropicContent::Blocks(bs) => bs@.map_values(|b: AnthropicBlock| b@),
    }
}

/// An assistant turn's text (its non-empty text blocks, one per line) and
/// its tool calls (named `tool` and with arguments `{}` where not given).
pub open spec fn assistant_fold(blocks: Seq<BlockView>) -> (Seq<char>, Seq<CallView>)
    decreases blocks.len(),
{
    if blocks.len() == 0 {
        (Seq::empty(), Seq::empty())
    } else {
        let (text, calls) = assistant_fold(blocks.drop_last());
        let b = blocks.last();
        if b.block_type == "text"@ {
            match b.text {
                Some(p) => if p.len() > 0 {
                    (append_line(text, p), calls)
                } else {
                    (text, calls)
                },
                None => (text, calls),
            }
        } else if b.block_type == "tool_use"@ {
            (text, calls.push(CallView {
                id: or_text(b.id, Seq::empty()),
                name: or_text(b.name, "tool"@),
                arguments: or_text(b.input_json, "{}"@),
            }))
        } else {
            (text, calls)
        }
    }
}

/// An assistant turn gives one message where it has text or tool calls.
pub open spec fn assistant_out(blocks: Seq<BlockView>) -> Seq<OpenAiView> {
    let (text, calls) = assistant_fold(blocks);
    if text.len() > 0 || calls.len() > 0 {
        seq![OpenAiView::Assistant(text, calls)]
    } else {
        Seq::empty()
    }
}

/// The text of a lone text part.
pub open spec fn lone_text(parts: Seq<UserPartView>) -> Option<Seq<char>> {
    if parts.len() == 1 {
        match parts[0] {
            UserPartView::Text(t) => Some(t),
            UserPartView::ImageUrl(_) => None,
        }
    } else {
        None
    }
}

/// The pending user parts closed into a message: a lone text part as a
/// string, other parts as a list, and no message for no parts.
pub open spec fn flushed(out: Seq<OpenAiView>, parts: Seq<UserPartView>) -> Seq<OpenAiView> {
    if parts.len() == 0 {
        out
    } else {
        match lone_text(parts) {
            Some(t) => out.push(OpenAiView::UserText(t)),
            None => out.push(OpenAiView::UserParts(parts)),
        }
    }
}

/// A user turn read block by block: the messages so far and the parts not
/// yet closed. A tool result closes the pending parts and follows them.
pub open spec fn user_fold(blocks: Seq<BlockView>) -> (Seq<OpenAiView>, Seq<UserPartView>)
    decreases blocks.len(),
{
    if blocks.len() == 0 {
        (Seq::empty(), Seq::empty())
    } else {
        let (out, parts) = user_fold(blocks.drop_last());
        let b = blocks.last();
        if b.block_type == "image"@ {
            match image_url(b.source) {
                Some(u) => (out, parts.push(UserPartView::ImageUrl(u))),
                None => (out, parts),
            }
        } else if b.block_type == "tool_result"@ {
            (
                flushed(out, parts).push(OpenAiView::Tool(or_text(b.tool_use_id, Seq::empty()), result_text(b.content))),
                Seq::empty(),
            )
        } else {
            match b.text {
                Some(t) => (out, parts.push(UserPartView::Text(t))),
                None => (out, parts),
            }
        }
    }
}

pub open spec fn user_out(blocks: Seq<BlockView>) -> Seq<OpenAiView> {
    flushed(user_fold(blocks).0, user_fold(blocks).1)
}

/// The texts of the text blocks, one per line.
pub open spec fn system_text(blocks: Seq<BlockView>) -> Seq<char>
    decreases blocks.len(),
{
    if blocks.len() == 0 {
        Seq::empty()
    } else {
        let prev = system_text(blocks.drop_last());
        let b = blocks.last();
        if b.block_type == "text"@ && b.text is Some {
            append_line(prev, b.text.unwrap())
        } else {
            prev
        }
    }
}

pub open spec fn system_out(blocks: Seq<BlockView>) -> Seq<OpenAiView> {
    if system_text(blocks).len() > 0 {
        seq![OpenAiView::System(system_text(blocks))]
    } else {
        Seq::empty()
    }
}

/// The messages of one request message, by its role in any ASCII case;
/// a role other than assistant, user and system gives none.
pub open spec fn message_out(m: AnthropicMessage) -> Seq<OpenAiView> {
    let role = m.role@.map_values(|c: char| ascii_lower(c));
    let blocks = content_blocks(m.content);
    if role == "assistant"@ {
        assistant_out(blocks)
    } else if role == "user"@ {
        user_out(blocks)
    } else if role == "system"@ {
        system_out(blocks)
    } else {
        Seq::empty()
    }
}

/// One system message per text block of the request's system prompt.
pub open spec fn prelude(blocks: Seq<BlockView>) -> Seq<OpenAiView>
    decreases blocks.len(),
{
    if blocks.len() == 0 {
        Seq::empty()
    } else {
        let prev = prelude(blocks.drop_last());
        let b = blocks.last();
        if b.block_type == "text"@ && b.text is Some {
            prev.push(OpenAiView::System(b.text.unwrap()))
        } else {
            prev
        }
    }
}

pub open spec fn messages_out(ms: Seq<AnthropicMessage>) -> Seq<OpenAiView>
    decreases ms.len(),
{
    if ms.len() == 0 {
        Seq::empty()
    } else {
        messages_out(ms.drop_last()) + message_out(ms.last())
    }
}

/// The OpenAI messages for a system prompt and the request's messages.
pub open spec fn converted(system: Option<AnthropicContent>, messages: Seq<AnthropicMessage>) -> Seq<OpenAiView> {
    system_head(system) + messages_out(messages)
}

/// The system messages of the request's system prompt.
pub open spec fn system_head(system: Option<AnthropicContent>) -> Seq<OpenAiView> {
    match system {
        Some(s) => prelude(content_blocks(s)),
        None => Seq::empty(),
    }
}

/// A call id given for a requested one: the trimmed id with the `toolu_`
/// prefix, or a fresh `toolu_` id of random version-4 bytes for a blank one.
pub open spec fn id_for(requested: Seq<char>, given: Seq<char>) -> bool {
    if is_blank(requested) {
        exists|b: Seq<u8>| v4_bytes(b) && given == "toolu_"@ + hex(b)
    } else {
        given == toolu_of(trimmed(requested))
    }
}

pub open spec fn call_matches(c: ToolCall, e: CallView) -> bool {
    id_for(e.id, c.id@) && c.name@ == e.name && c.arguments@ == e.arguments
}

pub open spec fn calls_match(r: Seq<ToolCall>, e: Seq<CallView>) -> bool {
    r.len() == e.len() && forall|i: int| 0 <= i < r.len() ==> #[trigger] call_matches(r[i], e[i])
}

/// A message is the one asked for, its call ids given for the requested ones.
pub open spec fn message_matches(m: OpenAiMessage, e: OpenAiView) -> bool {
    match m {
        OpenAiMessage::System(s) => e == OpenAiView::System(s@),
        OpenAiMessage::Assistant(t, calls) => e matches OpenAiView::Assistant(et, ec) && t@ == et && calls_match(calls@, ec),
        OpenAiMessage::Tool(id, c) => e matches OpenAiView::Tool(req, ec) && c@ == ec && id_for(req, id@),
        OpenAiMessage::UserText(s) => e == OpenAiView::UserText(s@),
        OpenAiMessage::UserParts(ps) => e == OpenAiView::UserParts(ps@.map_values(|p: UserPart| p@)),
    }
}

pub open spec fn all_match(r: Seq<OpenAiMessage>, e: Seq<OpenAiView>) -> bool {
    r.len() == e.len() && forall|i: int| 0 <= i < r.len() ==> #[trigger] message_matches(r[i], e[i])
}

proof fn lemma_all_match_concat(a: Seq<OpenAiMessage>, x: Seq<OpenAiView>, b: Seq<OpenAiMessage>, y: Seq<OpenAiView>)
    requires
        all_match(a, x),
        all_match(b, y),
    ensures
        all_match(a + b, x + y),
{
    assert forall|i: int| 0 <= i < (a + b).len() implies #[trigger] message_matches((a + b)[i], (x + y)[i]) by {
        if i < a.len() {
            assert(message_matches(a[i], x[i]));
        } else {
            assert(message_matches(b[i - a.len()], y[i - a.len()]));
        }
    }
}

/// The string in ASCII lowercase.
fn ascii_lowercase(s: &str) -> (r: String)
    ensures
        r@ == s@.map_values(|c: char| ascii_lower(c)),
{
    let v = chars_of(s);
    let mut out = String::new();
    let mut i: usize = 0;
    while i < v.len()
        invariant
            v@ == s@,
            i <= v.len(),
            out@ == s@.subrange(0, i as int).map_values(|c: char| ascii_lower(c)),
        decreases v.len() - i,
    {
        let c = v[i];
        let l = if 'A' <= c && c <= 'Z' {
            ((c as u32 + 32) as u8) as char
        } else {
            c
        };
        push_char(&mut out, l);
        assert(s@.subrange(0, i + 1).map_values(|c: char| ascii_lower(c)) =~= s@.subrange(0, i as int).map_values(
            |c: char| ascii_lower(c),
        ).push(ascii_lower(c)));
        i = i + 1;
    }
    assert(s@.subrange(0, v.len() as int) =~= s@);
    out
}

/// Appends a line to a text, with a line break unless the text is empty.
fn append_line_to(text: &mut String, part: &str)
    ensures
        final(text)@ == append_line(old(text)@, part@),
{
    if text.as_str().is_empty() {
        text.append(part);
        assert(text@ =~= part@);
    } else {
        push_char(text, '\n');
        text.append(part);
    }
}

fn copy_opt(o: &Option<String>) -> (r: Option<String>)
    ensures
        opt_seq(r) == opt_seq(*o),
{
    match o {
        Some(s) => Some(s.clone()),
        None => None,
    }
}

fn text_or(o: &Option<String>, default: &str) -> (r: String)
    ensures
        r@ == or_text(opt_seq(*o), default@),
{
    match o {
        Some(s) => s.clone(),
        None => owned(default),
    }
}

/// The URL an image block is sent as, if it has one.
fn image_part_url(source: &Option<ImageSource>) -> (r: Option<String>)
    ensures
        opt_seq(r) == image_url(
            match *source {
                Some(s) => Some(s@),
                None => None,
            },
        ),
{
    match source {
        None => None,
        Some(s) => {
            let st = text_or(&s.source_type, "");
            proof {
                reveal_strlit("");
                assert(""@ =~= Seq::<char>::empty());
                assert(st@ == or_text(s@.source_type, Seq::empty()));
            }
            if str_eq(st.as_str(), "base64") {
                match &s.data {
                    Some(d) => {
                        let media = text_or(&s.media_type, "image/png");
                        let a = concat("data:", media.as_str());
                        let b = concat(a.as_str(), ";base64,");
                        Some(concat(b.as_str(), d.as_str()))
                    },
                    None => None,
                }
            } else {
                copy_opt(&s.url)
            }
        },
    }
}

/// The text of a tool result's content.
fn tool_result_content_text(content: &Option<ToolResultContent>) -> (r: String)
    ensures
        r@ == result_text(
            match *content {
                Some(c) => Some(c@),
                None => None,
            },
        ),
{
    match content {
        None => String::new(),
        Some(ToolResultContent::Text(t)) => t.clone(),
        Some(ToolResultContent::Other(raw)) => raw.clone(),
        Some(ToolResultContent::Parts(parts, raw)) => {
            let ghost pv = parts@.map_values(|p: ResultPart| p@);
            let mut text = String::new();
            let mut i: usize = 0;
            while i < parts.len()
                invariant
                    pv == parts@.map_values(|p: ResultPart| p@),
                    i <= parts.len(),
                    text@ == parts_text(pv.take(i as int)),
                decreases parts.len() - i,
            {
                assert(pv.take(i + 1).drop_last() =~= pv.take(i as int));
                match &parts[i] {
                    ResultPart::Text(t) => append_line_to(&mut text, t.as_str()),
                    ResultPart::Plain(t) => append_line_to(&mut text, t.as_str()),
                    ResultPart::Other => {},
                }
                i = i + 1;
            }
            assert(pv.take(parts.len() as int) =~= pv);
            if text.as_str().is_empty() {
                raw.clone()
            } else {
                text
            }
        },
    }
}

pub open spec fn blocks_view(bs: Seq<AnthropicBlock>) -> Seq<BlockView> {
    bs.map_values(|b: AnthropicBlock| b@)
}

/// The `toolu_` id for the id a block gave, if any.
fn call_id(requested: &Option<String>) -> (r: String)
    ensures
        id_for(or_text(opt_seq(*requested), Seq::empty()), r@),
{
    match requested {
        Some(id) => ensure_toolu_id(id.as_str()),
        None => {
            proof {
                reveal_strlit("");
                assert(""@ =~= Seq::<char>::empty());
            }
            ensure_toolu_id("")
        },
    }
}

/// The message of an assistant turn, if it has text or tool calls.
fn assistant_messages(blocks: &Vec<AnthropicBlock>) -> (r: Vec<OpenAiMessage>)
    ensures
        all_match(r@, assistant_out(blocks_view(blocks@))),
{
    let ghost bv = blocks_view(blocks@);
    let mut text = String::new();
    let mut calls: Vec<ToolCall> = Vec::new();
    let mut i: usize = 0;
    while i < blocks.len()
        invariant
            bv == blocks_view(blocks@),
            i <= blocks.len(),
            text@ == assistant_fold(bv.take(i as int)).0,
            calls_match(calls@, assistant_fold(bv.take(i as int)).1),
        decreases blocks.len() - i,
    {
        assert(bv.take(i + 1).drop_last() =~= bv.take(i as int));
        let b = &blocks[i];
        let ghost before = calls@;
        if str_eq(b.block_type.as_str(), "text") {
            match &b.text {
                Some(p) => {
                    if !p.as_str().is_empty() {
                        append_line_to(&mut text, p.as_str());
                    }
                },
                None => {},
            }
        } else if str_eq(b.block_type.as_str(), "tool_use") {
            let id = call_id(&b.id);
            let name = text_or(&b.name, "tool");
            let arguments = text_or(&b.input_json, "{}");
            calls.push(ToolCall { id, name, arguments });
            let ghost want = assistant_fold(bv.take(i + 1)).1;
            assert forall|k: int| 0 <= k < calls@.len() implies #[trigger] call_matches(calls@[k], want[k]) by {
                if k < before.len() {
                    assert(call_matches(before[k], assistant_fold(bv.take(i as int)).1[k]));
                }
            }
        }
        i = i + 1;
    }
    assert(bv.take(blocks.len() as int) =~= bv);
    let mut out: Vec<OpenAiMessage> = Vec::new();
    if !text.as_str().is_empty() || calls.len() > 0 {
        out.push(OpenAiMessage::Assistant(text, calls));
    }
    out
}

pub open spec fn parts_view(ps: Seq<UserPart>) -> Seq<UserPartView> {
    ps.map_values(|p: UserPart| p@)
}

/// Closes the pending user parts into a message.
fn flush_parts(out: &mut Vec<OpenAiMessage>, parts: Vec<UserPart>, Ghost(e): Ghost<Seq<OpenAiView>>)
    requires
        all_match(old(out)@, e),
    ensures
        all_match(final(out)@, flushed(e, parts_view(parts@))),
{
    let ghost before = out@;
    if parts.len() == 0 {
        return;
    }
    if parts.len() == 1 {
        if let UserPart::Text(t) = &parts[0] {
            out.push(OpenAiMessage::UserText(t.clone()));
            assert(all_match(out@, flushed(e, parts_view(parts@)))) by {
                assert forall|k: int| 0 <= k < out@.len() implies #[trigger] message_matches(
                    out@[k],
                    flushed(e, parts_view(parts@))[k],
                ) by {
                    if k < before.len() {
                        assert(message_matches(before[k], e[k]));
                    }
                }
            }
            return;
        }
    }
    let ghost pv = parts_view(parts@);
    out.push(OpenAiMessage::UserParts(parts));
    assert(lone_text(pv) is None);
    assert forall|k: int| 0 <= k < out@.len() implies #[trigger] message_matches(out@[k], flushed(e, pv)[k]) by {
        if k < before.len() {
            assert(message_matches(before[k], e[k]));
        }
    }
}

/// The messages of a user turn.
fn user_messages(blocks: &Vec<AnthropicBlock>) -> (r: Vec<OpenAiMessage>)
    ensures
        all_match(r@, user_out(blocks_view(blocks@))),
{
    let ghost bv = blocks_view(blocks@);
    let mut out: Vec<OpenAiMessage> = Vec::new();
    let mut parts: Vec<UserPart> = Vec::new();
    let mut i: usize = 0;
    while i < blocks.len()
        invariant
            bv == blocks_view(blocks@),
            i <= blocks.len(),
            all_match(out@, user_fold(bv.take(i as int)).0),
            parts_view(parts@) == user_fold(bv.take(i as int)).1,
        decreases blocks.len() - i,
    {
        assert(bv.take(i + 1).drop_last() =~= bv.take(i as int));
        let ghost prev = user_fold(bv.take(i as int));
        let b = &blocks[i];
        if str_eq(b.block_type.as_str(), "image") {
            match image_part_url(&b.source) {
                Some(u) => {
                    parts.push(UserPart::ImageUrl(u));
                    assert(parts_view(parts@) =~= prev.1.push(UserPartView::ImageUrl(u@)));
                },
                None => {},
            }
        } else if str_eq(b.block_type.as_str(), "tool_result") {
            let mut pending: Vec<UserPart> = Vec::new();
            std::mem::swap(&mut pending, &mut parts);
            flush_parts(&mut out, pending, Ghost(prev.0));
            let ghost before = out@;
            let id = call_id(&b.tool_use_id);
            let content = tool_result_content_text(&b.content);
            out.push(OpenAiMessage::Tool(id, content));
            let ghost want = user_fold(bv.take(i + 1)).0;
            assert forall|k: int| 0 <= k < out@.len() implies #[trigger] message_matches(out@[k], want[k]) by {
                if k < before.len() {
                    assert(message_matches(before[k], flushed(prev.0, prev.1)[k]));
                }
            }
            assert(parts_view(parts@) =~= Seq::<UserPartView>::empty());
        } else {
            match &b.text {
                Some(t) => {
                    parts.push(UserPart::Text(t.clone()));
                    assert(parts_view(parts@) =~= prev.1.push(UserPartView::Text(t@)));
                },
                None => {},
            }
        }
        i = i + 1;
    }
    assert(bv.take(blocks.len() as int) =~= bv);
    flush_parts(&mut out, parts, Ghost(user_fold(bv).0));
    out
}

/// The joined text of the text blocks.
fn joined_system_text(blocks: &Vec<AnthropicBlock>) -> (r: String)
    ensures
        r@ == system_text(blocks_view(blocks@)),
{
    let ghost bv = blocks_view(blocks@);
    let mut text = String::new();
    let mut i: usize = 0;
    while i < blocks.len()
        invariant
            bv == blocks_view(blocks@),
            i <= blocks.len(),
            text@ == system_text(bv.take(i as int)),
        decreases blocks.len() - i,
    {
        assert(bv.take(i + 1).drop_last() =~= bv.take(i as int));
        let b = &blocks[i];
        if str_eq(b.block_type.as_str(), "text") {
            if let Some(p) = &b.text {
                append_line_to(&mut text, p.as_str());
            }
        }
        i = i + 1;
    }
    assert(bv.take(blocks.len() as int) =~= bv);
    text
}

/// The message of a system turn, if it has text.
fn system_messages(blocks: &Vec<AnthropicBlock>) -> (r: Vec<OpenAiMessage>)
    ensures
        all_match(r@, system_out(blocks_view(blocks@))),
{
    let text = joined_system_text(blocks);
    let mut out: Vec<OpenAiMessage> = Vec::new();
    if !text.as_str().is_empty() {
        out.push(OpenAiMessage::System(text));
    }
    out
}

/// The messages of one turn for its lowercased role.
fn turn_messages(role: &str, blocks: &Vec<AnthropicBlock>) -> (r: Vec<OpenAiMessage>)
    ensures
        all_match(
            r@,
            if role@ == "assistant"@ {
                assistant_out(blocks_view(blocks@))
            } else if role@ == "user"@ {
                user_out(blocks_view(blocks@))
            } else if role@ == "system"@ {
                system_out(blocks_view(blocks@))
            } else {
                Seq::empty()
            },
        ),
{
    if str_eq(role, "assistant") {
        assistant_messages(blocks)
    } else if str_eq(role, "user") {
        user_messages(blocks)
    } else if str_eq(role, "system") {
        system_messages(blocks)
    } else {
        Vec::new()
    }
}

/// The block a plain-text content stands for.
fn plain_text_block(t: &String) -> (r: AnthropicBlock)
    ensures
        r@ == text_block(t@),
{
    proof {
        reveal_strlit("text");
    }
    AnthropicBlock {
        block_type: owned("text"),
        text: Some(t.clone()),
        id: None,
        name: None,
        input_json: None,
        source: None,
        content: None,
        tool_use_id: None,
    }
}

/// The messages of one request message.
fn message_messages(m: &AnthropicMessage) -> (r: Vec<OpenAiMessage>)
    ensures
        all_match(r@, message_out(*m)),
{
    let role = ascii_lowercase(m.role.as_str());
    match &m.content {
        AnthropicContent::Text(t) => {
            let mut v: Vec<AnthropicBlock> = Vec::new();
            v.push(plain_text_block(t));
            assert(blocks_view(v@) =~= content_blocks(m.content));
            turn_messages(role.as_str(), &v)
        },
        AnthropicContent::Empty => {
            let v: Vec<AnthropicBlock> = Vec::new();
            assert(blocks_view(v@) =~= content_blocks(m.content));
            turn_messages(role.as_str(), &v)
        },
        AnthropicContent::Blocks(bs) => turn_messages(role.as_str(), bs),
    }
}

/// One system message per text block.
fn prelude_messages(blocks: &Vec<AnthropicBlock>) -> (r: Vec<OpenAiMessage>)
    ensures
        all_match(r@, prelude(blocks_view(blocks@))),
{
    let ghost bv = blocks_view(blocks@);
    let mut out: Vec<OpenAiMessage> = Vec::new();
    let mut i: usize = 0;
    while i < blocks.len()
        invariant
            bv == blocks_view(blocks@),
            i <= blocks.len(),
            all_match(out@, prelude(bv.take(i as int))),
        decreases blocks.len() - i,
    {
        assert(bv.take(i + 1).drop_last() =~= bv.take(i as int));
        let ghost before = out@;
        let b = &blocks[i];
        if str_eq(b.block_type.as_str(), "text") {
            if let Some(t) = &b.text {
                out.push(OpenAiMessage::System(t.clone()));
                assert forall|k: int| 0 <= k < out@.len() implies #[trigger] message_matches(
                    out@[k],
                    prelude(bv.take(i + 1))[k],
                ) by {
                    if k < before.len() {
                        assert(message_matches(before[k], prelude(bv.take(i as int))[k]));
                    }
                }
            }
        }
        i = i + 1;
    }
    assert(bv.take(blocks.len() as int) =~= bv);
    out
}

/// Converts a request's system prompt and messages into OpenAI chat
/// messages. Tool-use and tool-result ids get the `toolu_` prefix; a block
/// without an id, or with a blank one, gets a fresh random one.
pub fn convert_anthropic_messages_to_openai(system: &Option<AnthropicContent>, messages: &Vec<AnthropicMessage>) -> (r: Vec<
    OpenAiMessage,
>)
    ensures
        all_match(r@, converted(*system, messages@)),
{
    let mut out: Vec<OpenAiMessage> = match system {
        None => Vec::new(),
        Some(AnthropicContent::Text(t)) => {
            let mut v: Vec<AnthropicBlock> = Vec::new();
            v.push(plain_text_block(t));
            assert(blocks_view(v@) =~= content_blocks(system.unwrap()));
            prelude_messages(&v)
        },
        Some(AnthropicContent::Empty) => {
            assert(content_blocks(system.unwrap()) =~= Seq::<BlockView>::empty());
            Vec::new()
        },
        Some(AnthropicContent::Blocks(bs)) => prelude_messages(bs),
    };
    let ghost head = system_head(*system);
    let mut i: usize = 0;
    while i < messages.len()
        invariant
            i <= messages.len(),
            all_match(out@, head + messages_out(messages@.take(i as int))),
        decreases messages.len() - i,
    {
        assert(messages@.take(i + 1).drop_last() =~= messages@.take(i as int));
        let ghost e = head + messages_out(messages@.take(i as int));
        let mut more = message_messages(&messages[i]);
        proof {
            lemma_all_match_concat(out@, e, more@, message_out(messages@[i as int]));
            assert(e + message_out(messages@[i as int]) =~= head + messages_out(messages@.take(i + 1)));
        }
        out.append(&mut more);
        i = i + 1;
    }
    assert(messages@.take(messages.len() as int) =~= messages@);
    out
}


/// A base64 image source is sent as a `data:` URL of its own media type and
/// data; `image/png` stands in only where the source gives no media type,
/// and a source of another type is sent by its `url`.
pub proof fn law_base64_images_keep_their_media_type(m: Option<Seq<char>>, d: Seq<char>, url: Option<Seq<char>>, t: Option<Seq<char>>)
    ensures
        image_url(Some(SourceView { source_type: Some("base64"@), media_type: m, data: Some(d), url })) == Some(
            "data:"@ + (match m {
                Some(x) => x,
                None => "image/png"@,
            }) + ";base64,"@ + d,
        ),
        image_url(Some(SourceView { source_type: Some("base64"@), media_type: m, data: None, url })) is None,
        !(t matches Some(x) && x == "base64"@) ==> image_url(Some(SourceView { source_type: t, media_type: m, data: Some(d), url })) == url,
{
    reveal_strlit("base64");
    assert("base64"@.len() == 6);
}


/// A tool result's text: a string as it is; the texts of a list's parts one
/// per line, skipping parts without text; the list's own JSON when none of
/// its parts has text; another value's JSON; nothing without content.
pub proof fn law_tool_result_texts(s: Seq<char>, a: Seq<char>, b: Seq<char>, raw: Seq<char>)
    requires
        a.len() > 0,
    ensures
        result_text(None) == Seq::<char>::empty(),
        result_text(Some(ResultView::Text(s))) == s,
        result_text(Some(ResultView::Other(raw))) == raw,
        result_text(Some(ResultView::Parts(seq![PartView::Text(a), PartView::Other, PartView::Plain(b)], raw))) == a
            + seq!['\n'] + b,
        result_text(Some(ResultView::Parts(seq![PartView::Other], raw))) == raw,
        result_text(Some(ResultView::Parts(Seq::empty(), raw))) == raw,
{
    reveal_with_fuel(parts_text, 4);
    let ps = seq![PartView::Text(a), PartView::Other, PartView::Plain(b)];
    assert(ps.drop_last() =~= seq![PartView::Text(a), PartView::Other]);
    assert(ps.drop_last().drop_last() =~= seq![PartView::Text(a)]);
    assert(ps.drop_last().drop_last().drop_last() =~= Seq::<PartView>::empty());
    assert(seq![PartView::Text(a)].drop_last() =~= Seq::<PartView>::empty());
    assert(parts_text(seq![PartView::Text(a)]) == a);
    assert(parts_text(seq![PartView::Text(a), PartView::Other]) == a);
    assert(seq![PartView::Other].drop_last() =~= Seq::<PartView>::empty());
    assert(parts_text(seq![PartView::Other]) == Seq::<char>::empty());
}

/// A tool call block without a name or input is called `tool` with
/// arguments `{}`; its id is the one the block gave.
pub proof fn law_bare_tool_use_defaults(id: Option<Seq<char>>, name: Seq<char>, input: Seq<char>)
    ensures
        assistant_out(
            seq![BlockView { block_type: "tool_use"@, text: None, id, name: None, input_json: None, source: None, content: None, tool_use_id: None }],
        ) == seq![OpenAiView::Assistant(Seq::empty(), seq![CallView { id: or_text(id, Seq::empty()), name: "tool"@, arguments: "{}"@ }])],
        assistant_out(
            seq![BlockView { block_type: "tool_use"@, text: None, id, name: Some(name), input_json: Some(input), source: None, content: None, tool_use_id: None }],
        ) == seq![OpenAiView::Assistant(Seq::empty(), seq![CallView { id: or_text(id, Seq::empty()), name, arguments: input }])],
{
    reveal_with_fuel(assistant_fold, 2);
    reveal_strlit("tool_use");
    reveal_strlit("text");
    assert("tool_use"@.len() == 8);
    assert("text"@.len() == 4);
    let b1 = BlockView { block_type: "tool_use"@, text: None, id, name: None, input_json: None, source: None, content: None, tool_use_id: None };
    let b2 = BlockView { block_type: "tool_use"@, text: None, id, name: Some(name), input_json: Some(input), source: None, content: None, tool_use_id: None };
    assert(seq![b1].drop_last() =~= Seq::<BlockView>::empty());
    assert(seq![b2].drop_last() =~= Seq::<BlockView>::empty());
    assert(Seq::<CallView>::empty().push(CallView { id: or_text(id, Seq::empty()), name: "tool"@, arguments: "{}"@ }) =~= seq![CallView { id: or_text(id, Seq::empty()), name: "tool"@, arguments: "{}"@ }]);
    assert(Seq::<CallView>::empty().push(CallView { id: or_text(id, Seq::empty()), name, arguments: input }) =~= seq![CallView { id: or_text(id, Seq::empty()), name, arguments: input }]);
}

/// In a user turn, pending text is closed into its own message before a
/// tool result, which follows it with the id the block gave; a lone text
/// part is sent as a string.
pub proof fn law_user_text_precedes_tool_results(t: Seq<char>, req: Option<Seq<char>>, c: Option<ResultView>)
    ensures
        ({
            let r = BlockView { block_type: "tool_result"@, text: None, id: None, name: None, input_json: None, source: None, content: c, tool_use_id: req };
            &&& user_out(seq![text_block(t)]) == seq![OpenAiView::UserText(t)]
            &&& user_out(seq![text_block(t), r]) == seq![OpenAiView::UserText(t), OpenAiView::Tool(or_text(req, Seq::empty()), result_text(c))]
        }),
{
    reveal_with_fuel(user_fold, 3);
    reveal_strlit("tool_result");
    reveal_strlit("text");
    reveal_strlit("image");
    assert("tool_result"@.len() == 11);
    assert("text"@.len() == 4);
    assert("image"@.len() == 5);
    let r = BlockView { block_type: "tool_result"@, text: None, id: None, name: None, input_json: None, source: None, content: c, tool_use_id: req };
    let one = seq![text_block(t)];
    let two = seq![text_block(t), r];
    assert(one.drop_last() =~= Seq::<BlockView>::empty());
    assert(two.drop_last() =~= one);
    assert(user_fold(one) == (Seq::<OpenAiView>::empty(), seq![UserPartView::Text(t)]));
    assert(lone_text(seq![UserPartView::Text(t)]) == Some(t));
    assert(flushed(Seq::empty(), seq![UserPartView::Text(t)]) =~= seq![OpenAiView::UserText(t)]);
    assert(user_fold(two).1 =~= Seq::<UserPartView>::empty());
    assert(user_fold(two).0 =~= seq![OpenAiView::UserText(t), OpenAiView::Tool(or_text(req, Seq::empty()), result_text(c))]);
}

} // verus!
