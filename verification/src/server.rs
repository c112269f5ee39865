//! Decisions of the HTTP host that depend on values alone: which routes get
//! the request timeout, provider catalog status, Anthropic usage accounting,
//! tool-use identities, stream modes and model lookup.

use vstd::prelude::*;

use crate::ids::{canonical_uuid, fresh_simple_id, hyphenated, parsed_uuid};
use crate::mcp::digest::hex;
use crate::mcp::exposure::{split_words, words};
use crate::text::{concat, is_blank, owned, push_char, str_eq, str_is_blank, strip, strip_prefix, trim, trimmed};

verus! {

/// Streaming chat routes, which must not be cut off by the request timeout.
pub open spec fn streaming_route(path: Seq<char>) -> bool {
    path == "/api/chat/completion"@ || path == "/v1/chat/completions"@ || path == "/v1/messages"@
}

/// Whether the request timeout applies to a route.
pub fn should_apply_request_timeout(path: &str) -> (r: bool)
    ensures
        r == !streaming_route(path@),
{
    !(str_eq(path, "/api/chat/completion") || str_eq(path, "/v1/chat/completions") || str_eq(path, "/v1/messages"))
}

/// The words joined by single spaces.
pub open spec fn space_joined(ws: Seq<Seq<char>>) -> Seq<char>
    decreases ws.len(),
{
    if ws.len() == 0 {
        Seq::empty()
    } else if ws.len() == 1 {
        ws[0]
    } else {
        space_joined(ws.drop_last()) + seq![' '] + ws.last()
    }
}

/// Every run of whitespace becomes one space; leading and trailing
/// whitespace disappears.
pub fn collapse_whitespace(input: &str) -> (r: String)
    ensures
        r@ == space_joined(words(input@)),
{
    let ws = split_words(input);
    let ghost wv = crate::text::views(ws@);
    let mut out = String::new();
    let mut i: usize = 0;
    assert(out@ =~= space_joined(wv.subrange(0, 0)));
    while i < ws.len()
        invariant
            wv == crate::text::views(ws@),
            i <= wv.len(),
            out@ == space_joined(wv.subrange(0, i as int)),
        decreases ws.len() - i,
    {
        let ghost pre = wv.subrange(0, i + 1);
        assert(pre.drop_last() =~= wv.subrange(0, i as int));
        assert(pre.last() == ws@[i as int]@);
        if i > 0 {
            push_char(&mut out, ' ');
        }
        out = concat(out.as_str(), ws[i].as_str());
        assert(out@ =~= space_joined(pre));
        i = i + 1;
    }
    assert(wv.subrange(0, wv.len() as int) =~= wv);
    out
}

/// The catalog status of a provider, and its explanation: configured first,
/// then blocked on a named credential, else merely available.
pub open spec fn catalog_status(provider_id: Seq<char>, configured: bool, auth_env_var: Option<Seq<char>>) -> (Seq<char>, Seq<char>) {
    if configured {
        ("configured"@, provider_id + " is configured and enabled in the provider registry."@)
    } else if auth_env_var matches Some(v) && !is_blank(v) {
        ("credential-blocked"@, provider_id + " requires a configured credential such as "@ + auth_env_var->0 + "."@)
    } else {
        ("available"@, provider_id + " is available in the catalog but is not configured."@)
    }
}

/// The catalog status of a provider, and its explanation.
pub fn provider_catalog_status(provider_id: &str, configured: bool, auth_env_var: Option<&str>) -> (r: (&'static str, String))
    ensures
        (r.0@, r.1@) == catalog_status(
            provider_id@,
            configured,
            match auth_env_var {
                Some(v) => Some(v@),
                None => None,
            },
        ),
{
    if configured {
        return ("configured", concat(provider_id, " is configured and enabled in the provider registry."));
    }
    match auth_env_var {
        Some(env_var) => {
            if !str_is_blank(env_var) {
                let a = concat(provider_id, " requires a configured credential such as ");
                let b = concat(a.as_str(), env_var);
                return ("credential-blocked", concat(b.as_str(), "."));
            }
        },
        None => {},
    }
    ("available", concat(provider_id, " is available in the catalog but is not configured."))
}

/// Token usage in the Anthropic Messages format.
#[derive(Clone, Copy, PartialEq, Eq, Structural, Debug)]
pub struct AnthropicUsage {
    pub input_tokens: u32,
    pub output_tokens: u32,
    pub cache_creation_input_tokens: u32,
    pub cache_read_input_tokens: u32,
}

impl Default for AnthropicUsage {
    fn default() -> (r: AnthropicUsage)
        ensures
            r == (AnthropicUsage { input_tokens: 0, output_tokens: 0, cache_creation_input_tokens: 0, cache_read_input_tokens: 0 }),
    {
        AnthropicUsage { input_tokens: 0, output_tokens: 0, cache_creation_input_tokens: 0, cache_read_input_tokens: 0 }
    }
}

/// Usage as the provider reported it; unreported cache activity counts as none.
pub fn provider_anthropic_usage(prompt_tokens: u32, completion_tokens: u32, cached_tokens: Option<u32>, cache_creation_tokens: Option<u32>) -> (r: AnthropicUsage)
    ensures
        r.input_tokens == prompt_tokens,
        r.output_tokens == completion_tokens,
        r.cache_creation_input_tokens == match cache_creation_tokens {
            Some(n) => n,
            None => 0,
        },
        r.cache_read_input_tokens == match cached_tokens {
            Some(n) => n,
            None => 0,
        },
{
    AnthropicUsage {
        input_tokens: prompt_tokens,
        output_tokens: completion_tokens,
        cache_creation_input_tokens: match cache_creation_tokens {
            Some(n) => n,
            None => 0,
        },
        cache_read_input_tokens: match cached_tokens {
            Some(n) => n,
            None => 0,
        },
    }
}

/// The usage to report at the end of a stream: the provider's own when it
/// reported any, else only the estimated output, with no cache activity.
pub fn finalized_anthropic_usage(provider_usage: Option<AnthropicUsage>, estimated_output_tokens: u32) -> (r: AnthropicUsage)
    ensures
        r == match provider_usage {
            Some(u) => u,
            None => AnthropicUsage {
                input_tokens: 0,
                output_tokens: estimated_output_tokens,
                cache_creation_input_tokens: 0,
                cache_read_input_tokens: 0,
            },
        },
{
    match provider_usage {
        Some(u) => u,
        None => AnthropicUsage {
            input_tokens: 0,
            output_tokens: estimated_output_tokens,
            cache_creation_input_tokens: 0,
            cache_read_input_tokens: 0,
        },
    }
}

/// A tool-use identity with the `toolu_` prefix, for a non-blank id.
pub open spec fn toolu_of(trimmed_id: Seq<char>) -> Seq<char> {
    if trimmed_id.len() >= 6 && trimmed_id.subrange(0, 6) == "toolu_"@ {
        trimmed_id
    } else {
        "toolu_"@ + trimmed_id
    }
}

fn starts_with_toolu(s: &str) -> (r: bool)
    ensures
        r == (s@.len() >= 6 && s@.subrange(0, 6) == "toolu_"@),
{
    let v = crate::text::chars_of(s);
    let p = crate::text::chars_of("toolu_");
    proof {
        reveal_strlit("toolu_");
    }
    if v.len() < 6 {
        return false;
    }
    let mut i: usize = 0;
    while i < 6
        invariant
            v@ == s@,
            p@ == "toolu_"@,
            p@.len() == 6,
            v@.len() >= 6,
            i <= 6,
            forall|k: int| 0 <= k < i ==> v@[k] == p@[k],
        decreases 6 - i,
    {
        if v[i] != p[i] {
            assert(s@.subrange(0, 6)[i as int] != "toolu_"@[i as int]);
            return false;
        }
        i = i + 1;
    }
    assert(s@.subrange(0, 6) =~= "toolu_"@);
    true
}

/// Give a tool call an Anthropic `toolu_` identity: a prefixed trimmed id,
/// or a fresh random one when the id is blank.
pub fn ensure_toolu_id(id: &str) -> (r: String)
    ensures
        !is_blank(id@) ==> r@ == toolu_of(trimmed(id@)),
        is_blank(id@) ==> exists|b: Seq<u8>| crate::ids::v4_bytes(b) && r@ == "toolu_"@ + hex(b),
{
    let t = trim(id);
    if str_is_blank(id) {
        let fresh = fresh_simple_id();
        return concat("toolu_", fresh.as_str());
    }
    if starts_with_toolu(t.as_str()) {
        t
    } else {
        concat("toolu_", t.as_str())
    }
}

/// How a chat completion streams its events.
#[derive(Clone, Copy, PartialEq, Eq, Structural, Debug)]
pub enum StreamMode {
    Openai,
    Agui,
    Dual,
    /// The official AG-UI event vocabulary instead of the legacy `agui.*` names.
    AguiSpec,
}

impl StreamMode {
    /// OpenAI-compatible chunks: `Openai` and `Dual`.
    pub fn emits_openai_chunks(&self) -> (r: bool)
        ensures
            r == (*self == StreamMode::Openai || *self == StreamMode::Dual),
    {
        match self {
            StreamMode::Openai | StreamMode::Dual => true,
            _ => false,
        }
    }

    /// Legacy `agui.*` events: `Agui` and `Dual`.
    pub fn emits_agui_chunks(&self) -> (r: bool)
        ensures
            r == (*self == StreamMode::Agui || *self == StreamMode::Dual),
    {
        match self {
            StreamMode::Agui | StreamMode::Dual => true,
            _ => false,
        }
    }

    /// Official AG-UI vocabulary events: `AguiSpec` only.
    pub fn emits_agui_spec_chunks(&self) -> (r: bool)
        ensures
            r == (*self == StreamMode::AguiSpec),
    {
        match self {
            StreamMode::AguiSpec => true,
            _ => false,
        }
    }
}

impl Default for StreamMode {
    fn default() -> (r: StreamMode)
        ensures
            r == StreamMode::Openai,
    {
        StreamMode::Openai
    }
}

/// One model a provider offers.
pub struct ProviderModel {
    pub id: String,
}

/// The model list of a configured provider: its default model and the
/// models it declares.
pub struct ProviderConfig {
    pub default_model: Option<String>,
    pub models: Vec<ProviderModel>,
}

/// The provider serves the model: it is the default or a declared model.
pub open spec fn serves_model(p: ProviderConfig, model_id: Seq<char>) -> bool {
    (p.default_model matches Some(d) && d@ == model_id) || exists|k: int| 0 <= k < p.models@.len() && #[trigger] p.models@[k].id@ == model_id
}

/// Whether a provider serves a model.
pub fn model_known(provider: &ProviderConfig, model_id: &str) -> (r: bool)
    ensures
        r == serves_model(*provider, model_id@),
{
    match &provider.default_model {
        Some(d) => {
            if str_eq(d.as_str(), model_id) {
                return true;
            }
        },
        None => {},
    }
    let mut k: usize = 0;
    while k < provider.models.len()
        invariant
            k <= provider.models@.len(),
            !(provider.default_model matches Some(d) && d@ == model_id@),
            forall|j: int| 0 <= j < k ==> #[trigger] provider.models@[j].id@ != model_id@,
        decreases provider.models.len() - k,
    {
        if str_eq(provider.models[k].id.as_str(), model_id) {
            return true;
        }
        k = k + 1;
    }
    false
}

/// `s` contains `t` contiguously.
pub open spec fn contains_text(s: Seq<char>, t: Seq<char>) -> bool {
    exists|i: int| 0 <= i && i + t.len() <= s.len() && #[trigger] s.subrange(i, i + t.len()) == t
}

/// The on-disk store directory a database endpoint names, if any: a
/// `surrealkv://` or `rocksdb://` path, or a bare path without a scheme.
pub open spec fn store_path(endpoint: Seq<char>) -> Option<Seq<char>> {
    match strip(endpoint, "surrealkv://"@) {
        Some(p) => Some(p),
        None => match strip(endpoint, "rocksdb://"@) {
            Some(p) => Some(p),
            None => if contains_text(endpoint, "://"@) {
                None
            } else {
                Some(endpoint)
            },
        },
    }
}

/// A path joined with one more component.
pub open spec fn joined_path(dir: Seq<char>, name: Seq<char>) -> Seq<char> {
    if dir.len() > 0 && dir.last() == '/' {
        dir + name
    } else {
        dir + seq!['/'] + name
    }
}

/// The lock file of an embedded SurrealDB store, for a SurrealDB provider
/// whose endpoint names a real directory.
pub open spec fn lock_path(provider: Seq<char>, database_url: Seq<char>) -> Option<Seq<char>> {
    if !(provider == "surreal"@ || provider == "surrealdb"@) {
        None
    } else {
        match store_path(trimmed(database_url)) {
            None => None,
            Some(p) => if p.len() == 0 || p == "surrealkv"@ || p == "rocksdb"@ || p == "memory"@ || p == "mem"@ {
                None
            } else {
                Some(joined_path(p, "LOCK"@))
            },
        }
    }
}

/// The lock file to wait for after shutting down an embedded SurrealDB store.
pub fn surrealkv_lock_path(provider: &str, database_url: &str) -> (r: Option<String>)
    ensures
        match r {
            Some(p) => lock_path(provider@, database_url@) == Some(p@),
            None => lock_path(provider@, database_url@) is None,
        },
{
    if !(str_eq(provider, "surreal") || str_eq(provider, "surrealdb")) {
        return None;
    }
    let endpoint = trim(database_url);
    let path = match strip_prefix(endpoint.as_str(), "surrealkv://") {
        Some(p) => p,
        None => match strip_prefix(endpoint.as_str(), "rocksdb://") {
            Some(p) => p,
            None => {
                if crate::mcp::exposure::has_substring(endpoint.as_str(), "://") {
                    return None;
                }
                endpoint
            },
        },
    };
    let p = path.as_str();
    if str_is_blank_exact(p) || str_eq(p, "surrealkv") || str_eq(p, "rocksdb") || str_eq(p, "memory") || str_eq(p, "mem") {
        return None;
    }
    let v = crate::text::chars_of(p);
    let mut out = owned(p);
    if v[v.len() - 1] != '/' {
        push_char(&mut out, '/');
    }
    let out = concat(out.as_str(), "LOCK");
    Some(out)
}

/// Whether a string is empty.
fn str_is_blank_exact(s: &str) -> (r: bool)
    ensures
        r == (s@.len() == 0),
{
    crate::text::chars_of(s).len() == 0
}

/// The UTF-8 width of a character, in bytes.
pub open spec fn utf8_width(c: char) -> nat {
    if (c as u32) < 0x80 {
        1
    } else if (c as u32) < 0x800 {
        2
    } else if (c as u32) < 0x10000 {
        3
    } else {
        4
    }
}

/// The UTF-8 length of a character sequence, in bytes.
pub open spec fn utf8_len(s: Seq<char>) -> nat
    decreases s.len(),
{
    if s.len() == 0 {
        0
    } else {
        utf8_len(s.drop_last()) + utf8_width(s.last())
    }
}

/// The number of leading characters that fit in `limit` bytes.
pub open spec fn cut_point(s: Seq<char>, k: int, limit: int) -> int
    decreases s.len() - k,
{
    if k >= s.len() || k < 0 {
        s.len() as int
    } else if utf8_len(s.take(k + 1)) > limit {
        k
    } else {
        cut_point(s, k + 1, limit)
    }
}

/// Titles keep at most this many words.
pub const TITLE_WORD_LIMIT: usize = 8;
/// Titles are cut to at most this many bytes.
pub const TITLE_BYTE_LIMIT: usize = 64;

/// The first words of a text, joined by single spaces.
pub open spec fn title_words(input: Seq<char>) -> Seq<char> {
    let ws = words(input);
    space_joined(if ws.len() <= TITLE_WORD_LIMIT { ws } else { ws.take(TITLE_WORD_LIMIT as int) })
}

/// A conversation title: the first eight words; when longer than 64 bytes,
/// cut there and stripped of trailing whitespace; a text without words
/// gives the default title.
pub open spec fn title_of(input: Seq<char>) -> Seq<char> {
    let j = title_words(input);
    if words(input).len() == 0 {
        "New Conversation"@
    } else if utf8_len(j) <= TITLE_BYTE_LIMIT {
        j
    } else {
        let p = j.take(cut_point(j, 0, TITLE_BYTE_LIMIT as int));
        p.take(crate::text::last_non_space_end(p, 0, p.len() as int))
    }
}

/// Whether a title can be cut at the byte limit: the limit falls between
/// two characters, or the title is short enough. Cutting inside a
/// character is a panic of `String::truncate`.
pub open spec fn title_cut_on_boundary(input: Seq<char>) -> bool {
    let j = title_words(input);
    words(input).len() == 0 || utf8_len(j) <= TITLE_BYTE_LIMIT || utf8_len(j.take(cut_point(j, 0, TITLE_BYTE_LIMIT as int))) == TITLE_BYTE_LIMIT
}

fn char_width(c: char) -> (r: usize)
    ensures
        r == utf8_width(c),
{
    let n = c as u32;
    if n < 0x80 {
        1
    } else if n < 0x800 {
        2
    } else if n < 0x10000 {
        3
    } else {
        4
    }
}

proof fn lemma_utf8_len_prefix(s: Seq<char>, k: int, m: int)
    requires
        0 <= k <= m <= s.len(),
    ensures
        utf8_len(s.take(k)) <= utf8_len(s.take(m)),
    decreases m - k,
{
    if k < m {
        assert(s.take(m).drop_last() =~= s.take(m - 1));
        lemma_utf8_len_prefix(s, k, m - 1);
    }
}

/// A conversation title from a text.
pub fn title_from_text(input: &str) -> (r: String)
    requires
        title_cut_on_boundary(input@),
    ensures
        r@ == title_of(input@),
{
    let ws = split_words(input);
    if ws.len() == 0 {
        return owned("New Conversation");
    }
    let ghost wv = crate::text::views(ws@);
    let n = if ws.len() <= TITLE_WORD_LIMIT { ws.len() } else { TITLE_WORD_LIMIT };
    assert(wv.take(n as int) =~= if wv.len() <= TITLE_WORD_LIMIT { wv } else { wv.take(TITLE_WORD_LIMIT as int) });
    let mut joined = String::new();
    let mut i: usize = 0;
    assert(joined@ =~= space_joined(wv.take(n as int).subrange(0, 0)));
    while i < n
        invariant
            wv == crate::text::views(ws@),
            n <= wv.len(),
            i <= n,
            joined@ == space_joined(wv.take(n as int).subrange(0, i as int)),
        decreases n - i,
    {
        let ghost pre = wv.take(n as int).subrange(0, i + 1);
        assert(pre.drop_last() =~= wv.take(n as int).subrange(0, i as int));
        assert(pre.last() == ws@[i as int]@);
        if i > 0 {
            push_char(&mut joined, ' ');
        }
        joined = concat(joined.as_str(), ws[i].as_str());
        assert(joined@ =~= space_joined(pre));
        i = i + 1;
    }
    assert(wv.take(n as int).subrange(0, n as int) =~= wv.take(n as int));
    let ghost j = title_words(input@);
    assert(joined@ == j);
    let v = crate::text::chars_of(joined.as_str());
    let mut k: usize = 0;
    let mut bytes: usize = 0;
    let mut done = false;
    assert(j.take(0) =~= Seq::<char>::empty());
    while !done && k < v.len()
        invariant
            v@ == j,
            k <= j.len(),
            bytes == utf8_len(j.take(k as int)),
            bytes <= TITLE_BYTE_LIMIT,
            done ==> k < j.len() && utf8_len(j.take(k + 1)) > TITLE_BYTE_LIMIT,
            cut_point(j, 0, TITLE_BYTE_LIMIT as int) == if done { k as int } else { cut_point(j, k as int, TITLE_BYTE_LIMIT as int) },
        decreases j.len() - k, (if done { 0int } else { 1int }),
    {
        let w = char_width(v[k]);
        assert(j.take(k + 1).drop_last() =~= j.take(k as int));
        assert(j.take(k + 1).last() == v@[k as int]);
        if bytes + w > TITLE_BYTE_LIMIT {
            done = true;
        } else {
            bytes = bytes + w;
            k = k + 1;
        }
    }
    let ghost cut = cut_point(j, 0, TITLE_BYTE_LIMIT as int);
    assert(cut == k as int);
    if k == v.len() {
        assert(j.take(j.len() as int) =~= j);
        return joined;
    }
    proof {
        lemma_utf8_len_prefix(j, k + 1, j.len() as int);
        assert(j.take(j.len() as int) =~= j);
    }
    let mut end: usize = k;
    let ghost p = j.take(k as int);
    while end > 0 && crate::text::is_space_char(v[end - 1])
        invariant
            v@ == j,
            p == j.take(k as int),
            end <= k < j.len(),
            crate::text::last_non_space_end(p, 0, p.len() as int) == crate::text::last_non_space_end(p, 0, end as int),
        decreases end,
    {
        assert(p[end - 1] == v@[end - 1]);
        end = end - 1;
    }
    if end > 0 {
        assert(p[end - 1] == v@[end - 1]);
    }
    let mut out = String::new();
    let mut m: usize = 0;
    while m < end
        invariant
            v@ == j,
            end <= k < j.len(),
            m <= end,
            out@ == j.take(m as int),
        decreases end - m,
    {
        push_char(&mut out, v[m]);
        assert(j.take(m + 1) =~= j.take(m as int).push(v@[m as int]));
        m = m + 1;
    }
    assert(out@ =~= p.take(end as int));
    out
}

/// The text a title is made from: the user's message, else the
/// assistant's, else the default title, skipping blank ones.
pub open spec fn title_seed(message: Option<Seq<char>>, assistant_message: Option<Seq<char>>) -> Seq<char> {
    if message matches Some(m) && !is_blank(m) {
        message->0
    } else if assistant_message matches Some(a) && !is_blank(a) {
        assistant_message->0
    } else {
        "New Conversation"@
    }
}

pub open spec fn opt_view(o: Option<&str>) -> Option<Seq<char>> {
    match o {
        Some(s) => Some(s@),
        None => None,
    }
}

/// The title of a conversation from its first exchange.
pub fn generate_title(message: Option<&str>, assistant_message: Option<&str>) -> (r: String)
    requires
        title_cut_on_boundary(title_seed(opt_view(message), opt_view(assistant_message))),
    ensures
        r@ == title_of(title_seed(opt_view(message), opt_view(assistant_message))),
{
    let seed = match message {
        Some(m) if !str_is_blank(m) => m,
        _ => match assistant_message {
            Some(a) if !str_is_blank(a) => a,
            _ => "New Conversation",
        },
    };
    proof {
        reveal_strlit("New Conversation");
    }
    title_from_text(seed)
}

/// A session identity was supplied but is not a UUID.
pub enum SessionIdError {
    /// "session_id must be a valid UUID".
    Invalid,
}

impl SessionIdError {
    /// The error message the API returns.
    pub fn message(&self) -> (r: &'static str)
        ensures
            r@ == "session_id must be a valid UUID"@,
    {
        proof {
            reveal_strlit("session_id must be a valid UUID");
        }
        "session_id must be a valid UUID"
    }
}

/// A supplied session identity: blank means none given; otherwise it must
/// parse as a UUID and becomes its canonical hyphenated form.
pub open spec fn session_id_of(value: Seq<char>) -> Option<Option<Seq<char>>> {
    let t = trimmed(value);
    if t.len() == 0 {
        Some(Some(Seq::empty()))
    } else {
        match parsed_uuid(t) {
            Some(b) => Some(Some(hyphenated(b))),
            None => None,
        }
    }
}

/// Validate a session identity: an empty string for a blank value, the
/// canonical UUID text for a UUID, an error otherwise.
pub fn validate_uuid_session_id(value: &str) -> (r: Result<String, SessionIdError>)
    ensures
        match session_id_of(value@) {
            Some(Some(t)) => r matches Ok(x) && x@ == t,
            _ => r is Err,
        },
{
    let t = trim(value);
    if crate::text::chars_of(t.as_str()).len() == 0 {
        assert(t@ =~= Seq::<char>::empty());
        return Ok(String::new());
    }
    match canonical_uuid(t.as_str()) {
        Some(c) => Ok(c),
        None => Err(SessionIdError::Invalid),
    }
}

/// The pieces of a text between separators, as `str::split` gives them.
pub open spec fn split_on(s: Seq<char>, sep: char) -> Seq<Seq<char>>
    decreases s.len(),
{
    if s.len() == 0 {
        seq![Seq::empty()]
    } else {
        let rest = split_on(s.drop_last(), sep);
        if s.last() == sep {
            rest.push(Seq::empty())
        } else {
            rest.update(rest.len() - 1, rest.last().push(s.last()))
        }
    }
}

proof fn lemma_split_on_nonempty(s: Seq<char>, sep: char)
    ensures
        split_on(s, sep).len() >= 1,
    decreases s.len(),
{
    if s.len() > 0 {
        lemma_split_on_nonempty(s.drop_last(), sep);
    }
}

/// The position of the first occurrence of a character, or -1.
pub open spec fn index_of(s: Seq<char>, c: char) -> int
    decreases s.len(),
{
    if s.len() == 0 {
        -1
    } else if s[0] == c {
        0
    } else if index_of(s.drop_first(), c) < 0 {
        -1
    } else {
        1 + index_of(s.drop_first(), c)
    }
}

/// The session identity a cookie pair carries, if it is `uar_session_id`.
pub open spec fn cookie_pair_session(piece: Seq<char>) -> Option<Seq<char>> {
    let t = trimmed(piece);
    let i = index_of(t, '=');
    if i >= 0 && t.take(i) == "uar_session_id"@ {
        Some(t.skip(i + 1))
    } else {
        None
    }
}

/// The first session identity among cookie pairs.
pub open spec fn first_session_cookie(pieces: Seq<Seq<char>>) -> Option<Seq<char>>
    decreases pieces.len(),
{
    if pieces.len() == 0 {
        None
    } else if cookie_pair_session(pieces[0]) is Some {
        cookie_pair_session(pieces[0])
    } else {
        first_session_cookie(pieces.drop_first())
    }
}

/// The pieces of a text between separators.
pub fn split_char(s: &str, sep: char) -> (r: Vec<String>)
    ensures
        crate::text::views(r@) == split_on(s@, sep),
{
    let v = crate::text::chars_of(s);
    let mut acc: Vec<String> = Vec::new();
    let mut cur = String::new();
    let mut i: usize = 0;
    assert(s@.take(0) =~= Seq::<char>::empty());
    assert(crate::text::views(acc@).push(cur@) =~= split_on(s@.take(0), sep));
    while i < v.len()
        invariant
            v@ == s@,
            i <= v@.len(),
            crate::text::views(acc@).push(cur@) == split_on(s@.take(i as int), sep),
        decreases v.len() - i,
    {
        let ghost prev = crate::text::views(acc@).push(cur@);
        assert(s@.take(i + 1).drop_last() =~= s@.take(i as int));
        assert(s@.take(i + 1).last() == v@[i as int]);
        if v[i] == sep {
            let done = cur;
            cur = String::new();
            let ghost ab = acc@;
            acc.push(done);
            assert(crate::text::views(acc@) =~= crate::text::views(ab).push(done@));
            assert(crate::text::views(acc@).push(cur@) =~= prev.push(Seq::empty()));
        } else {
            let ghost cb = cur@;
            push_char(&mut cur, v[i]);
            assert(crate::text::views(acc@).push(cur@) =~= prev.update(prev.len() - 1, prev.last().push(v@[i as int])));
        }
        i = i + 1;
    }
    assert(s@.take(v@.len() as int) =~= s@);
    acc.push(cur);
    acc
}

proof fn lemma_index_of_bounds(s: Seq<char>, c: char)
    ensures
        -1 <= index_of(s, c) < s.len(),
        index_of(s, c) >= 0 ==> s[index_of(s, c)] == c,
    decreases s.len(),
{
    if s.len() > 0 {
        lemma_index_of_bounds(s.drop_first(), c);
    }
}

fn char_index(v: &Vec<char>, c: char) -> (r: Option<usize>)
    ensures
        match r {
            Some(i) => i as int == index_of(v@, c) && i < v@.len(),
            None => index_of(v@, c) == -1,
        },
{
    let mut i: usize = 0;
    proof {
        lemma_index_of_bounds(v@, c);
    }
    assert(v@.skip(0) =~= v@);
    while i < v.len()
        invariant
            i <= v@.len(),
            forall|j: int| 0 <= j < i ==> v@[j] != c,
            index_of(v@, c) == if index_of(v@.skip(i as int), c) < 0 { -1 } else { i + index_of(v@.skip(i as int), c) },
        decreases v.len() - i,
    {
        assert(v@.skip(i as int)[0] == v@[i as int]);
        if v[i] == c {
            return Some(i);
        }
        assert(v@.skip(i as int).drop_first() =~= v@.skip(i + 1));
        i = i + 1;
    }
    assert(v@.skip(i as int) =~= Seq::<char>::empty());
    None
}

/// The value of the `uar_session_id` cookie in a `Cookie` header.
pub fn cookie_session_id(cookie_header: &str) -> (r: Option<String>)
    ensures
        match first_session_cookie(split_on(cookie_header@, ';')) {
            Some(v) => r matches Some(x) && x@ == v,
            None => r is None,
        },
{
    let pieces = split_char(cookie_header, ';');
    let ghost pv = crate::text::views(pieces@);
    let mut i: usize = 0;
    assert(pv.skip(0) =~= pv);
    while i < pieces.len()
        invariant
            pv == crate::text::views(pieces@),
            pv == split_on(cookie_header@, ';'),
            i <= pv.len(),
            first_session_cookie(pv) == first_session_cookie(pv.skip(i as int)),
        decreases pieces.len() - i,
    {
        assert(pv.skip(i as int)[0] == pieces@[i as int]@);
        assert(pv.skip(i as int).drop_first() =~= pv.skip(i + 1));
        let t = trim(pieces[i].as_str());
        let tv = crate::text::chars_of(t.as_str());
        let n = tv.len();
        if let Some(k) = char_index(&tv, '=') {
            assert(k < n);
            let name = t.as_str().substring_char(0, k);
            proof {
                reveal_strlit("uar_session_id");
            }
            if str_eq(name, "uar_session_id") {
                let value = t.as_str().substring_char(k + 1, n);
                assert(t@.take(k as int) =~= name@);
                assert(t@.skip(k + 1) =~= value@);
                return Some(owned(value));
            }
            assert(t@.take(k as int) =~= name@);
        }
        i = i + 1;
    }
    assert(pv.skip(i as int) =~= Seq::<Seq<char>>::empty());
    None
}

/// Which session a chat request belongs to: the `x-uar-session-id` header,
/// else the body's `session_id`, else the `uar_session_id` cookie, each
/// ignored when blank; the first one present must be a UUID.
pub open spec fn session_choice(header: Option<Seq<char>>, body: Option<Seq<char>>, cookie: Option<Seq<char>>) -> Option<Seq<char>> {
    if header matches Some(h) && !is_blank(h) {
        header
    } else if body matches Some(b) && !is_blank(b) {
        body
    } else if cookie matches Some(c) && !is_blank(c) {
        cookie
    } else {
        None
    }
}

/// Resolve the session identity of a chat request from its header, body
/// field and cookie header.
pub fn resolve_session_id(header: Option<&str>, body: Option<&str>, cookie_header: Option<&str>) -> (r: Result<Option<String>, SessionIdError>)
    ensures
        ({
            let cookie = match cookie_header {
                Some(c) => first_session_cookie(split_on(c@, ';')),
                None => None,
            };
            match session_choice(opt_view(header), opt_view(body), cookie) {
                None => r matches Ok(None),
                Some(v) => match session_id_of(v) {
                    Some(Some(t)) => r matches Ok(Some(x)) && x@ == t,
                    _ => r is Err,
                },
            }
        }),
{
    if let Some(h) = header {
        if !str_is_blank(h) {
            return match validate_uuid_session_id(h) {
                Ok(x) => Ok(Some(x)),
                Err(e) => Err(e),
            };
        }
    }
    if let Some(b) = body {
        if !str_is_blank(b) {
            return match validate_uuid_session_id(b) {
                Ok(x) => Ok(Some(x)),
                Err(e) => Err(e),
            };
        }
    }
    if let Some(c) = cookie_header {
        if let Some(v) = cookie_session_id(c) {
            if !str_is_blank(v.as_str()) {
                return match validate_uuid_session_id(v.as_str()) {
                    Ok(x) => Ok(Some(x)),
                    Err(e) => Err(e),
                };
            }
        }
    }
    Ok(None)
}

/// Written to standard error when shutdown finished within its deadline.
pub const SHUTDOWN_GRACEFUL_MARKER: &'static str = "UAR_SHUTDOWN outcome=graceful_complete\n";

/// Written to standard error when the deadline forced the process to stop.
pub const SHUTDOWN_DEADLINE_MARKER: &'static str = "UAR_SHUTDOWN outcome=deadline_enforced\n";

/// How long past the deadline the hard stop waits, in milliseconds.
pub const SHUTDOWN_HARD_STOP_ALLOWANCE_MS: u64 = 500;

/// Shutdown of the server process: whether it has started, whether cleanup
/// has finished, and whether the process has completed gracefully. The host
/// arms the watchdogs and writes the markers.
pub struct ShutdownCoordinator {
    started: bool,
    cleanup_complete: bool,
    completed: bool,
}

pub struct ShutdownView {
    pub started: bool,
    pub cleanup_complete: bool,
    pub completed: bool,
}

/// What starting shutdown asks of the host.
pub enum ShutdownStart {
    /// Shutdown was already under way; nothing more to arm.
    AlreadyStarted,
    /// Arm the deadline watchdog and, a little later, the hard stop.
    Arm { deadline_ms: u64, hard_stop_ms: u64 },
}

/// The state after a graceful completion, and whether it writes the marker.
pub open spec fn completion(v: ShutdownView) -> (ShutdownView, bool) {
    if v.started && !v.completed {
        (ShutdownView { completed: true, ..v }, true)
    } else {
        (v, false)
    }
}

impl ShutdownCoordinator {
    pub closed spec fn view(&self) -> ShutdownView {
        ShutdownView { started: self.started, cleanup_complete: self.cleanup_complete, completed: self.completed }
    }

    pub fn new() -> (r: ShutdownCoordinator)
        ensures
            r.view() == (ShutdownView { started: false, cleanup_complete: false, completed: false }),
    {
        ShutdownCoordinator { started: false, cleanup_complete: false, completed: false }
    }

    /// Start shutdown with a graceful deadline; only the first call arms the
    /// watchdogs.
    pub fn begin(&mut self, timeout_ms: u64) -> (r: ShutdownStart)
        requires
            timeout_ms + SHUTDOWN_HARD_STOP_ALLOWANCE_MS <= u64::MAX,
        ensures
            final(self).view() == (ShutdownView { started: true, ..old(self).view() }),
            match r {
                ShutdownStart::AlreadyStarted => old(self).view().started,
                ShutdownStart::Arm { deadline_ms, hard_stop_ms } => !old(self).view().started && deadline_ms
                    == timeout_ms && hard_stop_ms == timeout_ms + SHUTDOWN_HARD_STOP_ALLOWANCE_MS,
            },
    {
        if self.started {
            return ShutdownStart::AlreadyStarted;
        }
        self.started = true;
        ShutdownStart::Arm { deadline_ms: timeout_ms, hard_stop_ms: timeout_ms + SHUTDOWN_HARD_STOP_ALLOWANCE_MS }
    }

    /// Cleanup has finished.
    pub fn mark_cleanup_complete(&mut self)
        ensures
            final(self).view() == (ShutdownView { cleanup_complete: true, ..old(self).view() }),
    {
        self.cleanup_complete = true;
    }

    /// Whether the server must still wait for cleanup: only once shutdown
    /// has started, and until cleanup has finished.
    pub fn must_wait_for_cleanup(&self) -> (r: bool)
        ensures
            r == (self.view().started && !self.view().cleanup_complete),
    {
        self.started && !self.cleanup_complete
    }

    /// The process finished gracefully. Returns the marker to write: only the
    /// first completion after shutdown started writes one.
    pub fn complete(&mut self) -> (r: Option<&'static str>)
        ensures
            final(self).view() == completion(old(self).view()).0,
            completion(old(self).view()).1 ==> r == Some(SHUTDOWN_GRACEFUL_MARKER),
            !completion(old(self).view()).1 ==> r is None,
    {
        if !self.started || self.completed {
            return None;
        }
        self.completed = true;
        Some(SHUTDOWN_GRACEFUL_MARKER)
    }

    /// Whether a watchdog whose wait has ended must stop the process: only
    /// when the process has not completed.
    pub fn wait_expired(&self) -> (r: bool)
        ensures
            r == !self.view().completed,
    {
        !self.completed
    }
}

/// The graceful marker is written at most once, and never before shutdown
/// starts; once written, no watchdog stops the process.
pub proof fn law_graceful_completion_is_final(v: ShutdownView)
    ensures
        completion(v).1 ==> v.started && completion(v).0.completed,
        !completion(completion(v).0).1,
        !v.started ==> !completion(v).1,
{
}

/// The replacement base URL for a configured model, if any. A legacy OpenAI
/// base URL (after trimming whitespace and trailing slashes) is completed
/// with `/v1` for an OpenAI model, and for another provider's model is
/// replaced by that provider's fallback base URL where it has one. Any other
/// base URL, or none, is kept.
pub open spec fn legacy_base_url_replacement(base_url: Option<Seq<char>>, provider_id: Seq<char>, provider_fallback: Option<Seq<char>>) -> Option<Seq<char>> {
    match base_url {
        None => None,
        Some(b) => {
            let n = crate::urls::trimmed_end(trimmed(b), '/');
            if n != "https://api.openai.com"@ && n != "https://api.openai.com/v1"@ {
                None
            } else if provider_id == "openai"@ {
                if n == "https://api.openai.com"@ {
                    Some("https://api.openai.com/v1"@)
                } else {
                    None
                }
            } else {
                provider_fallback
            }
        },
    }
}

/// Decide how a configured model's legacy OpenAI base URL is rewritten,
/// given the model's provider and that provider's fallback base URL. `None`
/// keeps the configured base URL.
pub fn normalize_legacy_openai_base_url(base_url: Option<&str>, provider_id: &str, provider_fallback: Option<&str>) -> (r: Option<String>)
    ensures
        crate::urls::opt_chars(r) == legacy_base_url_replacement(opt_view(base_url), provider_id@, opt_view(provider_fallback)),
{
    let b = match base_url {
        Some(b) => b,
        None => {
            return None;
        },
    };
    let t = trim(b);
    let n = crate::urls::trim_end_char(t.as_str(), '/');
    let is_api = str_eq(n.as_str(), "https://api.openai.com");
    if !is_api && !str_eq(n.as_str(), "https://api.openai.com/v1") {
        return None;
    }
    if str_eq(provider_id, "openai") {
        if is_api {
            return Some(owned("https://api.openai.com/v1"));
        }
        return None;
    }
    match provider_fallback {
        Some(u) => Some(owned(u)),
        None => None,
    }
}


/// The session of a request is the first non-blank of header, body field and
/// cookie, in that order: a non-blank header wins over the others, and a
/// non-blank body field wins over any cookie when the header is absent or
/// blank. The cookie is used only when both others are absent or blank.
pub proof fn law_session_sources_in_order(header: Option<Seq<char>>, body: Option<Seq<char>>, cookie: Option<Seq<char>>)
    ensures
        non_blank(header) ==> session_choice(header, body, cookie) == header,
        !non_blank(header) && non_blank(body) ==> session_choice(header, body, cookie) == body,
        !non_blank(header) && !non_blank(body) ==> session_choice(header, body, cookie) == (if non_blank(cookie) {
            cookie
        } else {
            None
        }),
{
}

/// A value that is given and not blank.
pub open spec fn non_blank(o: Option<Seq<char>>) -> bool {
    o matches Some(v) && !is_blank(v)
}

/// A legacy OpenAI base URL (either form, after trimming whitespace and
/// trailing slashes) on a model of another provider is replaced by that
/// provider's fallback base URL, whenever it has one; on an OpenAI model the
/// bare host gets `/v1` and the `/v1` form is kept.
pub proof fn law_legacy_openai_urls_move_to_the_provider(b: Seq<char>, provider_id: Seq<char>, fallback: Seq<char>)
    ensures
        ({
            let n = crate::urls::trimmed_end(trimmed(b), '/');
            &&& (n == "https://api.openai.com"@ || n == "https://api.openai.com/v1"@) && provider_id != "openai"@
                ==> legacy_base_url_replacement(Some(b), provider_id, Some(fallback)) == Some(fallback)
            &&& n == "https://api.openai.com"@ ==> legacy_base_url_replacement(Some(b), "openai"@, Some(fallback)) == Some("https://api.openai.com/v1"@)
            &&& n == "https://api.openai.com/v1"@ ==> legacy_base_url_replacement(Some(b), "openai"@, Some(fallback)) is None
        }),
{
    reveal_strlit("https://api.openai.com");
    reveal_strlit("https://api.openai.com/v1");
    assert("https://api.openai.com"@.len() == 22);
    assert("https://api.openai.com/v1"@.len() == 25);
}


/// A tool-use identity always begins with `toolu_`; an id that has the
/// prefix keeps it once, and any other id gets it in front.
pub proof fn law_toolu_ids_are_prefixed_once(t: Seq<char>)
    ensures
        toolu_of(t).len() >= 6 && toolu_of(t).subrange(0, 6) == "toolu_"@,
        toolu_of(toolu_of(t)) == toolu_of(t),
        t.len() >= 6 && t.subrange(0, 6) == "toolu_"@ ==> toolu_of(t) == t,
        !(t.len() >= 6 && t.subrange(0, 6) == "toolu_"@) ==> toolu_of(t) == "toolu_"@ + t,
{
    reveal_strlit("toolu_");
    assert(("toolu_"@ + t).subrange(0, 6) =~= "toolu_"@);
}


/// The request timeout is lifted on exactly the three streaming chat routes.
pub proof fn law_only_streaming_routes_skip_timeout(path: Seq<char>)
    ensures
        streaming_route(path) <==> (path == "/api/chat/completion"@ || path == "/v1/chat/completions"@ || path == "/v1/messages"@),
{
}

/// A configured provider is `configured` whatever its credential; an
/// unconfigured one is `credential-blocked` exactly when it names a
/// non-blank credential, whose name the explanation gives; otherwise it is
/// `available`. Every explanation begins with the provider id.
pub proof fn law_catalog_status_precedence(id: Seq<char>, configured: bool, env: Option<Seq<char>>)
    ensures
        configured ==> catalog_status(id, configured, env).0 == "configured"@,
        !configured && non_blank(env) ==> catalog_status(id, configured, env) == (
            "credential-blocked"@,
            id + " requires a configured credential such as "@ + env.unwrap() + "."@,
        ),
        !configured && !non_blank(env) ==> catalog_status(id, configured, env).0 == "available"@,
        catalog_status(id, configured, env).1.len() >= id.len() && catalog_status(id, configured, env).1.take(id.len() as int) == id,
{
    let e = catalog_status(id, configured, env).1;
    assert(e.take(id.len() as int) =~= id);
}

/// A title comes from the user's message when it has text, else from the
/// assistant's reply when that has text, else it is `New Conversation`.
pub proof fn law_title_seed_order(message: Option<Seq<char>>, assistant: Option<Seq<char>>)
    ensures
        non_blank(message) ==> title_seed(message, assistant) == message.unwrap(),
        !non_blank(message) && non_blank(assistant) ==> title_seed(message, assistant) == assistant.unwrap(),
        !non_blank(message) && !non_blank(assistant) ==> title_seed(message, assistant) == "New Conversation"@,
{
}

proof fn lemma_cut_point_fits(s: Seq<char>, k: int, limit: int)
    requires
        0 <= k <= s.len(),
        utf8_len(s.take(k)) <= limit,
    ensures
        0 <= cut_point(s, k, limit) <= s.len(),
        utf8_len(s.take(cut_point(s, k, limit))) <= limit,
    decreases s.len() - k,
{
    if k < s.len() && utf8_len(s.take(k + 1)) <= limit {
        lemma_cut_point_fits(s, k + 1, limit);
    } else if k >= s.len() {
        assert(s.take(k) =~= s.take(s.len() as int));
    }
}

/// A title never exceeds 64 bytes; a text without words is titled
/// `New Conversation`; a text of at most eight words that fit in 64 bytes
/// is titled by those words joined by single spaces.
pub proof fn law_titles_fit_and_keep_short_texts(input: Seq<char>)
    ensures
        words(input).len() == 0 ==> title_of(input) == "New Conversation"@,
        words(input).len() > 0 ==> utf8_len(title_of(input)) <= 64,
        0 < words(input).len() <= 8 && utf8_len(space_joined(words(input))) <= 64 ==> title_of(input) == space_joined(words(input)),
{
    let j = title_words(input);
    if words(input).len() > 0 && utf8_len(j) > 64 {
        assert(j.take(0) =~= Seq::<char>::empty());
        lemma_cut_point_fits(j, 0, 64);
        let p = j.take(cut_point(j, 0, 64));
        crate::text::lemma_last_non_space_bounds(p, 0, p.len() as int);
        let m = crate::text::last_non_space_end(p, 0, p.len() as int);
        lemma_utf8_len_prefix(p, m, p.len() as int);
        assert(p.take(p.len() as int) =~= p);
    }
}

/// The first cookie pair that names `uar_session_id` decides the session:
/// pairs before it that name other cookies do not matter, nor does
/// anything after it.
pub proof fn law_first_session_cookie_wins(ps: Seq<Seq<char>>, k: int)
    requires
        0 <= k < ps.len(),
        cookie_pair_session(ps[k]) is Some,
        forall|j: int| 0 <= j < k ==> #[trigger] cookie_pair_session(ps[j]) is None,
    ensures
        first_session_cookie(ps) == cookie_pair_session(ps[k]),
    decreases k,
{
    if k > 0 {
        assert forall|j: int| 0 <= j < k - 1 implies #[trigger] cookie_pair_session(ps.drop_first()[j]) is None by {
            assert(ps.drop_first()[j] == ps[j + 1]);
        }
        law_first_session_cookie_wins(ps.drop_first(), k - 1);
        assert(cookie_pair_session(ps[0]) is None);
    }
}

/// A cookie pair carries a session exactly as `uar_session_id=<value>`,
/// once surrounding whitespace is trimmed.
pub proof fn law_session_cookie_pair_shape(piece: Seq<char>, v: Seq<char>)
    ensures
        cookie_pair_session(piece) == Some(v) ==> trimmed(piece) == "uar_session_id="@ + v,
{
    let t = trimmed(piece);
    let i = index_of(t, '=');
    lemma_index_of_bounds(t, '=');
    if cookie_pair_session(piece) == Some(v) {
        reveal_strlit("uar_session_id");
        reveal_strlit("uar_session_id=");
        assert(t =~= t.take(i) + seq!['='] + t.skip(i + 1));
        assert("uar_session_id"@ + seq!['='] =~= "uar_session_id="@);
        assert(t =~= "uar_session_id="@ + v);
    }
}

} // verus!
