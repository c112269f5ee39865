//! Endpoints of remote MCP servers: resolving a configured URL before a
//! connection is attempted.

use vstd::prelude::*;
use vstd::string::*;

use crate::mcp::binding_cache::{BindingFailure, McpBindingError, McpBindingRequest};
use crate::mcp::catalog::{AuthenticationView, ServerAuthentication};
use crate::mcp::config::{
    expand_env_placeholders, expand_env_placeholders_strict, expand_from_environment, EntryView, McpServerEntry,
    PlaceholderError,
};
use crate::mcp::exposure::{has_sub, has_substring};
use crate::mcp::placeholder::{env_value, env_view, expanded, lookup, placeholders, unresolved_names};
use crate::text::{chars_of, concat, owned};
use crate::urls::{parse_url, parsed_url, replace_all, replaced, ParsedUrl, UrlView};

verus! {

/// Why a remote entry's URL does not resolve.
pub enum RemoteUrlError {
    /// The URL names the Tavily key, but the entry's `env` does not set it.
    MissingTavilyKey { server: String },
    /// A placeholder is left without value or default.
    Unresolved { server: String, cause: PlaceholderError },
    /// The expanded text is not a URL.
    Invalid { server: String },
}

pub enum RemoteUrlFailure {
    MissingTavilyKey,
    Unresolved(Seq<Seq<char>>),
    Invalid,
}

impl RemoteUrlError {
    pub open spec fn failure(&self) -> RemoteUrlFailure {
        match self {
            RemoteUrlError::MissingTavilyKey { .. } => RemoteUrlFailure::MissingTavilyKey,
            RemoteUrlError::Unresolved { cause: PlaceholderError::Unresolved { names, .. }, .. } => RemoteUrlFailure::Unresolved(
                names@.map_values(|n: String| n@),
            ),
            RemoteUrlError::Invalid { .. } => RemoteUrlFailure::Invalid,
        }
    }

    pub open spec fn server(&self) -> Seq<char> {
        match self {
            RemoteUrlError::MissingTavilyKey { server } => server@,
            RemoteUrlError::Unresolved { server, .. } => server@,
            RemoteUrlError::Invalid { server } => server@,
        }
    }

    /// The error's text, without its cause.
    pub fn message(&self) -> (r: String)
        ensures
            r@ == match self.failure() {
                RemoteUrlFailure::MissingTavilyKey => "remote MCP '"@ + self.server() + "' missing TAVILY_API_KEY"@,
                RemoteUrlFailure::Unresolved(_) => "cannot resolve url for remote MCP '"@ + self.server() + "'"@,
                RemoteUrlFailure::Invalid => "invalid url for remote MCP '"@ + self.server() + "'"@,
            },
    {
        let (head, server, tail) = match self {
            RemoteUrlError::MissingTavilyKey { server } => ("remote MCP '", server, "' missing TAVILY_API_KEY"),
            RemoteUrlError::Unresolved { server, cause: PlaceholderError::Unresolved { .. } } => (
                "cannot resolve url for remote MCP '",
                server,
                "'",
            ),
            RemoteUrlError::Invalid { server } => ("invalid url for remote MCP '", server, "'"),
        };
        let front = concat(head, server.as_str());
        concat(front.as_str(), tail)
    }
}

/// The placeholder that Tavily's configuration style writes into its URL.
pub open spec fn tavily_marker() -> Seq<char> {
    "${TAVILY_API_KEY}"@
}

/// The text a remote URL expands to: placeholders from the environment,
/// then the Tavily key from the entry's own (already expanded) `env`, then
/// a strict pass that leaves no placeholder unresolved.
pub open spec fn remote_url_text(
    url: Seq<char>,
    entry_env: Seq<(Seq<char>, Seq<char>)>,
    environment: Seq<(Seq<char>, Seq<char>)>,
) -> Result<Seq<char>, RemoteUrlFailure> {
    let lenient = expanded(url, environment);
    let wants_key = has_sub(lenient, tavily_marker());
    let key = env_value(entry_env, "TAVILY_API_KEY"@);
    if wants_key && key is None {
        Err(RemoteUrlFailure::MissingTavilyKey)
    } else {
        let text = if wants_key {
            replaced(lenient, tavily_marker(), key.unwrap())
        } else {
            lenient
        };
        let missing = unresolved_names(placeholders(text), environment);
        if missing.len() > 0 {
            Err(RemoteUrlFailure::Unresolved(missing))
        } else {
            Ok(expanded(text, environment))
        }
    }
}

/// The URL a remote entry resolves to.
pub open spec fn remote_url(
    url: Seq<char>,
    entry_env: Seq<(Seq<char>, Seq<char>)>,
    environment: Seq<(Seq<char>, Seq<char>)>,
) -> Result<UrlView, RemoteUrlFailure> {
    match remote_url_text(url, entry_env, environment) {
        Ok(text) => match parsed_url(text) {
            Some(u) => Ok(u),
            None => Err(RemoteUrlFailure::Invalid),
        },
        Err(e) => Err(e),
    }
}

/// Resolve a remote entry's URL against the environment snapshot and the
/// entry's expanded `env` map.
///
/// Tavily's configuration style embeds `${TAVILY_API_KEY}` in the URL and
/// declares the key in `env`; when the placeholder survives the lenient
/// expansion it is filled from `env`, and only then is the result required to
/// be placeholder-free. Entries that do not name the key never need it.
pub fn resolve_remote_http_url(
    name: &str,
    url: &str,
    env: &[(String, String)],
    environment: &[(String, String)],
) -> (r: Result<ParsedUrl, RemoteUrlError>)
    ensures
        match r {
            Ok(u) => remote_url(url@, env_view(env@), env_view(environment@)) == Ok::<UrlView, RemoteUrlFailure>(
                u.view(),
            ),
            Err(e) => remote_url(url@, env_view(env@), env_view(environment@)) == Err::<UrlView, RemoteUrlFailure>(
                e.failure(),
            ) && e.server() == name@,
        },
{
    let lenient = expand_env_placeholders(url, environment);
    let marker = "${TAVILY_API_KEY}";
    proof {
        reveal_strlit("${TAVILY_API_KEY}");
    }
    let text = if has_substring(lenient.as_str(), marker) {
        let key_name = owned("TAVILY_API_KEY");
        let key = match lookup(env, &key_name) {
            Some(k) => k,
            None => {
                return Err(RemoteUrlError::MissingTavilyKey { server: owned(name) });
            },
        };
        if chars_of(key.as_str()).len() == 0 {
            return Err(RemoteUrlError::MissingTavilyKey { server: owned(name) });
        }
        replace_all(lenient.as_str(), marker, key.as_str())
    } else {
        lenient
    };
    let strict = match expand_env_placeholders_strict(text.as_str(), environment) {
        Ok(s) => s,
        Err(cause) => {
            return Err(RemoteUrlError::Unresolved { server: owned(name), cause });
        },
    };
    match parse_url(strict.as_str()) {
        Some(u) => Ok(u),
        None => Err(RemoteUrlError::Invalid { server: owned(name) }),
    }
}

/// A remote URL that does not name the Tavily key never needs it: its
/// resolution does not depend on the entry's `env` at all, so an entry
/// without `TAVILY_API_KEY` resolves exactly as one with it.
pub proof fn law_only_tavily_urls_need_the_key(
    url: Seq<char>,
    env1: Seq<(Seq<char>, Seq<char>)>,
    env2: Seq<(Seq<char>, Seq<char>)>,
    environment: Seq<(Seq<char>, Seq<char>)>,
)
    requires
        !has_sub(expanded(url, environment), tavily_marker()),
    ensures
        remote_url(url, env1, environment) == remote_url(url, env2, environment),
        !(remote_url(url, env1, environment) matches Err(RemoteUrlFailure::MissingTavilyKey)),
{
}

/// The endpoint a binding request connects to, or why it cannot: only a
/// remote entry has one, authentication must be settled, and the URL must
/// resolve from the request's own environment and parse.
pub open spec fn snapshot_endpoint(
    name: Seq<char>,
    configuration: EntryView,
    authentication: AuthenticationView,
    variables: Seq<(Seq<char>, Seq<char>)>,
) -> Result<UrlView, BindingFailure> {
    match configuration {
        EntryView::RemoteHttp { url, .. } => if authentication is Unknown || authentication is Required {
            Err(BindingFailure::AuthenticationRequired(name))
        } else if unresolved_names(placeholders(url), variables).len() > 0 {
            Err(BindingFailure::ConnectionFailed(name))
        } else {
            match parsed_url(expanded(url, variables)) {
                Some(u) => Ok(u),
                None => Err(BindingFailure::ConnectionFailed(name)),
            }
        },
        _ => Err(BindingFailure::InvalidBinding(name)),
    }
}

/// The endpoint of a request's remote server, resolved only from the
/// request's captured environment.
pub fn http_endpoint(request: &McpBindingRequest) -> (r: Result<ParsedUrl, McpBindingError>)
    ensures
        ({
            let d = request.view().1;
            let expected = snapshot_endpoint(
                d.name,
                d.configuration,
                d.authentication,
                request.view().0.environment.variables,
            );
            match r {
                Ok(u) => expected == Ok::<UrlView, BindingFailure>(u.view()),
                Err(e) => expected == Err::<UrlView, BindingFailure>(e.view()),
            }
        }),
{
    let definition = request.definition();
    let name = definition.name();
    let url = match definition.configuration() {
        McpServerEntry::RemoteHttp { url, .. } => url,
        _ => {
            return Err(McpBindingError::InvalidBinding { server: owned(name) });
        },
    };
    match definition.authentication() {
        ServerAuthentication::Unknown | ServerAuthentication::Required => {
            return Err(McpBindingError::AuthenticationRequired { server: owned(name) });
        },
        _ => {},
    }
    let variables = request.environment().variables();
    let text = match expand_from_environment(url.as_str(), variables.as_slice()) {
        Ok(t) => t,
        Err(_) => {
            return Err(McpBindingError::ConnectionFailed { server: owned(name) });
        },
    };
    match parse_url(text.as_str()) {
        Some(u) => Ok(u),
        None => Err(McpBindingError::ConnectionFailed { server: owned(name) }),
    }
}

} // verus!
