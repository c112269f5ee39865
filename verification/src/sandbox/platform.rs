//! Choosing the sandbox backend from the host's configuration variables.

use vstd::prelude::*;
use vstd::string::*;

use crate::text::{chars_of, concat, owned, str_eq};
use crate::urls::{parse_url, parsed_url, trim_end_char, trimmed_end, UrlView};

verus! {

/// One configuration variable as the host read it.
pub enum EnvRead {
    NotPresent,
    Value(String),
    /// Set, but not valid Unicode.
    NotUnicode,
}

pub enum EnvReadView {
    NotPresent,
    Value(Seq<char>),
    NotUnicode,
}

impl EnvRead {
    pub open spec fn view(&self) -> EnvReadView {
        match self {
            EnvRead::NotPresent => EnvReadView::NotPresent,
            EnvRead::Value(v) => EnvReadView::Value(v@),
            EnvRead::NotUnicode => EnvReadView::NotUnicode,
        }
    }
}

/// The remote backend to connect to: a base URL without trailing slashes and
/// an optional bearer token.
pub struct RemoteRunnerConfig {
    pub base_url: String,
    pub token: Option<String>,
}

/// Why governed execution cannot be configured.
pub enum IsolatedRunnerError {
    /// The named variable is set but not valid Unicode.
    NotUnicode { variable: String },
    /// A backend other than `remote` was forced.
    UnsupportedBackend,
    /// `remote` was forced without an endpoint.
    MissingEndpoint,
    /// The endpoint does not parse as a URL.
    InvalidUrl,
    /// The endpoint is not an HTTP(S) base URL, or carries credentials, a
    /// query or a fragment.
    UrlNotAllowed,
}

pub enum IsolatedRunnerFailure {
    NotUnicode(Seq<char>),
    UnsupportedBackend,
    MissingEndpoint,
    InvalidUrl,
    UrlNotAllowed,
}

impl IsolatedRunnerError {
    pub open spec fn view(&self) -> IsolatedRunnerFailure {
        match self {
            IsolatedRunnerError::NotUnicode { variable } => IsolatedRunnerFailure::NotUnicode(variable@),
            IsolatedRunnerError::UnsupportedBackend => IsolatedRunnerFailure::UnsupportedBackend,
            IsolatedRunnerError::MissingEndpoint => IsolatedRunnerFailure::MissingEndpoint,
            IsolatedRunnerError::InvalidUrl => IsolatedRunnerFailure::InvalidUrl,
            IsolatedRunnerError::UrlNotAllowed => IsolatedRunnerFailure::UrlNotAllowed,
        }
    }

    /// The error's text.
    pub fn message(&self) -> (r: String)
        ensures
            r@ == match self.view() {
                IsolatedRunnerFailure::NotUnicode(v) => v + " must be valid Unicode"@,
                IsolatedRunnerFailure::UnsupportedBackend => "Governed sandbox execution requires the remote backend; the local runner does not enforce isolation"@,
                IsolatedRunnerFailure::MissingEndpoint => "UAR_SANDBOX_REMOTE_URL is required for the remote backend"@,
                IsolatedRunnerFailure::InvalidUrl => "Invalid remote sandbox base URL"@,
                IsolatedRunnerFailure::UrlNotAllowed => "Remote sandbox requires an HTTP(S) base URL without URL credentials, query or fragment"@,
            },
    {
        match self {
            IsolatedRunnerError::NotUnicode { variable } => concat(variable.as_str(), " must be valid Unicode"),
            IsolatedRunnerError::UnsupportedBackend => owned("Governed sandbox execution requires the remote backend; the local runner does not enforce isolation"),
            IsolatedRunnerError::MissingEndpoint => owned("UAR_SANDBOX_REMOTE_URL is required for the remote backend"),
            IsolatedRunnerError::InvalidUrl => owned("Invalid remote sandbox base URL"),
            IsolatedRunnerError::UrlNotAllowed => owned("Remote sandbox requires an HTTP(S) base URL without URL credentials, query or fragment"),
        }
    }
}

/// A base URL the remote backend accepts: HTTP(S) with a host, and no user
/// name, password, query or fragment.
pub open spec fn acceptable_base(u: UrlView) -> bool {
    &&& (u.scheme == "http"@ || u.scheme == "https"@)
    &&& u.host is Some
    &&& u.username.len() == 0
    &&& u.password is None
    &&& u.query is None
    &&& u.fragment is None
}

/// The governed backend the variables select: none when no endpoint is
/// configured and nothing is forced, else the remote backend at a checked
/// base URL. Variables are examined in the order the host reads them.
pub open spec fn isolated_runner(forced: EnvReadView, endpoint: EnvReadView, token: EnvReadView) -> Result<
    Option<(Seq<char>, Option<Seq<char>>)>,
    IsolatedRunnerFailure,
> {
    if forced is NotUnicode {
        Err(IsolatedRunnerFailure::NotUnicode("UAR_SANDBOX_RUNNER"@))
    } else if forced matches EnvReadView::Value(f) && f != "remote"@ {
        Err(IsolatedRunnerFailure::UnsupportedBackend)
    } else {
        match endpoint {
            EnvReadView::NotUnicode => Err(IsolatedRunnerFailure::NotUnicode("UAR_SANDBOX_REMOTE_URL"@)),
            EnvReadView::NotPresent => if forced is Value {
                Err(IsolatedRunnerFailure::MissingEndpoint)
            } else {
                Ok(None)
            },
            EnvReadView::Value(e) => match parsed_url(e) {
                None => Err(IsolatedRunnerFailure::InvalidUrl),
                Some(u) => if !acceptable_base(u) {
                    Err(IsolatedRunnerFailure::UrlNotAllowed)
                } else {
                    match token {
                        EnvReadView::NotUnicode => Err(IsolatedRunnerFailure::NotUnicode("UAR_SANDBOX_REMOTE_TOKEN"@)),
                        EnvReadView::NotPresent => Ok(Some((trimmed_end(u.serialization, '/'), None))),
                        EnvReadView::Value(t) => Ok(Some((trimmed_end(u.serialization, '/'), Some(t)))),
                    }
                },
            },
        }
    }
}

/// Whether a variable read as not valid Unicode.
fn not_unicode(v: &EnvRead) -> (r: bool)
    ensures
        r == (v.view() is NotUnicode),
{
    match v {
        EnvRead::NotUnicode => true,
        _ => false,
    }
}

/// Resolve the governed execution backend from `UAR_SANDBOX_RUNNER`,
/// `UAR_SANDBOX_REMOTE_URL` and `UAR_SANDBOX_REMOTE_TOKEN`.
///
/// No configured endpoint means isolation is unavailable, never permission to
/// fall back to the local process runner.
pub fn configured_isolated_runner(forced: &EnvRead, endpoint: &EnvRead, token: &EnvRead) -> (r: Result<
    Option<RemoteRunnerConfig>,
    IsolatedRunnerError,
>)
    ensures
        match r {
            Ok(None) => isolated_runner(forced.view(), endpoint.view(), token.view()) == Ok::<
                Option<(Seq<char>, Option<Seq<char>>)>,
                IsolatedRunnerFailure,
            >(None),
            Ok(Some(c)) => isolated_runner(forced.view(), endpoint.view(), token.view()) == Ok::<
                Option<(Seq<char>, Option<Seq<char>>)>,
                IsolatedRunnerFailure,
            >(Some((c.base_url@, crate::urls::opt_chars(c.token)))),
            Err(e) => isolated_runner(forced.view(), endpoint.view(), token.view()) == Err::<
                Option<(Seq<char>, Option<Seq<char>>)>,
                IsolatedRunnerFailure,
            >(e.view()),
        },
{
    proof {
        reveal_strlit("UAR_SANDBOX_RUNNER");
        reveal_strlit("UAR_SANDBOX_REMOTE_URL");
        reveal_strlit("UAR_SANDBOX_REMOTE_TOKEN");
    }
    let forced_is_set = match forced {
        EnvRead::NotUnicode => {
            return Err(IsolatedRunnerError::NotUnicode { variable: owned("UAR_SANDBOX_RUNNER") });
        },
        EnvRead::Value(f) => {
            if !str_eq(f.as_str(), "remote") {
                return Err(IsolatedRunnerError::UnsupportedBackend);
            }
            true
        },
        EnvRead::NotPresent => false,
    };
    let text = match endpoint {
        EnvRead::NotUnicode => {
            return Err(IsolatedRunnerError::NotUnicode { variable: owned("UAR_SANDBOX_REMOTE_URL") });
        },
        EnvRead::NotPresent => {
            if forced_is_set {
                return Err(IsolatedRunnerError::MissingEndpoint);
            }
            return Ok(None);
        },
        EnvRead::Value(e) => e,
    };
    let url = match parse_url(text.as_str()) {
        Some(u) => u,
        None => {
            return Err(IsolatedRunnerError::InvalidUrl);
        },
    };
    let scheme_ok = str_eq(url.scheme.as_str(), "http") || str_eq(url.scheme.as_str(), "https");
    let no_user = chars_of(url.username.as_str()).len() == 0;
    if !(scheme_ok && url.host.is_some() && no_user && url.password.is_none() && url.query.is_none()
        && url.fragment.is_none()) {
        return Err(IsolatedRunnerError::UrlNotAllowed);
    }
    if not_unicode(token) {
        return Err(IsolatedRunnerError::NotUnicode { variable: owned("UAR_SANDBOX_REMOTE_TOKEN") });
    }
    let token = match token {
        EnvRead::Value(t) => Some(owned(t.as_str())),
        _ => None,
    };
    Ok(Some(RemoteRunnerConfig { base_url: trim_end_char(url.serialization.as_str(), '/'), token }))
}

/// The backend a server process starts with.
pub enum RunnerChoice {
    /// The local process runner, which does not enforce isolation.
    Wasmtime,
    /// The remote backend at a URL, as configured.
    Remote { url: String, token: Option<String> },
}

pub enum RunnerChoiceView {
    Wasmtime,
    Remote(Seq<char>, Option<Seq<char>>),
}

impl RunnerChoice {
    pub open spec fn view(&self) -> RunnerChoiceView {
        match self {
            RunnerChoice::Wasmtime => RunnerChoiceView::Wasmtime,
            RunnerChoice::Remote { url, token } => RunnerChoiceView::Remote(url@, crate::urls::opt_chars(*token)),
        }
    }
}

/// The backend selected by the variables, variables that are unset or not
/// valid Unicode counting as absent: a forced `wasmtime` or `remote` first,
/// an unknown forced name falling through to auto-detection, then the remote
/// backend when an endpoint is configured, and the local runner last.
pub open spec fn runner_choice(forced: Option<Seq<char>>, url: Option<Seq<char>>, token: Option<Seq<char>>) -> RunnerChoiceView {
    if forced == Some("wasmtime"@) {
        RunnerChoiceView::Wasmtime
    } else if forced == Some("remote"@) {
        RunnerChoiceView::Remote(url.unwrap(), token)
    } else {
        match url {
            Some(u) => RunnerChoiceView::Remote(u, token),
            None => RunnerChoiceView::Wasmtime,
        }
    }
}

/// Build the backend from the variables' values. Forcing `remote` without an
/// endpoint is a startup error the host reports before calling this.
pub fn build_runner(forced: Option<String>, url: Option<String>, token: Option<String>) -> (r: RunnerChoice)
    requires
        forced matches Some(f) && f@ == "remote"@ ==> url is Some,
    ensures
        r.view() == runner_choice(crate::urls::opt_chars(forced), crate::urls::opt_chars(url), crate::urls::opt_chars(token)),
{
    match forced {
        Some(f) => {
            if str_eq(f.as_str(), "wasmtime") {
                return RunnerChoice::Wasmtime;
            }
            if str_eq(f.as_str(), "remote") {
                match url {
                    Some(u) => {
                        return RunnerChoice::Remote { url: u, token };
                    },
                    None => {
                        return RunnerChoice::Wasmtime;
                    },
                }
            }
        },
        None => {},
    }
    match url {
        Some(u) => RunnerChoice::Remote { url: u, token },
        None => RunnerChoice::Wasmtime,
    }
}


/// A forced `wasmtime` backend wins over a configured endpoint; otherwise a
/// configured endpoint selects the remote backend with the given token; and
/// without either the local runner is used.
pub proof fn law_runner_choice_precedence(forced: Option<Seq<char>>, url: Option<Seq<char>>, token: Option<Seq<char>>)
    ensures
        forced == Some("wasmtime"@) ==> runner_choice(forced, url, token) == RunnerChoiceView::Wasmtime,
        forced != Some("wasmtime"@) && url is Some ==> runner_choice(forced, url, token) == RunnerChoiceView::Remote(
            url.unwrap(),
            token,
        ),
        forced != Some("remote"@) && forced != Some("wasmtime"@) && url is None ==> runner_choice(forced, url, token) == RunnerChoiceView::Wasmtime,
{
}

} // verus!
