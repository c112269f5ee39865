use universal_agent_runtime::sandbox::platform::{
    build_runner, configured_isolated_runner, EnvRead, IsolatedRunnerError, RunnerChoice,
};

fn value(s: &str) -> EnvRead {
    EnvRead::Value(s.to_string())
}

fn error_of(forced: EnvRead, endpoint: EnvRead, token: EnvRead) -> IsolatedRunnerError {
    match configured_isolated_runner(&forced, &endpoint, &token) {
        Err(e) => e,
        Ok(_) => panic!("expected a configuration error"),
    }
}

#[test]
fn no_endpoint_means_no_isolated_runner() {
    let r = configured_isolated_runner(&EnvRead::NotPresent, &EnvRead::NotPresent, &EnvRead::NotPresent);
    assert!(matches!(r, Ok(None)));
}

#[test]
fn forcing_the_local_runner_is_refused() {
    let e = error_of(value("wasmtime"), value("https://sandbox.example"), EnvRead::NotPresent);
    assert!(matches!(e, IsolatedRunnerError::UnsupportedBackend));
    assert_eq!(
        e.message(),
        "Governed sandbox execution requires the remote backend; the local runner does not enforce isolation"
    );
}

#[test]
fn forcing_remote_without_endpoint_is_refused() {
    let e = error_of(value("remote"), EnvRead::NotPresent, EnvRead::NotPresent);
    assert_eq!(e.message(), "UAR_SANDBOX_REMOTE_URL is required for the remote backend");
}

#[test]
fn the_base_url_loses_its_trailing_slash() {
    let r = configured_isolated_runner(&value("remote"), &value("https://sandbox.example.com/"), &value("tok"));
    let config = r.ok().unwrap().unwrap();
    assert_eq!(config.base_url, "https://sandbox.example.com");
    assert_eq!(config.token.as_deref(), Some("tok"));
    let plain = configured_isolated_runner(&EnvRead::NotPresent, &value("http://10.0.0.5:9000/api/"), &EnvRead::NotPresent);
    let config = plain.ok().unwrap().unwrap();
    assert_eq!(config.base_url, "http://10.0.0.5:9000/api");
    assert_eq!(config.token, None);
}

#[test]
fn urls_with_credentials_query_fragment_or_other_schemes_are_refused() {
    for url in ["https://user:pw@sandbox.example/", "https://sandbox.example/?a=b", "https://sandbox.example/#x", "ftp://sandbox.example/"] {
        let e = error_of(EnvRead::NotPresent, value(url), EnvRead::NotPresent);
        assert!(matches!(e, IsolatedRunnerError::UrlNotAllowed), "{url}");
        assert_eq!(e.message(), "Remote sandbox requires an HTTP(S) base URL without URL credentials, query or fragment");
    }
}

#[test]
fn an_endpoint_that_does_not_parse_is_invalid() {
    let e = error_of(EnvRead::NotPresent, value("sandbox without scheme"), EnvRead::NotPresent);
    assert_eq!(e.message(), "Invalid remote sandbox base URL");
}

#[test]
fn non_unicode_variables_are_named() {
    let e = error_of(EnvRead::NotUnicode, EnvRead::NotPresent, EnvRead::NotPresent);
    assert_eq!(e.message(), "UAR_SANDBOX_RUNNER must be valid Unicode");
    let e = error_of(EnvRead::NotPresent, EnvRead::NotUnicode, EnvRead::NotPresent);
    assert_eq!(e.message(), "UAR_SANDBOX_REMOTE_URL must be valid Unicode");
    let e = error_of(EnvRead::NotPresent, value("https://sandbox.example"), EnvRead::NotUnicode);
    assert_eq!(e.message(), "UAR_SANDBOX_REMOTE_TOKEN must be valid Unicode");
}

#[test]
fn build_runner_follows_the_selection_order() {
    assert!(matches!(build_runner(Some("wasmtime".into()), Some("https://r".into()), None), RunnerChoice::Wasmtime));
    match build_runner(Some("remote".into()), Some("https://r".into()), Some("t".into())) {
        RunnerChoice::Remote { url, token } => {
            assert_eq!(url, "https://r");
            assert_eq!(token.as_deref(), Some("t"));
        }
        _ => panic!("remote was forced"),
    }
    assert!(matches!(build_runner(Some("firecracker".into()), Some("https://r".into()), None), RunnerChoice::Remote { .. }));
    assert!(matches!(build_runner(Some("firecracker".into()), None, None), RunnerChoice::Wasmtime));
    assert!(matches!(build_runner(None, Some("https://r".into()), None), RunnerChoice::Remote { .. }));
    assert!(matches!(build_runner(None, None, None), RunnerChoice::Wasmtime));
}
