use folio::config::{
    Config, MAX_CHARS, Source, apply_setting, at_least_one, budget, check_config, endpoint_host,
    extract_host, is_loopback, refuse_project_key, resolve, resolve_allow_insecure,
    resolve_api_key, transport_host, validate_transport,
};

#[test]
fn an_unrecorded_budget_is_not_a_budget_of_zero() {
    // The case: an index written before folio recorded the budget reads
    // back as zero, and a refresh took it literally, truncated every
    // section of the file it was refreshing to nothing, and embedded the
    // empty string. Fifteen sections of MDN went silently blank that way.
    assert_eq!(budget(0), MAX_CHARS);
    assert_eq!(budget(1), 1);
    assert_eq!(budget(12_000), 12_000);
    assert!(at_least_one("0").is_err(), "and nobody can ask for it on purpose");
    assert_eq!(at_least_one("1"), Ok(1));
}

#[test]
fn a_budget_that_is_not_a_number_is_refused_in_the_parser_s_words() {
    assert_eq!(at_least_one("+12"), Ok(12));
    assert_eq!(
        at_least_one("0"),
        Err("a section budget of 0 characters would embed nothing".to_string())
    );
    assert_eq!(at_least_one(""), Err("cannot parse integer from empty string".to_string()));
    assert_eq!(at_least_one("12a"), Err("invalid digit found in string".to_string()));
    assert_eq!(at_least_one("-1"), Err("invalid digit found in string".to_string()));
    assert_eq!(
        at_least_one("99999999999999999999999"),
        Err("number too large to fit in target type".to_string())
    );
}

#[test]
fn each_scope_beats_the_one_below_it() {
    let (proj, user) = (Some("from-corpus"), Some("from-user"));
    let env = Some("from-env");

    let (v, src) = resolve(Some("from-flag"), env, proj, user, "from-default");
    assert_eq!((v.as_str(), src.label()), ("from-flag", "flag"));

    let (v, src) = resolve(None, env, proj, user, "from-default");
    assert_eq!((v.as_str(), src.label()), ("from-env", "environment"));

    let (v, src) = resolve(None, None, proj, user, "from-default");
    assert_eq!((v.as_str(), src.label()), ("from-corpus", "folio.yaml"));

    let (v, src) = resolve(None, None, None, user, "from-default");
    assert_eq!((v.as_str(), src.label()), ("from-user", "user config"));

    let (v, src) = resolve(None, None, None, None, "from-default");
    assert_eq!((v.as_str(), src.label()), ("from-default", "default"));

    // An environment variable that is set but empty is not set.
    let (v, src) = resolve(None, Some(""), proj, user, "from-default");
    assert_eq!((v.as_str(), src), ("from-corpus", Source::Project));
}

#[test]
fn resolve_api_key_precedence() {
    // None configured
    let (k, src) = resolve_api_key("https://api.openai.com/v1", None, None, None);
    assert_eq!(k, None);
    assert_eq!(src.label(), "none");

    // User config
    let (k, src) = resolve_api_key("https://api.openai.com/v1", None, None, Some("user-secret"));
    assert_eq!(k.as_deref(), Some("user-secret"));
    assert_eq!(src.label(), "user config");

    // OPENAI_API_KEY beats user config only for api.openai.com
    let openai = Some("openai-secret");
    let (k, src) = resolve_api_key("https://api.openai.com/v1", None, openai, Some("user-secret"));
    assert_eq!(k.as_deref(), Some("openai-secret"));
    assert_eq!(src.label(), "environment");

    // OPENAI_API_KEY ignored for non-openai endpoints
    let (k, src) = resolve_api_key("http://127.0.0.1:8080/v1", None, openai, Some("user-secret"));
    assert_eq!(k.as_deref(), Some("user-secret"));
    assert_eq!(src.label(), "user config");

    // FOLIO_API_KEY beats OPENAI_API_KEY everywhere
    let folio = Some("folio-secret");
    let (k, src) = resolve_api_key("https://api.openai.com/v1", folio, openai, Some("user-secret"));
    assert_eq!(k.as_deref(), Some("folio-secret"));
    assert_eq!(src.label(), "environment");

    let (k, src) = resolve_api_key("http://127.0.0.1:8080/v1", folio, openai, Some("user-secret"));
    assert_eq!(k.as_deref(), Some("folio-secret"));
    assert_eq!(src.label(), "environment");

    // The host is compared without regard to case.
    let (k, _) = resolve_api_key("https://API.OpenAI.com/v1", None, openai, None);
    assert_eq!(k.as_deref(), Some("openai-secret"));
}

#[test]
fn loopback_and_transport_validation() {
    // The second argument says whether the host reads as a loopback address,
    // which the caller learns from its address parser.
    assert!(is_loopback("127.0.0.1", true));
    assert!(is_loopback("localhost", false));
    assert!(is_loopback("LocalHost", false));
    assert!(is_loopback("::1", true));
    assert!(is_loopback("[::1]", true));
    assert!(is_loopback("127.0.1.1", true));
    assert!(!is_loopback("192.0.2.1", false));
    assert!(!is_loopback("api.openai.com", false));
    assert!(!is_loopback("192.168.1.1", false));

    // Without key: plaintext remote passes
    assert!(validate_transport("http://192.0.2.1:8080/v1/embeddings", false, false, false).is_ok());

    // With key: HTTPS passes
    assert!(validate_transport("https://api.openai.com/v1/embeddings", true, false, false).is_ok());

    // With key: loopback HTTP passes (IPv4, localhost, IPv6 with or without port)
    assert_eq!(transport_host("http://127.0.0.1:8080/v1/embeddings"), "127.0.0.1");
    assert!(validate_transport("http://127.0.0.1:8080/v1/embeddings", true, false, true).is_ok());
    assert_eq!(transport_host("http://localhost:8080/v1/embeddings"), "localhost");
    assert!(validate_transport("http://localhost:8080/v1/embeddings", true, false, false).is_ok());
    assert_eq!(transport_host("http://[::1]/v1/embeddings"), "::1");
    assert!(validate_transport("http://[::1]/v1/embeddings", true, false, true).is_ok());
    assert_eq!(transport_host("http://[::1]:8080/v1/embeddings"), "::1");
    assert!(validate_transport("http://[::1]:8080/v1/embeddings", true, false, true).is_ok());

    // With key: non-loopback plaintext HTTP fails
    let err = validate_transport("http://192.0.2.1:8080/v1/embeddings", true, false, false)
        .unwrap_err();
    assert!(err.message().contains("sending credentials over plaintext HTTP is refused"));

    // With key: non-loopback plaintext HTTP passes when allow_insecure is true
    assert!(validate_transport("http://192.0.2.1:8080/v1/embeddings", true, true, false).is_ok());

    // Non-http/https scheme is refused when key is present
    let err = validate_transport("ftp://example.com/v1/embeddings", true, false, false).unwrap_err();
    assert_eq!(
        err.message(),
        "the endpoint at ftp://example.com/v1/embeddings does not use HTTPS; \
         sending credentials over unencrypted transport is refused"
    );

    // FOLIO_ALLOW_INSECURE can enable or disable
    assert!(resolve_allow_insecure(false, Some("1"), Some(false)));
    assert!(!resolve_allow_insecure(false, Some("0"), Some(true)));
    assert!(!resolve_allow_insecure(false, Some("false"), Some(true)));
    assert!(resolve_allow_insecure(false, Some(" YES "), None));
    assert!(resolve_allow_insecure(false, Some("maybe"), Some(true)));
    assert!(!resolve_allow_insecure(false, None, None));
    assert!(resolve_allow_insecure(true, Some("no"), Some(false)));
}

#[test]
fn a_host_is_read_out_of_an_endpoint() {
    assert_eq!(endpoint_host("https://api.openai.com/v1"), "api.openai.com");
    assert_eq!(endpoint_host("http://127.0.0.1:8080/v1"), "127.0.0.1");
    assert_eq!(endpoint_host("http://[::1]:8080/v1"), "[::1]");
    assert_eq!(endpoint_host("box:1?q"), "box");
    assert_eq!(extract_host("[::1]:80"), "[::1]");
    assert_eq!(extract_host("host:80"), "host");
    assert_eq!(extract_host("host"), "host");
}

fn config_with_key(key: Option<&str>) -> Config {
    let mut c = Config::empty();
    c.api_key = key.map(str::to_string);
    c
}

#[test]
fn project_config_refuses_api_key() {
    let err = check_config("/tmp/corpus/folio.yaml", config_with_key(Some("secret-should-refuse")))
        .unwrap_err();
    assert!(
        err.message()
            .contains("folio.yaml is committed with the corpus and must not contain credentials")
    );

    // User config with api_key does not refuse
    let parsed = check_config("/tmp/corpus/user_config.yaml", config_with_key(Some("secret-in-user")))
        .expect("user config allows api_key");
    assert_eq!(parsed.api_key.as_deref(), Some("secret-in-user"));
    assert!(check_config("/tmp/corpus/folio.yaml", config_with_key(None)).is_ok());
}

#[test]
fn a_setting_is_written_only_where_it_may_stand() {
    assert!(refuse_project_key("api_key", true).is_err());
    assert!(refuse_project_key("api_key", false).is_ok());
    assert!(refuse_project_key("model", true).is_ok());

    let mut c = Config::empty();
    apply_setting(&mut c, "endpoint", "http://x".to_string()).unwrap();
    apply_setting(&mut c, "allow_insecure", "true".to_string()).unwrap();
    assert_eq!(c.endpoint.as_deref(), Some("http://x"));
    assert_eq!(c.allow_insecure, Some(true));
    let err = apply_setting(&mut c, "allow_insecure", "yes".to_string()).unwrap_err();
    assert_eq!(err.message(), "allow_insecure must be 'true' or 'false'");
    assert_eq!(c.allow_insecure, Some(true));
    let err = apply_setting(&mut c, "colour", "blue".to_string()).unwrap_err();
    assert_eq!(
        err.message(),
        "no setting named colour — folio config holds endpoint, model, api_key, allow_insecure"
    );
}
