use folio::unit::{Backend, backend_args, host_port, recipe, refuse_foreign_flags, unit_text, use_launchd};

#[test]
fn a_service_binds_what_the_endpoint_names() {
    assert_eq!(
        host_port("http://127.0.0.1:8080/v1/embeddings").unwrap(),
        ("127.0.0.1".to_string(), 8080)
    );
    assert_eq!(
        host_port("https://box.local:9999/v1/embeddings").unwrap(),
        ("box.local".to_string(), 9999)
    );
    // A port folio cannot read is a service that would bind the wrong one.
    assert!(host_port("http://example.com/v1/embeddings").is_err());
}

#[test]
fn a_tei_unit_carries_the_flag_folio_cannot_check_at_runtime() {
    let args = backend_args(
        Backend::Tei,
        "org/model",
        "ignored",
        "ignored",
        8192,
        "127.0.0.1".into(),
        8080,
    );
    let pairs: Vec<(&str, &str)> =
        args.windows(2).map(|w| (w[0].as_str(), w[1].as_str())).collect();
    // Without this the endpoint answers 200 with a vector of a section's
    // beginning and folio's budget calibration has nothing to react to.
    assert!(pairs.contains(&("--auto-truncate", "false")));
    assert!(pairs.contains(&("--max-batch-tokens", "8192")));
    assert!(pairs.contains(&("--model-id", "org/model")));
    // llama-server's flags mean nothing here and are not printed anyway.
    for absent in ["--hf-file", "--pooling", "-ub", "--embeddings"] {
        assert!(!args.iter().any(|a| a == absent), "{absent} reached a TEI unit");
    }
}

#[test]
fn the_default_backend_prints_what_it_always_printed() {
    let args = backend_args(
        Backend::LlamaCpp,
        "repo",
        "file.gguf",
        "cls",
        8192,
        "127.0.0.1".into(),
        8080,
    );
    assert_eq!(
        args,
        [
            "--embeddings",
            "-hf",
            "repo",
            "--hf-file",
            "file.gguf",
            "--pooling",
            "cls",
            "-c",
            "8192",
            "-b",
            "8192",
            "-ub",
            "8192",
            "--host",
            "127.0.0.1",
            "--port",
            "8080"
        ]
    );
}

#[test]
fn a_port_is_read_from_the_last_colon_and_refused_when_it_is_not_a_port() {
    let err = host_port("http://box:99999/v1").unwrap_err();
    assert_eq!(err.message(), "99999 is not a port number");
    let err = host_port("http://example.com/v1/embeddings").unwrap_err();
    assert_eq!(
        err.message(),
        "http://example.com/v1/embeddings names no port, so a service cannot bind it"
    );
    assert_eq!(host_port("[::1]:8080").unwrap(), ("[::1]".to_string(), 8080));
    assert_eq!(host_port("localhost:80?x=1").unwrap(), ("localhost".to_string(), 80));
}

#[test]
fn a_tei_unit_refuses_a_flag_it_would_ignore() {
    let err = refuse_foreign_flags(Backend::Tei, true, false).unwrap_err();
    assert_eq!(
        err.message(),
        "--hf-file is llama-server's and means nothing to text-embeddings-router, \
         which reads safetensors and takes pooling from the model"
    );
    assert!(refuse_foreign_flags(Backend::Tei, false, true).is_err());
    assert!(refuse_foreign_flags(Backend::Tei, false, false).is_ok());
    assert!(refuse_foreign_flags(Backend::LlamaCpp, true, true).is_ok());
}

#[test]
fn a_recipe_fills_in_what_was_measured() {
    let (server, hf, file, pooling) = recipe(Backend::Tei, None, None, None);
    assert_eq!(server, "text-embeddings-router");
    assert_eq!(hf, "Alibaba-NLP/gte-modernbert-base");
    assert_eq!(file, "gte-modernbert-base-Q8_0.gguf");
    assert_eq!(pooling, "cls");
    let (server, hf, _, pooling) = recipe(Backend::LlamaCpp, Some("x/y"), None, Some("mean"));
    assert_eq!(server, "llama-server");
    assert_eq!(hf, "x/y");
    assert_eq!(pooling, "mean");
}

#[test]
fn the_manager_is_the_one_asked_for_or_the_platform_s() {
    assert!(use_launchd(true, false, false));
    assert!(!use_launchd(false, true, true));
    assert!(use_launchd(false, false, true));
    assert!(!use_launchd(false, false, false));
}

#[test]
fn a_systemd_unit_starts_the_server_with_its_arguments() {
    let args = vec!["--port".to_string(), "8080".to_string()];
    let text = unit_text(false, "http://h:8080/v1", "llama-server", &"/bin/llama-server".to_string(), &args);
    assert!(text.starts_with("# Serves http://h:8080/v1 for folio."));
    assert!(text.contains("\nExecStart=/bin/llama-server --port 8080\n"));
    assert!(text.ends_with("WantedBy=default.target\n"));
}

#[test]
fn a_launchd_plist_lists_the_server_then_its_arguments() {
    let args = vec!["--port".to_string(), "8080".to_string()];
    let text = unit_text(true, "http://h:8080/v1", "llama-server", &"/bin/llama-server".to_string(), &args);
    assert!(text.contains(
        "  <array>\n    <string>/bin/llama-server</string>\n    <string>--port</string>\n    <string>8080</string>\n  </array>\n"
    ));
    assert!(text.ends_with("</plist>\n"));
}
