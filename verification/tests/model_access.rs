use popo::errors::{normalize_text, Error};
use popo::model::{
    fingerprint_of, hoist_system, is_retryable, join_url, replay_model, ChatMessage, ChatResponse, ContentPart, ClientOptions, DefaultSection, LlmConfig,
    ProviderConfig, ProviderType, RecordedResponse, ReplayBackend, Role,
};

fn provider(kind: ProviderType, base: &str, key: &str, model: &str) -> ProviderConfig {
    ProviderConfig { kind, api_base: base.into(), api_key: key.into(), model: model.into() }
}

/// The providers of the sample configuration, in name order.
fn sample() -> LlmConfig {
    LlmConfig {
        default: DefaultSection { provider: "deepseek".into() },
        providers: vec![
            ("anthropic".to_string(), provider(ProviderType::Claude, "https://api.anthropic.com", "sk-ant-YOUR-KEY", "sonnet-4")),
            ("deepseek".to_string(), provider(ProviderType::Openai, "https://api.deepseek.com", "sk-affbaeDEMO-KEY", "deepseek-v4-flash")),
            ("local_vllm".to_string(), provider(ProviderType::Openai, "http://localhost:8000/v1", "dummy", "Qwen/Qwen2.5-72B-Instruct")),
            ("openai".to_string(), provider(ProviderType::Openai, "https://api.openai.com/v1", "sk-YOUR-KEY", "gpt-4o")),
        ],
    }
}

#[test]
fn normalize_text_folds_whitespace() {
    assert_eq!(normalize_text("  a\n b\u{3000}c  "), "a b c");
    assert_eq!(normalize_text("\t x\t\ty "), "x y");
}

#[test]
fn join_url_normalizes_slashes() {
    assert_eq!(join_url("http://h/v1", "chat/completions"), "http://h/v1/chat/completions");
    assert_eq!(join_url("http://h/v1/", "/chat/completions"), "http://h/v1/chat/completions");
    assert_eq!(join_url("https://api.anthropic.com", "v1/messages"), "https://api.anthropic.com/v1/messages");
}

#[test]
fn retryable_classification() {
    assert!(is_retryable(&Error::Transport("reset".into())));
    assert!(is_retryable(&Error::ModelStatus { status: 429, body: String::new() }));
    assert!(is_retryable(&Error::ModelStatus { status: 503, body: String::new() }));
    assert!(!is_retryable(&Error::ModelStatus { status: 400, body: String::new() }));
    assert!(!is_retryable(&Error::ModelResponse("bad json".into())));
}

#[test]
fn fingerprint_is_stable_and_distinguishing() {
    let hello = vec![ChatMessage::text(Role::User, "hello".into())];
    let world = vec![ChatMessage::text(Role::User, "world".into())];
    let a1 = fingerprint_of("m", &hello, None, "");
    let a2 = fingerprint_of("m", &hello, None, "");
    let b = fingerprint_of("m", &world, None, "");
    let c = fingerprint_of("other", &hello, None, "");
    assert_eq!(a1, a2);
    assert_ne!(a1, b);
    assert_ne!(a1, c);
    assert_eq!(a1.len(), 16);
}

#[test]
fn image_bytes_affect_fingerprint() {
    let r1 = vec![ChatMessage::text(Role::User, "look".into()).with_image("image/png".into(), "AAAA".into())];
    let r2 = vec![ChatMessage::text(Role::User, "look".into()).with_image("image/png".into(), "BBBB".into())];
    assert_ne!(fingerprint_of("m", &r1, None, ""), fingerprint_of("m", &r2, None, ""));
}

#[test]
fn resolve_falls_back_to_default() {
    let cfg = sample();
    assert_eq!(cfg.resolve(None).unwrap().0, "deepseek");
    assert_eq!(cfg.resolve(Some("openai")).unwrap().0, "openai");
    let (name, ds) = cfg.default_provider().unwrap();
    assert_eq!(name, "deepseek");
    assert_eq!(ds.kind, ProviderType::Openai);
    assert_eq!(ds.model, "deepseek-v4-flash");
    assert_eq!(cfg.provider("anthropic").unwrap().kind, ProviderType::Claude);
}

#[test]
fn unknown_provider_lists_known_ones() {
    let cfg = sample();
    let err = cfg.provider("nope").unwrap_err().message();
    assert!(err.contains("anthropic"));
    assert!(err.contains("deepseek"));
}

#[test]
fn default_provider_must_exist() {
    let bad = LlmConfig {
        default: DefaultSection { provider: "ghost".into() },
        providers: vec![("real".to_string(), provider(ProviderType::Openai, "http://x", "k", "m"))],
    };
    assert!(bad.validate().is_err());
    assert!(sample().validate().is_ok());
}

#[test]
fn secret_indirection_from_env() {
    let env_cfg = provider(ProviderType::Openai, "http://x", "env:POPO_TEST_KEY", "m");
    assert_eq!(env_cfg.secret_var().as_deref(), Some("POPO_TEST_KEY"));
    assert_eq!(env_cfg.resolved_api_key(Some("secret-123".into())).unwrap(), "secret-123");
    assert!(env_cfg.resolved_api_key(None).is_err());
    let braced = provider(ProviderType::Openai, "http://x", "${POPO_TEST_KEY}", "m");
    assert_eq!(braced.secret_var().as_deref(), Some("POPO_TEST_KEY"));
    let literal = provider(ProviderType::Openai, "http://x", "sk-literal", "m");
    assert_eq!(literal.secret_var(), None);
    assert_eq!(literal.resolved_api_key(None).unwrap(), "sk-literal");
}

#[test]
fn client_options_default_and_backoff() {
    let o = ClientOptions::default();
    assert_eq!(o.max_concurrency, 8);
    assert_eq!(o.max_attempts, 4);
    assert_eq!(o.base_backoff_ms, 500);
    assert_eq!(o.request_timeout_ms, 120_000);
    let transient = Error::Transport("reset".into());
    assert_eq!(o.retry_backoff_ms(1, &transient), Some(500));
    assert_eq!(o.retry_backoff_ms(3, &transient), Some(2000));
    assert_eq!(o.retry_backoff_ms(4, &transient), None);
    let fatal = Error::ModelResponse("bad json".into());
    assert_eq!(o.retry_backoff_ms(1, &fatal), None);
}

#[test]
fn replay_serves_the_last_recording_of_a_request() {
    let rec = |t: &str| RecordedResponse { text: t.into(), usage: None };
    let backend = ReplayBackend::new(
        "m".into(),
        vec![("fp1".into(), rec("old")), ("fp2".into(), rec("two")), ("fp1".into(), rec("new"))],
    );
    assert_eq!(backend.len(), 2);
    assert!(!backend.is_empty());
    assert_eq!(backend.lookup("fp1").map(|r| r.text.as_str()), Some("new"));
    assert_eq!(backend.lookup("fp2").map(|r| r.text.as_str()), Some("two"));
    assert!(backend.lookup("fp3").is_none());
}

#[test]
fn system_prompts_are_hoisted() {
    let msgs = vec![
        ChatMessage::text(Role::System, "be brief".into()),
        ChatMessage::text(Role::User, "hi".into()),
        ChatMessage::text(Role::System, "and kind".into()),
    ];
    let (system, rest) = hoist_system(&msgs);
    assert_eq!(system, "be brief\nand kind");
    assert_eq!(rest, vec![1]);
    let image_only = vec![ChatMessage {
        role: Role::System,
        content: vec![ContentPart::Image { media_type: "image/png".into(), data_base64: "AA==".into() }],
    }];
    assert_eq!(hoist_system(&image_only).0, "");
}

#[test]
fn replay_answers_by_fingerprint() {
    let msgs = vec![ChatMessage::text(Role::User, "hello".into())];
    let fp = fingerprint_of("m", &msgs, None, "");
    let backend = ReplayBackend::new(
        "m".into(),
        vec![(fp.clone(), RecordedResponse { text: "world".into(), usage: None })],
    );
    let resp: ChatResponse = backend.respond(&msgs, None, "").unwrap();
    assert_eq!(resp.text, "world");
    assert!(resp.usage.is_none());
    let other = vec![ChatMessage::text(Role::User, "bye".into())];
    let fp2 = fingerprint_of("m", &other, None, "");
    match backend.respond(&other, None, "") {
        Err(Error::ModelResponse(m)) => {
            assert_eq!(m, format!("no recorded fixture for request fingerprint {fp2} (model m)"))
        }
        other => panic!("unexpected {other:?}"),
    }
}

#[test]
fn fixture_dirs_name_one_model() {
    assert_eq!(replay_model("d", &vec!["m".into(), "m".into()]).unwrap(), "m");
    match replay_model("d", &vec!["m".into(), "n".into()]) {
        Err(Error::Config(m)) => assert_eq!(m, "fixture dir d mixes models \"m\" and \"n\""),
        other => panic!("unexpected {other:?}"),
    }
    match replay_model("d", &vec![]) {
        Err(Error::Config(m)) => assert_eq!(m, "no fixtures found in d"),
        other => panic!("unexpected {other:?}"),
    }
}

#[test]
fn provider_names_are_distinct_and_ordered() {
    assert!(sample().names_in_order());
    let twice = LlmConfig {
        default: DefaultSection { provider: "a".into() },
        providers: vec![
            ("a".to_string(), provider(ProviderType::Openai, "http://x", "k", "m")),
            ("a".to_string(), provider(ProviderType::Openai, "http://y", "k", "m")),
        ],
    };
    assert!(!twice.names_in_order());
}
