use vectors::reranking::{
    check_config_size, check_content_length, check_response, check_status, environment_key, extend_body, next_in_flight,
    settings_response, trim, validate_input, validate_key, Config, RerankResult, RerankingError, RuntimeState, SettingsUpdate,
    MAX_CANDIDATES, MAX_CONFIG_BYTES, MAX_PAIR_BUDGET, MAX_QUERY_BYTES, MAX_RESPONSE_BYTES, PROMPT_BUDGET,
};

fn keep() -> SettingsUpdate {
    SettingsUpdate { model: None, timeout_seconds: None, max_concurrent_requests: None, api_key: None, clear_api_key: false }
}

fn configured() -> RuntimeState {
    RuntimeState { config: Config::default(), key: Some("original-key".into()) }
}

fn scored(index: usize, score: f64) -> RerankResult {
    RerankResult { index, relevance_score: score.to_bits() }
}

#[test]
fn conservative_byte_budgets_accept_exact_boundaries_and_count_repeated_queries() {
    let query = "q".repeat(MAX_QUERY_BYTES);
    validate_input(&query, &vec!["é".repeat(12_000)]).unwrap();
    assert!(validate_input(&query, &vec!["é".repeat(12_001)]).is_err());
    let documents = vec!["d".repeat(5_871); MAX_CANDIDATES];
    validate_input("q", &documents).unwrap();
    assert!(validate_input("qq", &documents).is_err());
    assert!(validate_input(&"é".repeat(MAX_QUERY_BYTES / 2 + 1), &vec!["d".into()]).is_err());
}

#[test]
fn every_unusable_input_is_refused() {
    let invalid: Vec<(String, Vec<String>)> = vec![
        (" ".into(), vec!["document".into()]),
        ("x".repeat(MAX_QUERY_BYTES + 1), vec!["document".into()]),
        ("q\0".into(), vec!["document".into()]),
        ("q".into(), vec![]),
        ("q".into(), vec!["d".into(); MAX_CANDIDATES + 1]),
        ("q".into(), vec!["\n\t".into()]),
        ("q".into(), vec!["d\0".into()]),
        ("q".into(), vec!["d".repeat(MAX_PAIR_BUDGET - PROMPT_BUDGET)]),
        ("q".repeat(MAX_QUERY_BYTES), vec!["d".into(); MAX_CANDIDATES]),
        ("q".into(), vec!["d".repeat(6_000); MAX_CANDIDATES]),
    ];
    for (query, documents) in invalid {
        assert!(matches!(validate_input(&query, &documents), Err(RerankingError::Invalid(_))));
    }
    let state = RuntimeState { config: Config::default(), key: None };
    assert!(matches!(state.ensure_configured(), Err(RerankingError::NotConfigured)));
    assert!(configured().ensure_configured().is_ok());
}

#[test]
fn invalid_settings_leave_the_state_as_it_is() {
    let state = configured();
    let updates = vec![
        SettingsUpdate { model: Some("rerank-3".into()), ..keep() },
        SettingsUpdate { model: Some("other".into()), ..keep() },
        SettingsUpdate { timeout_seconds: Some(0), ..keep() },
        SettingsUpdate { timeout_seconds: Some(121), ..keep() },
        SettingsUpdate { max_concurrent_requests: Some(0), ..keep() },
        SettingsUpdate { max_concurrent_requests: Some(17), ..keep() },
        SettingsUpdate { api_key: Some("  ".into()), ..keep() },
        SettingsUpdate { api_key: Some("bad\r\nkey".into()), ..keep() },
        SettingsUpdate { api_key: Some("x".repeat(4097)), ..keep() },
        SettingsUpdate { api_key: Some("new".into()), clear_api_key: true, ..keep() },
    ];
    for update in updates {
        assert!(matches!(state.updated(&update), Err(RerankingError::Invalid(_))));
    }
    assert_eq!(state.key, Some("original-key".to_string()));
}

#[test]
fn settings_change_and_keep_the_key() {
    let state = configured();
    let update = SettingsUpdate {
        model: Some("rerank-2.5-lite".into()),
        timeout_seconds: Some(23),
        max_concurrent_requests: Some(2),
        ..keep()
    };
    let changed = match state.updated(&update) {
        Ok(changed) => changed,
        Err(error) => panic!("{}", error.message()),
    };
    assert_eq!(changed.config.model, "rerank-2.5-lite");
    assert_eq!(changed.config.timeout_seconds, 23);
    assert_eq!(changed.config.max_concurrent_requests, 2);
    assert_eq!(changed.key, Some("original-key".to_string()));
    let response = settings_response(&changed, true);
    assert_eq!(response.provider, "voyage");
    assert_eq!(response.persistence, "durable");
    assert!(response.configured);
    assert_eq!(response.models, vec!["rerank-2.5", "rerank-2.5-lite"]);
    let cleared = match changed.updated(&SettingsUpdate { clear_api_key: true, ..keep() }) {
        Ok(cleared) => cleared,
        Err(error) => panic!("{}", error.message()),
    };
    assert_eq!(cleared.key, None);
    assert!(!settings_response(&cleared, false).configured);
    assert_eq!(settings_response(&cleared, false).persistence, "memory");
}

#[test]
fn responses_are_complete_sorted_and_indexed() {
    let data = vec![scored(1, 0.25), scored(2, 0.75), scored(0, 0.25)];
    let response = match check_response(&data, &Some("rerank-2.5".into()), 42, 3, "rerank-2.5") {
        Ok(response) => response,
        Err(error) => panic!("{}", error.message()),
    };
    assert_eq!(response.results.iter().map(|result| result.index).collect::<Vec<_>>(), vec![2, 0, 1]);
    assert_eq!(response.total_tokens, 42);
    assert_eq!(response.provider, "voyage");
    assert_eq!(response.model, "rerank-2.5");
}

#[test]
fn malformed_responses_are_refused() {
    let refused = |data: Vec<RerankResult>, echo: Option<String>, count: usize| {
        matches!(check_response(&data, &echo, 1, count, "rerank-2.5"), Err(RerankingError::InvalidResponse))
    };
    assert!(refused(vec![], None, 1));
    assert!(refused(vec![scored(0, 0.5), scored(0, 0.6)], None, 1));
    assert!(refused(vec![scored(0, 0.1), scored(0, 0.2)], None, 2));
    assert!(refused(vec![scored(1, 0.5)], None, 1));
    assert!(refused(vec![scored(0, -0.1)], None, 1));
    assert!(refused(vec![scored(0, 1.1)], None, 1));
    assert!(refused(vec![scored(0, f64::NAN)], None, 1));
    assert!(refused(vec![scored(0, 0.5)], Some("rerank-2.5-lite".into()), 1));
    assert!(!refused(vec![scored(0, 0.5)], None, 1));
}

#[test]
fn statuses_have_their_own_errors() {
    for status in [401, 403] {
        assert!(matches!(check_status(status), Err(RerankingError::Authentication)));
    }
    assert!(matches!(check_status(429), Err(RerankingError::RateLimited)));
    for status in [400, 413, 422] {
        assert!(matches!(check_status(status), Err(RerankingError::Rejected)));
    }
    for status in [500, 503] {
        assert!(matches!(check_status(status), Err(RerankingError::Unavailable)));
    }
    assert!(check_status(200).is_ok());
}

#[test]
fn bodies_are_bounded() {
    assert!(check_content_length(None).is_ok());
    assert!(check_content_length(Some(MAX_RESPONSE_BYTES as u64)).is_ok());
    assert!(matches!(check_content_length(Some(MAX_RESPONSE_BYTES as u64 + 1)), Err(RerankingError::InvalidResponse)));
    let mut body = vec![1];
    assert!(extend_body(&mut body, &vec![2, 3]).is_ok());
    assert_eq!(body, vec![1, 2, 3]);
    assert!(extend_body(&mut body, &vec![0; MAX_RESPONSE_BYTES]).is_err());
    assert!(check_config_size(MAX_CONFIG_BYTES));
    assert!(!check_config_size(MAX_CONFIG_BYTES + 1));
}

#[test]
fn requests_in_flight_are_counted_up_to_the_limit() {
    let config = Config { max_concurrent_requests: 2, ..Config::default() };
    assert_eq!(next_in_flight(0, &config), Some(1));
    assert_eq!(next_in_flight(1, &config), Some(2));
    assert_eq!(next_in_flight(2, &config), None);
}

#[test]
fn keys_must_fit_into_a_header() {
    assert!(validate_key("plain-key").is_ok());
    assert!(validate_key("tab\tkey").is_ok());
    assert!(validate_key("line\nkey").is_err());
    assert!(validate_key("").is_err());
    assert!(matches!(environment_key("  "), Ok(None)));
    assert!(matches!(environment_key(" key \n"), Ok(Some(key)) if key == "key"));
    assert_eq!(trim(" \u{3000}x y\t"), "x y");
}
