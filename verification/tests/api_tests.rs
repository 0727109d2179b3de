use rpow2_authorized_miner::api::{
    ApiBaseError, ApiError, ClientConfigError, ClientSettings, MintRequest, MintRetryExhausted,
    PRODUCTION_API_BASE, describe_status, status_text_with_reason, host_is_default_allowed, is_default_allowed_api_base,
    is_success_status, trim_end_slashes, validate_api_base,
};

#[test]
fn production_requires_explicit_flag() {
    assert!(validate_api_base(PRODUCTION_API_BASE, false).is_err());
    assert!(validate_api_base(PRODUCTION_API_BASE, true).is_ok());
}

#[test]
fn api_base_rules() {
    assert_eq!(
        validate_api_base("https://api.rpow2.com///", false),
        Err(ApiBaseError::ProductionRequiresFlag)
    );
    assert_eq!(validate_api_base("http://localhost:3000", false), Ok(()));
    assert_eq!(validate_api_base("http://127.0.0.1:3000/", false), Ok(()));
    assert_eq!(validate_api_base("https://staging.rpow2.com", false), Ok(()));
    assert_eq!(
        validate_api_base("https://example.com", false),
        Err(ApiBaseError::NotAllowed)
    );
    assert_eq!(validate_api_base("https://example.com", true), Ok(()));
    assert_eq!(validate_api_base("not a url", false), Err(ApiBaseError::NotAllowed));
    assert_eq!(
        ApiBaseError::ProductionRequiresFlag.message(),
        "https://api.rpow2.com requires --allow-production"
    );
}

#[test]
fn allowed_hosts() {
    assert!(host_is_default_allowed(Some("localhost")));
    assert!(host_is_default_allowed(Some("127.0.0.1")));
    assert!(host_is_default_allowed(Some("::1")));
    assert!(host_is_default_allowed(Some("api-staging.example")));
    assert!(!host_is_default_allowed(Some("localhost.example")));
    assert!(!host_is_default_allowed(Some("stag")));
    assert!(!host_is_default_allowed(None));
    assert!(is_default_allowed_api_base("http://localhost:3000"));
    // The parser writes an IPv6 host in brackets.
    assert!(!is_default_allowed_api_base("http://[::1]:3000"));
    assert!(!is_default_allowed_api_base("mailto:someone@localhost"));
}

#[test]
fn trailing_slashes_are_dropped() {
    assert_eq!(trim_end_slashes("http://a//"), "http://a");
    assert_eq!(trim_end_slashes("///"), "");
    assert_eq!(trim_end_slashes("a/b"), "a/b");
}

#[test]
fn status_codes() {
    assert!(is_success_status(200));
    assert!(is_success_status(299));
    assert!(!is_success_status(300));
    assert!(!is_success_status(199));
    assert_eq!(describe_status(429), "429 Too Many Requests");
    assert_eq!(describe_status(401), "401 Unauthorized");
    assert_eq!(describe_status(599), "599 <unknown status code>");
}

#[test]
fn api_errors_take_the_body_or_the_reason_phrase() {
    let error = ApiError::from_response(
        401,
        Some("UNAUTHORIZED".to_string()),
        Some("login required".to_string()),
    );
    assert_eq!(error.status, 401);
    assert_eq!(error.code.as_deref(), Some("UNAUTHORIZED"));
    assert_eq!(error.message, "login required");
    assert_eq!(
        error.describe(),
        "api request failed: status=401 Unauthorized code=UNAUTHORIZED message=login required"
    );
    let error = ApiError::from_response(429, None, None);
    assert_eq!(error.message, "Too Many Requests");
    assert_eq!(
        error.describe(),
        "api request failed: status=429 Too Many Requests code=- message=Too Many Requests"
    );
    let error = ApiError::from_response(599, None, None);
    assert_eq!(error.message, "request failed");
}

#[test]
fn exhausted_retries_are_described() {
    let error = MintRetryExhausted { attempts: 3, message: "timed out".to_string() };
    assert_eq!(error.describe(), "mint retry exhausted after 3 attempts: timed out");
}

#[test]
fn client_settings() {
    assert_eq!(
        ClientSettings::new("http://x", " \t ".to_string()),
        Err(ClientConfigError::MissingCookie)
    );
    let settings = ClientSettings::new("http://x/", "sid=test".to_string()).unwrap();
    assert_eq!(settings.api_base, "http://x");
    assert_eq!(settings.cookie, "sid=test");
    assert_eq!(settings.endpoint("/me"), "http://x/me");
    assert_eq!(
        ClientConfigError::MissingCookie.message(),
        "--cookie or RPOW2_COOKIE must be provided"
    );
}

#[test]
fn mint_request_writes_the_nonce_in_decimal() {
    let request = MintRequest::new("c1", 123);
    assert_eq!(request.challenge_id, "c1");
    assert_eq!(request.solution_nonce, "123");
}

#[test]
fn messages_from_given_reasons() {
    let error = ApiError::with_reason(418, None, None, Some("I'm a teapot"));
    assert_eq!(error.message, "I'm a teapot");
    let error = ApiError::with_reason(418, None, Some("brewing".to_string()), Some("I'm a teapot"));
    assert_eq!(error.message, "brewing");
    let error = ApiError::with_reason(799, Some("X".to_string()), None, None);
    assert_eq!(error.message, "request failed");
    assert_eq!(error.code.as_deref(), Some("X"));
    assert_eq!(status_text_with_reason(200, Some("OK")), "200 OK");
    assert_eq!(status_text_with_reason(799, None), "799 <unknown status code>");
}
