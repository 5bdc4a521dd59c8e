use mole::detection::{rules, DetectionRule};
use mole::http::{contains_str, echo_request, ping_request, response_body};
use mole::verify::{
    assess_headers, evaluate_echo, ScanOptions, TransportError, Verifier, VerifyAction,
    VerifyError,
};

fn options(gateway: Option<&str>) -> ScanOptions {
    ScanOptions {
        reference: "reference.example".to_string(),
        httpbin: "echo.example".to_string(),
        timeout_secs: 15,
        num_workers: 4,
        gateway: gateway.map(|g| g.to_string()),
    }
}

fn echo_response(json: &str) -> String {
    format!("HTTP/1.0 200 OK\r\nContent-Type: application/json\r\n\r\n{}", json)
}

#[test]
fn request_lines_are_exact() {
    assert_eq!(
        echo_request("echo.example"),
        "GET http://echo.example/headers HTTP/1.0\r\nHost: echo.example\r\n\r\n"
    );
    assert_eq!(
        ping_request("reference.example"),
        "GET http://reference.example HTTP/1.0\r\nHost: reference.example\r\n\r\n"
    );
}

#[test]
fn body_follows_first_blank_line() {
    assert_eq!(response_body("HTTP/1.0 200 OK\r\nA: b\r\n\r\nbody here"), "body here");
    assert_eq!(
        response_body("HTTP/1.0 200 OK\r\n\r\nfirst\r\n\r\nsecond"),
        "first\r\n\r\nsecond"
    );
    // a response without a blank line is taken whole
    assert_eq!(response_body("no header split"), "no header split");
}

#[test]
fn substring_search() {
    assert!(contains_str("the needle is here", "needle"));
    assert!(!contains_str("nothing to see", "needle"));
    assert!(contains_str("anything", ""));
    assert!(!contains_str("", "x"));
}

#[test]
fn one_echoed_header_means_vanilla() {
    let resp = echo_response(r#"{"headers": {"Host": "echo.example"}}"#);
    let a = evaluate_echo(&resp, &None).unwrap();
    assert!(a.vanilla);
}

#[test]
fn added_header_means_not_vanilla() {
    let resp = echo_response(
        r#"{"headers": {"Host": "echo.example", "X-Forwarded-For": "10.0.0.9"}}"#,
    );
    let a = evaluate_echo(&resp, &None).unwrap();
    assert!(!a.vanilla);
}

#[test]
fn traceability_is_three_valued() {
    let leaking = echo_response(
        r#"{"headers": {"Host": "echo.example", "Via": "proxy 198.51.100.7"}}"#,
    );
    // no gateway known: unknown, not false
    assert_eq!(evaluate_echo(&leaking, &None).unwrap().traceable, None);
    // gateway appears in a header value: confirmed traceable
    let g = Some("198.51.100.7".to_string());
    assert_eq!(evaluate_echo(&leaking, &g).unwrap().traceable, Some(true));
    // gateway known but absent: confirmed not traceable
    let clean = echo_response(r#"{"headers": {"Host": "echo.example"}}"#);
    assert_eq!(evaluate_echo(&clean, &g).unwrap().traceable, Some(false));
}

#[test]
fn non_json_body_is_malformed() {
    let resp = echo_response("<html>not json</html>");
    assert_eq!(evaluate_echo(&resp, &None).err(), Some(VerifyError::MalformedJsonBody));
}

#[test]
fn json_without_headers_object_is_incomplete() {
    let resp = echo_response(r#"{"origin": "203.0.113.5"}"#);
    assert_eq!(evaluate_echo(&resp, &None).err(), Some(VerifyError::IncompleteEchoData));
    let resp2 = echo_response(r#"{"headers": 7}"#);
    assert_eq!(evaluate_echo(&resp2, &None).err(), Some(VerifyError::IncompleteEchoData));
}

#[test]
fn timeout_is_terminal_failure_not_an_empty_record() {
    let opts = options(None);
    let rules: Vec<DetectionRule> = Vec::new();
    let (mut v, first) = Verifier::begin(0x0A000001, 8080, &opts);
    assert!(matches!(first, VerifyAction::Probe { timed: false, .. }));
    let a = v.on_event(&opts, &rules, Err(TransportError::Timeout), 0);
    match a {
        VerifyAction::Failed { error } => assert_eq!(error, VerifyError::ProbeTimeout),
        _ => panic!("timeout must fail the candidate, got {:?}", a),
    }
}

#[test]
fn connect_failure_is_terminal() {
    let opts = options(None);
    let rules: Vec<DetectionRule> = Vec::new();
    let (mut v, _) = Verifier::begin(0x0A000001, 8080, &opts);
    let a = v.on_event(&opts, &rules, Err(TransportError::ConnectFailure), 0);
    match a {
        VerifyAction::Failed { error } => {
            assert_eq!(error, VerifyError::ProbeConnectFailure)
        },
        _ => panic!("connect failure must fail the candidate"),
    }
}

#[test]
fn full_verification_with_rule_tagging() {
    let opts = options(Some("198.51.100.7"));
    let corpus = [
        "squid",
        "",
        "GET http://probe/ HTTP/1.0\\r\\n\\r\\n",
        "",
        "X-Squid",
        "--",
        "apache",
        "",
        "GET http://probe2/ HTTP/1.0\\r\\n\\r\\n",
        "",
        "Apache",
    ]
    .join("\n");
    let rs = rules(&corpus);
    assert_eq!(rs.len(), 2);

    let (mut v, first) = Verifier::begin(0x0A000001, 3128, &opts);
    match &first {
        VerifyAction::Probe { request, timed } => {
            assert_eq!(
                request.as_str(),
                "GET http://echo.example/headers HTTP/1.0\r\nHost: echo.example\r\n\r\n"
            );
            assert!(!timed);
        },
        _ => panic!("verification must start with the echo probe"),
    }

    // echo confirms the proxy, one extra header, gateway leaked
    let echo = echo_response(
        r#"{"headers": {"Host": "echo.example", "Via": "198.51.100.7"}}"#,
    );
    let a1 = v.on_event(&opts, &rs, Ok(echo), 0);
    match &a1 {
        VerifyAction::Probe { request, timed } => {
            assert_eq!(request.as_str(), "GET http://probe/ HTTP/1.0\r\n\r\n");
            assert!(!timed);
        },
        _ => panic!("echo success must move to the first rule"),
    }

    // first rule matches its needle
    let a2 = v.on_event(&opts, &rs, Ok("X-Squid-Error: denied".to_string()), 0);
    match &a2 {
        VerifyAction::Probe { request, timed } => {
            assert_eq!(request.as_str(), "GET http://probe2/ HTTP/1.0\r\n\r\n");
            assert!(!timed);
        },
        _ => panic!("rule outcome must move to the second rule"),
    }

    // second rule's probe fails: the rule is skipped, not the scan
    let a3 = v.on_event(&opts, &rs, Err(TransportError::Timeout), 0);
    match &a3 {
        VerifyAction::Probe { request, timed } => {
            assert_eq!(
                request.as_str(),
                "GET http://reference.example HTTP/1.0\r\nHost: reference.example\r\n\r\n"
            );
            assert!(timed);
        },
        _ => panic!("after the rules comes the timed latency probe"),
    }

    // latency probe answers: the record carries everything measured
    let a4 = v.on_event(&opts, &rs, Ok("HTTP/1.0 200 OK\r\n\r\nok".to_string()), 3);
    match a4 {
        VerifyAction::Finished { result } => {
            assert_eq!(result.host, 0x0A000001);
            assert_eq!(result.port, 3128);
            assert_eq!(result.lag, Some(3));
            assert_eq!(result.vanilla, Some(false));
            assert_eq!(result.traceable, Some(true));
            assert_eq!(result.tags, Some(vec!["squid".to_string()]));
        },
        _ => panic!("the machine must finish after the latency probe"),
    }
}

#[test]
fn latency_failure_still_reports_the_candidate() {
    let opts = options(None);
    let rules: Vec<DetectionRule> = Vec::new();
    let (mut v, _) = Verifier::begin(1, 80, &opts);
    let echo = echo_response(r#"{"headers": {"Host": "h"}}"#);
    let a1 = v.on_event(&opts, &rules, Ok(echo), 0);
    assert!(matches!(a1, VerifyAction::Probe { timed: true, .. }));
    let a2 = v.on_event(&opts, &rules, Err(TransportError::Timeout), 0);
    match a2 {
        VerifyAction::Finished { result } => {
            assert_eq!(result.lag, None);
            assert_eq!(result.vanilla, Some(true));
            assert_eq!(result.traceable, None);
            assert_eq!(result.tags, Some(Vec::new()));
        },
        _ => panic!("an unmeasured candidate is still reported"),
    }
}

#[test]
fn header_assessment_on_given_values() {
    let one = vec![Some("echo.example".to_string())];
    let two = vec![
        Some("echo.example".to_string()),
        Some("proxy at 198.51.100.7".to_string()),
    ];
    let with_non_string = vec![Some("echo.example".to_string()), None];

    let a = assess_headers(&one, &None);
    assert!(a.vanilla);
    assert_eq!(a.traceable, None);

    let g = Some("198.51.100.7".to_string());
    let b = assess_headers(&two, &g);
    assert!(!b.vanilla);
    assert_eq!(b.traceable, Some(true));

    // a non-string header value counts for vanilla, never for tracing
    let c = assess_headers(&with_non_string, &g);
    assert!(!c.vanilla);
    assert_eq!(c.traceable, Some(false));
}
