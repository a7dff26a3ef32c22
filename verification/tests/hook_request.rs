use pullcept::hook_request::{
    answer_hook, body_length, is_report, parse_head, parse_number, take_line, HeadStep,
    HookRequest, SessionStats, HOOK_BODY_MAX, HOOK_HEAD_MAX,
};
use serde_json::{Number, Value};

const HEAD: &str = "POST /hooks/status/room/acc HTTP/1.1\r\nHost: x\r\nAUTHORIZATION :  Bearer tok \r\nnonsense\r\nContent-Length: 12\r\n";

#[test]
fn a_report_is_told_by_its_first_bytes() {
    assert!(is_report(b"POST"));
    assert!(is_report(b"POST /"));
    assert!(!is_report(b"POS"));
    assert!(!is_report(b"GET "));
    assert!(!is_report(b""));
}

#[test]
fn a_head_is_read_line_by_line() {
    let mut head = String::new();
    for line in ["POST / HTTP/1.1\r\n", "A: b\n"] {
        assert!(matches!(take_line(&mut head, line), HeadStep::More));
    }
    assert!(matches!(take_line(&mut head, "\r\n"), HeadStep::Done));
    assert!(matches!(take_line(&mut head, "\n"), HeadStep::Done));
    assert_eq!(head, "POST / HTTP/1.1\r\nA: b\n");
    match take_line(&mut head, "") {
        HeadStep::Refused(why) => assert_eq!(why, "hook request ended before its head did"),
        other => panic!("{other:?}"),
    }
    let mut full = "x".repeat(HOOK_HEAD_MAX - 1);
    assert!(matches!(take_line(&mut full, "x"), HeadStep::More));
    match take_line(&mut full, "x") {
        HeadStep::Refused(why) => {
            assert_eq!(why, "hook request head is longer than this app reads")
        }
        other => panic!("{other:?}"),
    }
}

#[test]
fn a_head_says_where_it_goes_and_what_it_carries() {
    let request = parse_head(HEAD);
    assert_eq!(request.target, "/hooks/status/room/acc");
    assert_eq!(request.authorization.as_deref(), Some("Bearer tok"));
    assert_eq!(request.length, 12);
    let empty = parse_head("");
    assert_eq!((empty.target.as_str(), empty.authorization, empty.length), ("", None, 0));
    assert_eq!(parse_head("POST\r\nContent-Length: x").length, 0);
    assert_eq!(parse_head("POST /\r\nContent-Length: 1\r\ncontent-length: 2").length, 2);
}

#[test]
fn a_length_is_read_as_the_standard_library_reads_it() {
    let most = usize::MAX.to_string();
    let over = format!("{most}0");
    for text in ["0", "12", "+7", "007", "", "+", "-1", "1x", " 1", "++1", most.as_str(), over.as_str()] {
        assert_eq!(parse_number(text), text.parse::<usize>().ok(), "{text}");
    }
}

#[test]
fn a_body_is_read_up_to_a_limit() {
    let mut request = parse_head(HEAD);
    assert_eq!(body_length(&request), 12);
    request.length = HOOK_BODY_MAX + 1;
    assert_eq!(body_length(&request), HOOK_BODY_MAX);
}

fn request(target: &str, authorization: Option<&str>) -> HookRequest {
    HookRequest {
        target: target.to_string(),
        authorization: authorization.map(str::to_string),
        length: 0,
    }
}

fn status(target: &str, authorization: Option<&str>) -> (String, bool) {
    let (answer, stats) = answer_hook(&request(target, authorization), "tok", b"{}");
    let line = answer.lines().next().expect("a status line").to_string();
    assert!(answer.ends_with("\r\nConnection: close\r\n\r\n{}"), "{answer}");
    (line, stats.is_some())
}

#[test]
fn a_request_is_answered_by_its_token_and_its_seat() {
    let seat = "/hooks/status/room/acc";
    assert_eq!(status(seat, None), ("HTTP/1.1 401 Unauthorized".to_string(), false));
    assert_eq!(status(seat, Some("Bearer no")), ("HTTP/1.1 401 Unauthorized".to_string(), false));
    assert_eq!(
        status("/hooks/limited/room/acc", Some("Bearer tok")),
        ("HTTP/1.1 404 Not Found".to_string(), false)
    );
    assert_eq!(status(seat, Some("Bearer tok")), ("HTTP/1.1 200 OK".to_string(), true));
}

#[test]
fn a_report_says_the_model_the_effort_and_the_limits() {
    let body = br#"{"model":{"display_name":"","id":"m-id"},"effort":{"level":"high"},
        "rate_limits":{"five_hour":{"used_percentage":12.5},"seven_day":{"used_percentage":"x"}},
        "context_window":{"used_percentage":40}}"#;
    let stats = SessionStats::read("room".to_string(), "acc".to_string(), body).expect("JSON");
    assert_eq!((stats.topic_id.as_str(), stats.account_id.as_str()), ("room", "acc"));
    assert_eq!(stats.model.as_deref(), Some("m-id"));
    assert_eq!(stats.effort.as_deref(), Some("high"));
    assert_eq!(stats.five_hour, Number::from_f64(12.5));
    assert_eq!(stats.seven_day, None);
    assert_eq!(stats.context, Some(Number::from(40)));
    assert!(SessionStats::read(String::new(), String::new(), b"{").is_none());
    assert!(SessionStats::read(String::new(), String::new(), b"\"\xff\"").is_none());
    let named = SessionStats::of(
        String::new(),
        String::new(),
        &serde_json::from_str::<Value>(r#"{"model":{"display_name":"M"}}"#).expect("JSON"),
    );
    assert_eq!(named.model.as_deref(), Some("M"));
    assert_eq!(named.effort, None);
}
