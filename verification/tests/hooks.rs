use pullcept::hooks::{
    limited_hook_url, parse_limited_hook_target, parse_status_hook_target, status_hook_url,
    STATUS_HOOK_PATH,
};
use pullcept::percent::{percent_decode, percent_encode};

const LIN: &str = "8f14e45f-ceea-467a-b160-6f14e45fceea";
const ROOM: &str = "5d41402a-bc4b-4a76-b971-9d911017c592";


#[test]
fn the_limit_hook_names_the_seat_it_was_launched_for() {
    let url = limited_hook_url(1234, ROOM, LIN);
    let target = url
        .strip_prefix("http://127.0.0.1:1234")
        .expect("loopback, on the room's port");
    assert_eq!(
        parse_limited_hook_target(target),
        Some((ROOM.to_string(), LIN.to_string()))
    );
}

#[test]
fn a_target_that_is_not_the_limit_hook_names_no_seat() {
    assert_eq!(parse_limited_hook_target("/hooks/limited"), None);
    assert_eq!(parse_limited_hook_target("/hooks/limited/"), None);
    assert_eq!(parse_limited_hook_target("/other/a/b"), None);
    assert_eq!(parse_limited_hook_target("/hooks/limited-x/a/b"), None);
    assert_eq!(parse_limited_hook_target("/hooks/limited/a"), None);
    assert_eq!(parse_limited_hook_target("/hooks/limited//b"), None);
    assert_eq!(parse_limited_hook_target("/hooks/limited/a/"), None);
    assert_eq!(parse_limited_hook_target("/hooks/limited/a/b/c"), None);
    assert_eq!(parse_limited_hook_target("/hooks/limited/%zz/b"), None);
    assert_eq!(parse_limited_hook_target("/hooks/limited?room=a&account=b"), None);
}

#[test]
fn the_limit_hook_address_carries_nothing_a_windows_shell_acts_on() {
    let odd = "a&b|c<d>e^f(g)h i/j";
    let url = limited_hook_url(62361, "部屋 1", odd);
    for ch in ['&', '|', '<', '>', '^', '(', ')', '"', ' '] {
        assert!(
            !url.contains(ch),
            "{ch:?} is acted on by cmd.exe and must not reach the launch line: {url}"
        );
    }
    let target = url.strip_prefix("http://127.0.0.1:62361").expect("prefix");
    assert_eq!(
        parse_limited_hook_target(target),
        Some(("部屋 1".to_string(), odd.to_string()))
    );
}

#[test]
fn the_status_line_names_the_seat_it_was_launched_for() {
    let url = status_hook_url(1234, ROOM, LIN);
    let target = url
        .strip_prefix("http://127.0.0.1:1234")
        .expect("the address is the room's own port on loopback");
    assert_eq!(target, format!("{STATUS_HOOK_PATH}/{ROOM}/{LIN}"));
    assert_eq!(
        parse_status_hook_target(target),
        Some((ROOM.to_string(), LIN.to_string()))
    );
}

#[test]
fn the_two_seat_paths_do_not_answer_for_each_other() {
    let limited = limited_hook_url(1234, ROOM, LIN);
    let status = status_hook_url(1234, ROOM, LIN);
    let limited = limited.strip_prefix("http://127.0.0.1:1234").expect("prefix");
    let status = status.strip_prefix("http://127.0.0.1:1234").expect("prefix");
    assert_ne!(limited, status);
    assert_eq!(parse_status_hook_target(limited), None);
    assert_eq!(parse_limited_hook_target(status), None);
}

#[test]
fn a_query_behind_a_target_is_dropped() {
    assert_eq!(
        parse_status_hook_target("/hooks/status/a/b?x=/y"),
        Some(("a".to_string(), "b".to_string()))
    );
    assert_eq!(parse_status_hook_target("/hooks/status/a?/b"), None);
}

#[test]
fn percent_coding_gives_back_what_it_was_given() {
    for text in ["", "plain-1_2.3~", "a b", "100%", "部屋/1", "+", "\u{10ffff}"] {
        assert_eq!(percent_decode(&percent_encode(text)), Some(text.to_string()));
    }
    assert_eq!(percent_encode("a b/é"), "a%20b%2F%C3%A9");
    assert_eq!(percent_encode("plain-1_2.3~"), "plain-1_2.3~");
}

#[test]
fn a_malformed_escape_decodes_to_nothing() {
    for text in ["%", "%2", "%2g", "%+1", "%-1", "%ff", "%é0"] {
        assert_eq!(percent_decode(text), None, "{text}");
    }
    assert_eq!(percent_decode("%2f%2F+"), Some("//+".to_string()));
}
