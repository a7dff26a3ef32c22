use pullcept::connection::{
    authorized, hello, history, history_source, leave, post, post_as, receives, request_of,
    speaks_protocol, Connection, IncomingFrame, Request,
};
use pullcept::delivery::{
    deliver, join, normalize_account, normalize_to, post_local, post_local_as,
};
use pullcept::floor::Post;
use pullcept::room::{new_topic, select_topic, Participant, RoomState, PROTOCOL_VERSION};
use pullcept::topics::{LoggedPost, TopicRef};
use serde_json::Value;

const TS: &str = "2026-08-23T00:00:00.000Z";

fn hue(degrees: f64) -> Option<serde_json::Number> {
    serde_json::Number::from_f64(degrees)
}

fn topic(id: &str) -> TopicRef {
    TopicRef { topic_id: id.to_string(), created_at: TS.to_string() }
}

fn rooms() -> RoomState {
    RoomState::with_topic(topic("one"), "tok".to_string(), "me".to_string())
}

fn said(id: &str, content: &str) -> Post {
    Post {
        message_id: id.to_string(),
        speaker: "Lin".to_string(),
        hue: hue(1.0),
        content: content.to_string(),
        to: None,
        ts: TS.to_string(),
    }
}

fn frame(kind: &str) -> IncomingFrame {
    IncomingFrame {
        kind: kind.to_string(),
        message_id: None,
        name: None,
        hue: None,
        account_id: None,
        content: None,
        to: None,
        ts: None,
        last_seen: None,
        protocol: None,
        room: None,
        request_id: None,
        limit: None,
        before: None,
    }
}

fn hello_frame(name: &str, room: &str) -> IncomingFrame {
    IncomingFrame {
        name: Some(name.to_string()),
        room: Some(room.to_string()),
        ..frame("hello")
    }
}

fn names(list: &[Participant]) -> Vec<(&str, &str, bool)> {
    list.iter()
        .map(|one| (one.name.as_str(), one.id.as_str(), one.own))
        .collect()
}

fn json(text: &str) -> Value {
    serde_json::from_str(text).expect("JSON")
}

#[test]
fn participants_are_listed_by_name_and_then_by_connection() {
    let mut state = rooms();
    assert!(state.seat("one", "c2", "Lin", None, None));
    assert!(state.seat("one", "c1", "Lin", hue(2.0), Some("acc")));
    assert!(state.seat("one", "me", "Ami", None, None));
    assert!(!state.seat("two", "c3", "Lay", None, None));
    assert_eq!(
        names(&state.participants("one")),
        vec![("Ami", "me", true), ("Lin", "c1", false), ("Lin", "c2", false)]
    );
    let roster = state.roster("one");
    assert_eq!(roster.topic_id, "one");
    assert_eq!(roster.participants[1].account.as_deref(), Some("acc"));
    assert_eq!(roster.participants[1].hue, hue(2.0));
    assert!(state.participants("two").is_empty());
    state.unseat("one", "c1");
    assert_eq!(state.participants("one").len(), 2);
    assert_eq!(state.name_on("c2"), Some("Lin".to_string()));
    assert_eq!(state.name_on("c1"), None);
}

#[test]
fn declaring_the_same_again_changes_nothing() {
    let mut state = rooms();
    assert!(state.seat("one", "c", "Lin", hue(0.0), Some("a")));
    assert!(!state.seat("one", "c", "Lin", hue(0.0), Some("a")));
    assert!(!state.seat("one", "c", "Lin", hue(-0.0), Some("a")));
    assert!(state.seat("one", "c", "Lin", hue(1.0), Some("a")));
    assert!(state.seat("one", "c", "Lin", hue(1.0), None));
    assert!(state.seat("one", "c", "Lay", None, None));
}

#[test]
fn a_post_is_delivered_in_the_hue_of_its_seat() {
    let mut state = rooms();
    state.seat("one", "c", "Lin", hue(275.5), None);
    let mut post = said("m-1", "a\nb");
    post.to = Some("Lay".to_string());
    let delivery = deliver(&mut state, "one", "c", post, None).expect("held");
    assert!(delivery.outcome.delivered);
    assert_eq!(delivery.outcome.message_id.as_deref(), Some("m-1"));
    assert!(delivery.outcome.missed.is_empty());
    let effects = delivery.effects.expect("delivered");
    assert_eq!(effects.post.hue, hue(275.5));
    assert_eq!(effects.topic.topic_id, "one");
    assert_eq!(
        effects.fanout.frame,
        r#"{"content":"a\nb","message_id":"m-1","speaker":"Lin","to":"Lay","ts":"2026-08-23T00:00:00.000Z","type":"post"}"#
    );
    assert_eq!(effects.fanout.target, None);
    assert_eq!(effects.fanout.room, "one");
    assert_eq!(effects.message.hue, hue(275.5));
    assert!(!effects.message.own);
}

#[test]
fn nobody_speaks_past_an_unread_post() {
    let mut state = rooms();
    state.seat("one", "a", "Lin", None, None);
    state.seat("one", "b", "Lay", None, None);
    assert!(deliver(&mut state, "one", "a", said("m-1", "x"), None).expect("held").outcome.delivered);
    let refused = deliver(&mut state, "one", "b", said("m-2", "y"), None).expect("held");
    assert!(!refused.outcome.delivered);
    assert!(refused.effects.is_none());
    assert_eq!(refused.outcome.message_id, None);
    assert_eq!(refused.outcome.missed[0].message_id, "m-1");
    let again = deliver(&mut state, "one", "b", said("m-3", "y"), Some("m-1")).expect("held");
    assert!(again.outcome.delivered);
    state.seat("one", "late", "Ami", None, None);
    assert!(
        deliver(&mut state, "one", "late", said("m-4", "z"), None)
            .expect("held")
            .outcome
            .delivered
    );
}

#[test]
fn a_post_to_a_room_that_is_not_held_is_an_error() {
    let mut state = rooms();
    assert_eq!(
        deliver(&mut state, "gone", "a", said("m-1", "x"), None).expect_err("not held"),
        "トピック gone はこのアプリで開かれていません。削除されたトピックかもしれません。"
    );
}

#[test]
fn opening_a_topic_leaves_the_other_rooms() {
    let mut state = rooms();
    join(&mut state, " Ami ", None, Some(" ".to_string())).expect("a name");
    deliver(&mut state, "one", "me", said("m-1", "x"), None).expect("held");
    assert!(state.enter_topic(topic("two")));
    assert!(!state.enter_topic(topic("two")));
    assert_eq!(state.topic().topic_id, "two");
    assert_eq!(names(&state.participants("two")), vec![("Ami", "me", true)]);
    assert_eq!(names(&state.participants("one")), vec![("Ami", "me", true)]);
    assert_eq!(state.topic_of("one").expect("held").created_at, TS);

    assert!(state.remove("one").is_none());
    assert!(!state.holds("one"));
    let fresh = state.remove("two").expect("the open room was taken away");
    assert_eq!(state.topic().topic_id, fresh.topic_id);
    assert_eq!(names(&state.participants(&fresh.topic_id)), vec![("Ami", "me", true)]);
}

#[test]
fn a_topic_is_selected_where_it_is_held_or_exists() {
    let mut state = rooms();
    assert_eq!(
        select_topic(&mut state, "two", TS, false),
        Err("トピック two は見つかりません。".to_string())
    );
    assert_eq!(select_topic(&mut state, "two", TS, true), Ok(false));
    assert_eq!(state.topic().topic_id, "two");
    assert_eq!(select_topic(&mut state, "one", "later", false), Ok(false));
    assert_eq!(state.topic().created_at, TS);
    let (made, seated) = new_topic(&mut state);
    assert!(!seated);
    assert_eq!(state.topic().topic_id, made.topic_id);
}

#[test]
fn the_person_at_the_screen_is_seated_in_every_room() {
    let mut state = rooms();
    state.enter_topic(topic("two"));
    assert_eq!(join(&mut state, "  ", None, None), Err("name is empty".to_string()));
    assert_eq!(
        join(&mut state, "Ami", hue(3.0), Some("acc".to_string())),
        Ok(vec!["one".to_string(), "two".to_string()])
    );
    assert_eq!(join(&mut state, "Ami", hue(3.0), Some(" acc ".to_string())), Ok(Vec::new()));
    assert_eq!(state.local_hue_and_account(), (hue(3.0), Some("acc".to_string())));
}

#[test]
fn the_person_at_the_screen_speaks_under_their_own_connection() {
    let mut state = rooms();
    assert_eq!(
        post_local(&mut state, "one", "Ami", "  ", None, None).expect_err("blank"),
        "content is empty"
    );
    assert_eq!(
        post_local(&mut state, "one", " ", "x", None, None).expect_err("blank"),
        "speaker is empty"
    );
    let (changed, delivery) = post_local_as(
        &mut state,
        "one",
        " Ami ",
        " hi ",
        Some(" Lin ".to_string()),
        None,
        "m-1".to_string(),
        TS.to_string(),
    )
    .expect("said");
    assert_eq!(changed, vec!["one".to_string()]);
    let message = delivery.expect("held").effects.expect("delivered").message;
    assert!(message.own);
    assert_eq!(message.speaker, "Ami");
    assert_eq!(message.content, "hi");
    assert_eq!(message.to.as_deref(), Some("Lin"));
    let (_, delivery) = post_local(&mut state, "one", "Ami", "again", None, None).expect("said");
    let outcome = delivery.expect("held").outcome;
    assert_eq!(outcome.message_id.map(|id| id.len()), Some(36));
    let (_, gone) = post_local(&mut state, "x", "Ami", "again", None, None).expect("said");
    assert!(gone.is_err());
}

#[test]
fn a_new_run_has_one_topic_and_fresh_ids() {
    let mut state = RoomState::new();
    assert_eq!(state.port(), None);
    state.set_port(1234);
    assert_eq!(state.port(), Some(1234));
    assert_eq!(state.token().len(), 36);
    assert_ne!(state.token(), state.local_origin());
    let open = state.topic();
    assert!(state.holds(&open.topic_id));
    assert!(state.has_room_for_a_post(&open.topic_id));
    assert!(open.created_at.ends_with('Z'));
}

#[test]
fn a_connection_joins_the_room_it_names_and_stays_there() {
    let mut state = rooms();
    state.enter_topic(topic("two"));
    let mut connection = Connection::accept("c".to_string());

    let lost = hello(&mut connection, &mut state, hello_frame("Lin", "gone"));
    assert_eq!(lost.room, None);
    assert_eq!(lost.asked.as_deref(), Some("gone"));
    assert_eq!(connection.joined_as, None);
    assert_eq!(hello(&mut connection, &mut state, frame("hello")).room, None);

    let first = hello(&mut connection, &mut state, hello_frame("Lin", " one "));
    assert_eq!(first.room.as_deref(), Some("one"));
    let moved = hello(&mut connection, &mut state, hello_frame("Lay", "two"));
    assert_eq!(moved.room.as_deref(), Some("one"));
    assert_eq!(names(&state.participants("one")), vec![("Lay", "c", false)]);
    assert!(state.participants("two").is_empty());

    let nameless = hello(&mut connection, &mut state, frame("hello"));
    assert_eq!(nameless.name, "session");

    assert_eq!(leave(&connection, &mut state).as_deref(), Some("one"));
    assert!(state.participants("one").is_empty());
    state.remove("one");
    assert_eq!(leave(&connection, &mut state), None);
    assert_eq!(leave(&Connection::new(), &mut state), None);
}

#[test]
fn a_frame_asks_for_what_its_kind_says() {
    assert_eq!(request_of(&frame("hello")), Request::Hello);
    assert_eq!(request_of(&frame("post")), Request::Post);
    assert_eq!(request_of(&frame("history")), Request::History);
    assert_eq!(request_of(&frame("Post")), Request::Other);
    assert!(!speaks_protocol(&frame("hello")));
    assert!(speaks_protocol(&IncomingFrame {
        protocol: Some(PROTOCOL_VERSION),
        ..frame("hello")
    }));
    assert!(authorized(Some("Bearer tok"), "tok"));
    assert!(!authorized(Some("bearer tok"), "tok"));
    assert!(!authorized(None, "tok"));
}

#[test]
fn frames_reach_whom_they_are_for() {
    let mut state = rooms();
    let mut connection = Connection::accept("a".to_string());
    hello(&mut connection, &mut state, hello_frame("Lin", "one"));
    let (effects, receipt) = post_as(
        &connection,
        &mut state,
        IncomingFrame { content: Some("x".to_string()), ..frame("post") },
        "m-9".to_string(),
        TS.to_string(),
    );
    let fanout = effects.expect("delivered").fanout;
    assert!(receives(&receipt, "a", Some("one")));
    assert!(!receives(&receipt, "b", Some("one")));
    assert!(!receives(&fanout, "a", Some("one")));
    assert!(receives(&fanout, "b", Some("one")));
    assert!(!receives(&fanout, "b", Some("two")));
    assert!(!receives(&fanout, "b", None));
    assert_eq!(
        receipt.frame,
        r#"{"delivered":true,"message_id":"m-9","missed":[],"type":"post_result"}"#
    );
}

#[test]
fn a_refused_speaker_is_told_what_they_missed() {
    let mut state = rooms();
    let mut connection = Connection::accept("a".to_string());
    hello(&mut connection, &mut state, hello_frame("Lin", "one"));
    state.seat("one", "b", "Lay", hue(25.5), None);
    deliver(&mut state, "one", "b", said("m-1", "x"), None).expect("held");
    let (effects, receipt) = post(&connection, &mut state, frame("post"));
    assert!(effects.is_none());
    let told = json(&receipt.frame);
    assert_eq!(told["delivered"], false);
    assert_eq!(told["missed"][0]["message_id"], "m-1");
    assert_eq!(told["missed"][0]["hue"], 25.5);
    assert_eq!(told["missed"][0]["to"], Value::Null);
    assert!(told.get("error").is_none());
}

#[test]
fn a_connection_without_a_room_is_told_so() {
    let mut state = rooms();
    let mut connection = Connection::accept("a".to_string());
    let named = || IncomingFrame { message_id: Some("m".to_string()), ..frame("post") };
    let (effects, receipt) = post(&connection, &mut state, named());
    assert!(effects.is_none());
    assert_eq!(
        receipt.frame,
        r#"{"delivered":false,"error":"this session is not in a room: its hello named none this app holds","message_id":"m","missed":[],"type":"post_result"}"#
    );
    hello(&mut connection, &mut state, hello_frame("Lin", "one"));
    state.enter_topic(topic("two"));
    state.remove("one");
    let (_, receipt) = post(&connection, &mut state, named());
    assert_eq!(
        json(&receipt.frame)["error"],
        "the topic this session was started in (one) is no longer open in the app; it may have been deleted"
    );
    assert!(history_source(&connection, &state).is_err());
}

fn logged(n: usize) -> Vec<LoggedPost> {
    (0..n)
        .map(|i| LoggedPost {
            message_id: format!("m-{i}"),
            speaker: "Lin".to_string(),
            content: "x".to_string(),
            to: if i == 0 { Some("Lay".to_string()) } else { None },
            ts: TS.to_string(),
        })
        .collect()
}

fn page(n: usize, before: Option<&str>, limit: Option<usize>) -> (Vec<String>, bool) {
    let connection = Connection::accept("a".to_string());
    let asked = IncomingFrame {
        request_id: Some("r".to_string()),
        before: before.map(str::to_string),
        limit,
        ..frame("history")
    };
    let reply = history(&connection, asked, Ok(logged(n)));
    assert_eq!(reply.target.as_deref(), Some("a"));
    let answer = json(&reply.frame);
    assert_eq!(answer["type"], "history_result");
    assert_eq!(answer["request_id"], "r");
    let ids = answer["posts"]
        .as_array()
        .expect("posts")
        .iter()
        .map(|post| post["message_id"].as_str().expect("id").to_string())
        .collect();
    (ids, answer["has_more"].as_bool().expect("has_more"))
}

#[test]
fn history_is_read_back_page_by_page() {
    let (ids, more) = page(120, None, None);
    assert_eq!((ids.len(), ids[0].as_str(), more), (50, "m-70", true));
    let (ids, more) = page(120, Some("m-70"), None);
    assert_eq!((ids.len(), ids[0].as_str(), ids[49].as_str(), more), (50, "m-20", "m-69", true));
    let (ids, more) = page(120, Some("m-20"), None);
    assert_eq!((ids.len(), ids[0].as_str(), more), (20, "m-0", false));
    assert_eq!(page(3, None, Some(0)), (vec!["m-2".to_string()], true));
    assert_eq!(page(300, None, Some(999)).0.len(), 200);
    assert_eq!(page(3, Some("unknown"), Some(2)).0, vec!["m-1", "m-2"]);
    assert_eq!(page(0, None, None), (Vec::new(), false));
}

#[test]
fn an_addressee_stands_in_history_only_where_there_is_one() {
    let connection = Connection::accept("a".to_string());
    let answer = json(&history(&connection, frame("history"), Ok(logged(2))).frame);
    assert_eq!(answer["request_id"], "");
    assert_eq!(answer["posts"][0]["to"], "Lay");
    assert!(answer["posts"][1].get("to").is_none());
    let failed = history(&connection, frame("history"), Err("why".to_string()));
    assert_eq!(
        failed.frame,
        r#"{"error":"why","request_id":"","type":"history_result"}"#
    );
}

#[test]
fn blank_names_are_no_names() {
    assert_eq!(normalize_to(Some("  Lin ".to_string())), Some("Lin".to_string()));
    assert_eq!(normalize_to(Some(" ".to_string())), None);
    assert_eq!(normalize_account(None), None);
    assert_eq!(normalize_account(Some("\u{3000}a".to_string())), Some("a".to_string()));
}
