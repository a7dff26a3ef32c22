use pullcept::floor::{Admission, Floor, Missed, Post};

fn post(message_id: &str, speaker: &str, content: &str) -> Post {
    Post {
        message_id: message_id.to_string(),
        speaker: speaker.to_string(),
        hue: None,
        content: content.to_string(),
        to: None,
        ts: "2026-08-23T00:00:00.000Z".to_string(),
    }
}

fn hue(degrees: f64) -> Option<serde_json::Number> {
    serde_json::Number::from_f64(degrees)
}

fn admitted_seq(admission: &Admission) -> u64 {
    match admission {
        Admission::Admitted { seq } => *seq,
        Admission::Unseen(missed) => panic!("expected admission, refused with {missed:?}"),
    }
}

fn refusal(admission: &Admission) -> &[Missed] {
    match admission {
        Admission::Unseen(missed) => missed,
        Admission::Admitted { seq } => panic!("expected refusal, admitted at {seq}"),
    }
}

#[test]
fn a_reset_floor_admits_a_speaker_carrying_a_watermark_from_before_it() {
    let mut floor = Floor::new();
    floor.admit_post("master", 0, None, post("m-1", "Master", "前のトピック"));
    floor.admit_post("agent", 0, Some("m-1"), post("c-1", "Agent", "はい"));

    floor.reset();
    assert_eq!(floor.seq(), 0);

    let admission = floor.admit_post("master", 0, Some("c-1"), post("m-2", "Master", "続き"));
    assert_eq!(admitted_seq(&admission), 1);
}

#[test]
fn an_empty_floor_admits_the_first_speaker() {
    let mut floor = Floor::new();
    let admission = floor.admit_post("master", 0, None, post("m-1", "Master", "ハロー"));
    assert_eq!(admitted_seq(&admission), 1);
}

#[test]
fn a_speaker_who_has_seen_the_floor_is_admitted() {
    let mut floor = Floor::new();
    floor.admit_post("master", 0, None, post("m-1", "Master", "ハロー"));
    let admission = floor.admit_post("lin", 0, Some("m-1"), post("m-2", "Agent Lin", "はい"));
    assert_eq!(admitted_seq(&admission), 2);
}

#[test]
fn an_unseen_post_refuses_the_speaker_and_is_handed_back() {
    let mut floor = Floor::new();
    floor.admit_post("master", 0, None, post("m-1", "Master", "ハロー"));
    floor.admit_post("lay", 0, Some("m-1"), post("m-2", "Agent Lay", "答えます"));

    let admission = floor.admit_post("lin", 0, Some("m-1"), post("m-3", "Agent Lin", "答えます"));
    let missed = refusal(&admission);
    assert_eq!(missed.len(), 1);
    assert_eq!(missed[0].message_id, "m-2");
    assert_eq!(missed[0].speaker, "Agent Lay");
    assert_eq!(missed[0].content, "答えます");

    assert_eq!(floor.seq(), 2);
}

#[test]
fn the_refusal_carries_every_missed_post_oldest_first() {
    let mut floor = Floor::new();
    floor.admit_post("master", 0, None, post("m-1", "Master", "ハロー"));
    floor.admit_post("lay", 0, Some("m-1"), post("m-2", "Agent Lay", "ひとつめ"));
    floor.admit_post("master", 0, Some("m-2"), post("m-3", "Master", "ふたつめ"));

    let admission = floor.admit_post("lin", 0, Some("m-1"), post("m-4", "Agent Lin", "答えます"));
    let missed = refusal(&admission);
    let ids: Vec<&str> = missed.iter().map(|one| one.message_id.as_str()).collect();
    assert_eq!(ids, ["m-2", "m-3"]);
}

#[test]
fn a_speakers_own_posts_are_not_held_against_them() {
    let mut floor = Floor::new();
    floor.admit_post("lin", 0, None, post("m-1", "Agent Lin", "ひとつめ"));
    let admission = floor.admit_post("lin", 0, None, post("m-2", "Agent Lin", "ふたつめ"));
    assert_eq!(admitted_seq(&admission), 2);
}

#[test]
fn an_unresolvable_watermark_is_read_as_having_seen_nothing() {
    let mut floor = Floor::new();
    floor.admit_post("master", 0, None, post("m-1", "Master", "ハロー"));

    let seated_at = floor.seq();
    let admission = floor.admit_post(
        "lin",
        seated_at,
        Some("m-nonexistent"),
        post("m-2", "Agent Lin", "答えます"),
    );
    let missed = refusal(&admission);
    assert_eq!(missed.len(), 1);
    assert_eq!(missed[0].message_id, "m-1");
}

#[test]
fn a_watermark_dropped_from_the_window_falls_back_to_the_whole_floor() {
    let mut floor = Floor::with_capacity(2);
    floor.admit_post("master", 0, None, post("m-1", "Master", "ひとつめ"));
    floor.admit_post("master", 0, Some("m-1"), post("m-2", "Master", "ふたつめ"));
    floor.admit_post("master", 0, Some("m-2"), post("m-3", "Master", "みっつめ"));

    let admission = floor.admit_post("lin", 0, Some("m-1"), post("m-4", "Agent Lin", "答えます"));
    let ids: Vec<&str> = refusal(&admission)
        .iter()
        .map(|one| one.message_id.as_str())
        .collect();
    assert_eq!(ids, ["m-2", "m-3"]);
}

#[test]
fn a_participant_is_not_shown_what_predates_their_seat() {
    let mut floor = Floor::new();
    floor.admit_post("master", 0, None, post("m-1", "Master", "ハロー"));

    let since = floor.seq();
    let admission = floor.admit_post("lin", since, None, post("m-2", "Agent Lin", "参加しました"));
    assert_eq!(admitted_seq(&admission), 2);
}

#[test]
fn what_arrives_after_a_seat_is_taken_still_refuses() {
    let mut floor = Floor::new();
    let since = floor.seq();
    floor.admit_post("master", 0, None, post("m-1", "Master", "ハロー"));

    let admission = floor.admit_post("lin", since, None, post("m-2", "Agent Lin", "答えます"));
    let missed = refusal(&admission);
    assert_eq!(missed.len(), 1);
    assert_eq!(missed[0].message_id, "m-1");
}

#[test]
fn the_refusal_hands_a_post_back_in_the_colour_it_was_said_in() {
    let mut floor = Floor::new();
    let mut declared = post("m-1", "Agent Lay", "ハロー");
    declared.hue = hue(275.0);
    floor.admit_post("lay", 0, None, declared);

    let admission = floor.admit_post("lin", 0, None, post("m-2", "Agent Lin", "答えます"));
    let missed = refusal(&admission);
    assert_eq!(missed.len(), 1);
    assert_eq!(missed[0].hue, hue(275.0));
}

#[test]
fn an_addressee_does_not_narrow_the_refusal() {
    let mut floor = Floor::new();
    floor.admit_post("master", 0, None, post("m-1", "Master", "ハロー"));
    let mut addressed = post("m-2", "Master", "レイだけ答えて");
    addressed.to = Some("Agent Lay".to_string());
    floor.admit_post("master", 0, Some("m-1"), addressed);

    let admission = floor.admit_post("lin", 0, Some("m-1"), post("m-3", "Agent Lin", "答えます"));
    let missed = refusal(&admission);
    assert_eq!(missed.len(), 1);
    assert_eq!(missed[0].to.as_deref(), Some("Agent Lay"));
}

#[test]
fn the_second_of_two_speakers_is_handed_exactly_the_first_ones_post() {
    let mut floor = Floor::new();
    floor.admit_post("master", 0, None, post("m-1", "Master", "ハロー"));
    let first = floor.admit_post("lin", 0, Some("m-1"), post("m-lin", "Agent Lin", "答えます"));
    assert_eq!(admitted_seq(&first), 2);
    let second = floor.admit_post("lay", 0, Some("m-1"), post("m-lay", "Agent Lay", "答えます"));
    let missed = refusal(&second);
    assert_eq!(missed.len(), 1);
    assert_eq!(missed[0].message_id, "m-lin");
}
