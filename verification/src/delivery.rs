//! Speaking in a room: what becomes of a post, and what follows from it.

use vstd::prelude::*;
use vstd::string::*;

use crate::clock::{moment, now_iso};
use crate::floor::{ids_distinct, missed_of, position_in, Admission, Place, Post};
use crate::frames::{post_frame, post_json, says, says_if_any};
use crate::ids::{fresh_id, is_hyphenated_id};
use crate::json::{compact, compact_text, parsed, Reading};
use crate::room::{
    declared_everywhere, declares, seat_changes, Declared, Fanout, FanoutModel, PostOutcome,
    RoomMessage, RoomModel, RoomState, StateModel,
};
use crate::session::{topic_not_open, topic_not_open_text};
use crate::text::{
    ascending, borrowed, given, given_text, opt_str, opt_text, owned, same_text, texts, trim,
    trimmed,
};
use crate::topics::TopicRef;

verus! {

/// What a delivered post leaves to do: log it, send it to the others, and tell the screen.
#[derive(Debug)]
pub struct Effects {
    /// The topic it was said in.
    pub topic: TopicRef,
    /// The post as it was said, for the log.
    pub post: Post,
    /// The frame for the other participants.
    pub fanout: Fanout,
    /// What the screen is told.
    pub message: RoomMessage,
}

/// What became of a post.
#[derive(Debug)]
pub struct Delivery {
    pub outcome: PostOutcome,
    pub effects: Option<Effects>,
}

// ---------------------------------------------------------------------------
// The model
// ---------------------------------------------------------------------------

/// The position a connection's seat was taken at; the beginning where it has none.
pub open spec fn since_of(room: RoomModel, origin: Seq<char>) -> nat {
    if room.seats.contains_key(origin) {
        room.seats[origin].since
    } else {
        0
    }
}

/// The hue a connection declared, if it did.
pub open spec fn hue_of(room: RoomModel, origin: Seq<char>) -> Option<serde_json::Number> {
    if room.seats.contains_key(origin) {
        room.seats[origin].declared.hue
    } else {
        None
    }
}

/// A post stamped with the hue of the connection it arrived on.
pub open spec fn stamped(room: RoomModel, origin: Seq<char>, post: Post) -> Post {
    Post { hue: hue_of(room, origin), ..post }
}

/// What a speaker still has to read before they may speak.
pub open spec fn unread_by(room: RoomModel, origin: Seq<char>, last_seen: Option<Seq<char>>) -> Seq<
    Post,
> {
    room.floor.unseen(origin, room.floor.mark(since_of(room, origin), last_seen))
}

/// What the screen is told of a post.
pub open spec fn tells_of(message: RoomMessage, room_id: Seq<char>, post: Post, own: bool) -> bool {
    &&& message.topic_id@ == room_id
    &&& message.message_id@ == post.message_id@
    &&& message.speaker@ == post.speaker@
    &&& message.hue == post.hue
    &&& message.content@ == post.content@
    &&& opt_text(message.to) == opt_text(post.to)
    &&& message.ts@ == post.ts@
    &&& message.own == own
}

/// The rooms once a post is on the floor of one of them.
pub open spec fn spoken(state: StateModel, room_id: Seq<char>, origin: Seq<char>, post: Post) -> StateModel {
    let room = state.rooms[room_id];
    state.with_room(
        room_id,
        RoomModel { floor: room.floor.with(origin, stamped(room, origin, post)), ..room },
    )
}

/// What becomes of a post in a room that is held: refused with what its speaker missed,
/// and nothing follows; or delivered, and logged, sent and shown as it was said.
pub open spec fn delivered_as(
    before: StateModel,
    after: StateModel,
    delivery: Delivery,
    room_id: Seq<char>,
    origin: Seq<char>,
    post: Post,
    last_seen: Option<Seq<char>>,
) -> bool {
    let room = before.rooms[room_id];
    let unread = unread_by(room, origin, last_seen);
    let said = stamped(room, origin, post);
    if unread.len() > 0 {
        &&& after == before
        &&& delivery.effects is None
        &&& !delivery.outcome.delivered
        &&& delivery.outcome.message_id is None
        &&& delivery.outcome.missed@ == unread.map_values(|post: Post| missed_of(post))
    } else {
        &&& after == spoken(before, room_id, origin, post)
        &&& delivery.outcome.delivered
        &&& opt_text(delivery.outcome.message_id) == Some(post.message_id@)
        &&& delivery.outcome.missed@.len() == 0
        &&& delivery.effects is Some
        &&& follows(delivery.effects->0, room, room_id, origin, said, origin == before.local_origin)
    }
}

/// What follows from a delivered post.
pub open spec fn follows(
    effects: Effects,
    room: RoomModel,
    room_id: Seq<char>,
    origin: Seq<char>,
    said: Post,
    own: bool,
) -> bool {
    &&& effects.post == said
    &&& effects.topic@ == room.topic
    &&& effects.fanout@ == (FanoutModel {
        origin,
        room: room_id,
        target: None,
        frame: compact_text(post_json(said)),
    })
    &&& parsed(effects.fanout@.frame) == Reading::Says(post_json(said))
    &&& tells_of(effects.message, room_id, said, own)
}

/// Whether one more post fits the numbering of a room's floor.
pub open spec fn may_speak(state: StateModel, room_id: Seq<char>) -> bool {
    state.rooms.contains_key(room_id) ==> state.rooms[room_id].floor.seq < u64::MAX
}

// ---------------------------------------------------------------------------
// Delivering
// ---------------------------------------------------------------------------

fn copy_post(post: &Post) -> (res: Post)
    ensures
        res == *post,
{
    Post {
        message_id: post.message_id.clone(),
        speaker: post.speaker.clone(),
        hue: post.hue.clone(),
        content: post.content.clone(),
        to: post.to.clone(),
        ts: post.ts.clone(),
    }
}

/// Put a post into a room: checked against what its speaker has read, put on the floor
/// where they have read everything, and handed on.
///
/// Who says it is the connection's to state: the hue on the post is the one the seat
/// declared, whatever the post carried.
pub fn deliver(
    state: &mut RoomState,
    room_id: &str,
    origin: &str,
    post: Post,
    last_seen: Option<&str>,
) -> (res: Result<Delivery, String>)
    requires
        old(state).wf(),
        may_speak(old(state)@, room_id@),
    ensures
        final(state).wf(),
        match res {
            Err(message) => {
                &&& !old(state)@.rooms.contains_key(room_id@)
                &&& message@ == topic_not_open(room_id@)
                &&& final(state)@ == old(state)@
            },
            Ok(delivery) => {
                &&& old(state)@.rooms.contains_key(room_id@)
                &&& delivered_as(
                    old(state)@,
                    final(state)@,
                    delivery,
                    room_id@,
                    origin@,
                    post,
                    opt_str(last_seen),
                )
            },
        },
{
    let own = same_text(origin, state.local_origin().as_str());
    let topic = match state.topic_of(room_id) {
        Some(topic) => topic,
        None => {
            return Err(topic_not_open_text(room_id));
        },
    };
    let ghost before = state@;
    let mut said = post;
    said.hue = state.hue_on(room_id, origin);
    let ghost stamped_post = said;
    proof {
        assert(said == stamped(before.rooms[room_id@], origin@, post));
    }
    match state.speak(room_id, origin, last_seen, copy_post(&said)) {
        Admission::Unseen(missed) => {
            Ok(
                Delivery {
                    outcome: PostOutcome { delivered: false, message_id: None, missed },
                    effects: None,
                },
            )
        },
        Admission::Admitted { seq: _ } => {
            let value = post_frame(&said);
            proof {
                crate::json::lemma_deeper(post_json(said), 1, crate::json::read_depth());
            }
            let frame = compact(&value);
            let fanout = Fanout {
                origin: origin.to_owned(),
                room: room_id.to_owned(),
                target: None,
                frame,
            };
            let message = RoomMessage {
                topic_id: room_id.to_owned(),
                message_id: said.message_id.clone(),
                speaker: said.speaker.clone(),
                hue: said.hue.clone(),
                content: said.content.clone(),
                to: said.to.clone(),
                ts: said.ts.clone(),
                own,
            };
            let outcome = PostOutcome {
                delivered: true,
                message_id: Some(said.message_id.clone()),
                missed: Vec::new(),
            };
            Ok(Delivery { outcome, effects: Some(Effects { topic, post: said, fanout, message }) })
        },
    }
}

// ---------------------------------------------------------------------------
// The person at the screen
// ---------------------------------------------------------------------------

/// The participant a post is addressed to, where it names one.
pub fn normalize_to(to: Option<String>) -> (res: Option<String>)
    ensures
        opt_text(res) == given(opt_text(to)),
{
    owned(given_text(borrowed(&to)))
}

/// The account behind a connection, where it names one.
pub fn normalize_account(account_id: Option<String>) -> (res: Option<String>)
    ensures
        opt_text(res) == given(opt_text(account_id)),
{
    owned(given_text(borrowed(&account_id)))
}

/// What comes of the person at the screen declaring themselves: refused for a blank name,
/// and seated in every room otherwise, with the rooms in which that changed anything.
pub open spec fn joined_everywhere(
    before: StateModel,
    after: StateModel,
    name: Seq<char>,
    hue: Option<serde_json::Number>,
    account_id: Option<Seq<char>>,
    res: Result<Vec<String>, String>,
) -> bool {
    let declared = Declared { name: trimmed(name), hue, account: given(account_id) };
    match res {
        Err(message) => trimmed(name).len() == 0 && message@ == "name is empty"@ && after == before,
        Ok(changed) => {
            &&& trimmed(name).len() > 0
            &&& after == declared_everywhere(before, declared)
            &&& ascending(texts(changed@))
            &&& forall|id: Seq<char>| #[trigger]
                texts(changed@).contains(id) <==> before.rooms.contains_key(id) && seat_changes(
                    before.rooms[id],
                    before.local_origin,
                    declared,
                )
        },
    }
}

/// Seat the person at the screen in every room. A blank name is refused.
pub fn join(
    state: &mut RoomState,
    name: &str,
    hue: Option<serde_json::Number>,
    account_id: Option<String>,
) -> (res: Result<Vec<String>, String>)
    requires
        old(state).wf(),
    ensures
        final(state).wf(),
        joined_everywhere(
            old(state)@,
            final(state)@,
            name@,
            hue,
            opt_text(account_id),
            res,
        ),
{
    let name = trim(name);
    if name.unicode_len() == 0 {
        return Err("name is empty".to_owned());
    }
    let account = normalize_account(account_id);
    Ok(state.declare_local(name, hue, borrowed(&account)))
}

/// What the person at the screen declares when they speak under a name: the hue and the
/// account they declared before.
pub open spec fn speaking_as(state: StateModel, name: Seq<char>) -> Declared {
    match state.local {
        Some(person) => Declared { name, ..person },
        None => Declared { name, hue: None, account: None },
    }
}

/// The post that the person at the screen makes.
pub open spec fn local_post(
    made: Post,
    speaker: Seq<char>,
    content: Seq<char>,
    to: Option<Seq<char>>,
    message_id: Seq<char>,
    ts: Seq<char>,
) -> bool {
    &&& made.message_id@ == message_id
    &&& made.speaker@ == trimmed(speaker)
    &&& made.content@ == trimmed(content)
    &&& opt_text(made.to) == given(to)
    &&& made.ts@ == ts
}

/// What comes of the person at the screen speaking: refused for blank content or a blank
/// name, in that order; otherwise they are seated under that name in every room, and the
/// post is delivered or the topic found missing.
pub open spec fn spoken_locally(
    before: StateModel,
    after: StateModel,
    res: Result<(Vec<String>, Result<Delivery, String>), String>,
    topic_id: Seq<char>,
    speaker: Seq<char>,
    content: Seq<char>,
    to: Option<Seq<char>>,
    last_seen: Option<Seq<char>>,
    message_id: Seq<char>,
    ts: Seq<char>,
) -> bool {
    let declared = speaking_as(before, trimmed(speaker));
    let seated = declared_everywhere(before, declared);
    if trimmed(content).len() == 0 {
        after == before && res is Err && res->Err_0@ == "content is empty"@
    } else if trimmed(speaker).len() == 0 {
        after == before && res is Err && res->Err_0@ == "speaker is empty"@
    } else {
        &&& res is Ok
        &&& ascending(texts(res->Ok_0.0@))
        &&& forall|id: Seq<char>| #[trigger]
            texts(res->Ok_0.0@).contains(id) <==> before.rooms.contains_key(id) && seat_changes(
                before.rooms[id],
                before.local_origin,
                declared,
            )
        &&& match res->Ok_0.1 {
            Err(message) => {
                &&& !before.rooms.contains_key(topic_id)
                &&& message@ == topic_not_open(topic_id)
                &&& after == seated
            },
            Ok(delivery) => {
                &&& before.rooms.contains_key(topic_id)
                &&& exists|made: Post| #[trigger]
                    local_post(made, speaker, content, to, message_id, ts) && delivered_as(
                        seated,
                        after,
                        delivery,
                        topic_id,
                        seated.local_origin,
                        made,
                        last_seen,
                    )
            },
        }
    }
}

/// Speak as the person at the screen, under an id and a stamp.
pub fn post_local_as(
    state: &mut RoomState,
    topic_id: &str,
    speaker: &str,
    content: &str,
    to: Option<String>,
    last_seen: Option<&str>,
    message_id: String,
    ts: String,
) -> (res: Result<(Vec<String>, Result<Delivery, String>), String>)
    requires
        old(state).wf(),
        may_speak(old(state)@, topic_id@),
    ensures
        final(state).wf(),
        spoken_locally(
            old(state)@,
            final(state)@,
            res,
            topic_id@,
            speaker@,
            content@,
            opt_text(to),
            opt_str(last_seen),
            message_id@,
            ts@,
        ),
{
    let ghost content_given = content@;
    let ghost speaker_given = speaker@;
    let content = trim(content);
    if content.unicode_len() == 0 {
        return Err("content is empty".to_owned());
    }
    let speaker = trim(speaker);
    if speaker.unicode_len() == 0 {
        return Err("speaker is empty".to_owned());
    }
    let (hue, account) = state.local_hue_and_account();
    let ghost before = state@;
    let changed = state.declare_local(speaker, hue, borrowed(&account));
    let ghost seated = state@;
    proof {
        assert(seated == declared_everywhere(before, speaking_as(before, speaker@)));
    }
    let ghost named = message_id@;
    let ghost stamp = ts@;
    let origin = state.local_origin();
    let post = Post {
        message_id,
        speaker: speaker.to_owned(),
        hue: None,
        content: content.to_owned(),
        to: normalize_to(to),
        ts,
    };
    proof {
        assert(local_post(post, speaker_given, content_given, opt_text(to), named, stamp));
    }
    let delivery = deliver(state, topic_id, origin.as_str(), post, last_seen);
    Ok((changed, delivery))
}

/// What comes of speaking under an id of this run and a moment of the clock.
pub open spec fn spoken_locally_now(
    before: StateModel,
    after: StateModel,
    res: Result<(Vec<String>, Result<Delivery, String>), String>,
    topic_id: Seq<char>,
    speaker: Seq<char>,
    content: Seq<char>,
    to: Option<Seq<char>>,
    last_seen: Option<Seq<char>>,
) -> bool {
    exists|message_id: Seq<char>, stretch: Option<std::time::Duration>|
        is_hyphenated_id(message_id) && #[trigger] spoken_locally(
            before,
            after,
            res,
            topic_id,
            speaker,
            content,
            to,
            last_seen,
            message_id,
            moment(stretch),
        )
}

/// Speak as the person at the screen, now and under a fresh id.
pub fn post_local(
    state: &mut RoomState,
    topic_id: &str,
    speaker: &str,
    content: &str,
    to: Option<String>,
    last_seen: Option<&str>,
) -> (res: Result<(Vec<String>, Result<Delivery, String>), String>)
    requires
        old(state).wf(),
        may_speak(old(state)@, topic_id@),
    ensures
        final(state).wf(),
        spoken_locally_now(
            old(state)@,
            final(state)@,
            res,
            topic_id@,
            speaker@,
            content@,
            opt_text(to),
            opt_str(last_seen),
        ),
{
    let message_id = fresh_id();
    let ts = now_iso();
    let ghost named = message_id@;
    let ghost stretch = choose|stretch: Option<std::time::Duration>|
        ts@ == #[trigger] moment(stretch);
    let res = post_local_as(
        state,
        topic_id,
        speaker,
        content,
        to,
        last_seen,
        message_id,
        ts,
    );
    assert(is_hyphenated_id(named));
    assert(spoken_locally(
        old(state)@,
        state@,
        res,
        topic_id@,
        speaker@,
        content@,
        opt_text(to),
        opt_str(last_seen),
        named,
        moment(stretch),
    ));
    res
}

// ---------------------------------------------------------------------------
// Laws
// ---------------------------------------------------------------------------

/// What is said in one room leaves every other room, and every seat of this one, as they
/// were.
pub proof fn law_speaking_stays_in_its_room(
    state: StateModel,
    room_id: Seq<char>,
    origin: Seq<char>,
    post: Post,
    other: Seq<char>,
)
    requires
        state.wf(),
        state.rooms.contains_key(room_id),
        other != room_id,
    ensures
        spoken(state, room_id, origin, post).wf(),
        spoken(state, room_id, origin, post).rooms.contains_key(other)
            == state.rooms.contains_key(other),
        state.rooms.contains_key(other) ==> spoken(state, room_id, origin, post).rooms[other]
            == state.rooms[other],
        spoken(state, room_id, origin, post).rooms[room_id].seats == state.rooms[room_id].seats,
{
    crate::floor::law_floor_stays_well_formed(
        state.rooms[room_id].floor,
        origin,
        stamped(state.rooms[room_id], origin, post),
    );
}

/// Once somebody has spoken in a room, nobody else may until they have read it: whatever
/// they last saw, unless they name that very post, they are refused, and the post is the
/// last of what they are handed.
pub proof fn law_nobody_speaks_past_an_unread_post(
    state: StateModel,
    room_id: Seq<char>,
    origin: Seq<char>,
    post: Post,
    other: Seq<char>,
    last_seen: Option<Seq<char>>,
)
    requires
        state.wf(),
        state.rooms.contains_key(room_id),
        other != origin,
        last_seen != Some(post.message_id@),
    ensures
        ({
            let room = spoken(state, room_id, origin, post).rooms[room_id];
            let unread = unread_by(room, other, last_seen);
            unread.len() > 0 && unread.last() == stamped(state.rooms[room_id], origin, post)
        }),
{
    let room = state.rooms[room_id];
    let said = stamped(room, origin, post);
    assert(state.rooms.contains_key(room_id));
    assert(room.wf());
    crate::floor::law_the_second_of_two_speakers_is_refused(
        room.floor,
        origin,
        said,
        other,
        since_of(room, other),
        last_seen,
    );
}

/// A participant who has just been seated may speak, whatever was said before they came.
pub proof fn law_a_new_participant_may_speak(
    room: RoomModel,
    origin: Seq<char>,
    declared: Declared,
)
    requires
        room.wf(),
        !room.seats.contains_key(origin),
    ensures
        unread_by(crate::room::with_seat(room, origin, declared), origin, None).len() == 0,
{
    crate::floor::law_nothing_is_owed_from_before_the_seat(room.floor, origin, 0, None);
}

/// Whether a speaker has read up to a position: where the first post that they name stands,
/// the beginning where they name one that is not on the floor, and where their seat was
/// taken where they name none, which is the beginning for one without a seat.
pub open spec fn has_read_up_to(
    room: RoomModel,
    origin: Seq<char>,
    last_seen: Option<Seq<char>>,
    mark: nat,
) -> bool {
    let log = room.floor.log;
    match last_seen {
        None => mark == if room.seats.contains_key(origin) {
            room.seats[origin].since
        } else {
            0
        },
        Some(id) => if exists|i: int|
            0 <= i < log.len() && (#[trigger] log[i]).post.message_id@ == id {
            exists|i: int|
                {
                    &&& 0 <= i < log.len()
                    &&& (#[trigger] log[i]).post.message_id@ == id
                    &&& log[i].seq == mark
                    &&& forall|j: int| 0 <= j < i ==> (#[trigger] log[j]).post.message_id@ != id
                }
        } else {
            mark == 0
        },
    }
}

proof fn lemma_read_up_to(
    room: RoomModel,
    origin: Seq<char>,
    last_seen: Option<Seq<char>>,
    mark: nat,
)
    requires
        has_read_up_to(room, origin, last_seen, mark),
    ensures
        room.floor.mark(since_of(room, origin), last_seen) == mark,
{
    if let Some(id) = last_seen {
        lemma_first_with_id(room.floor.log, id, mark);
    }
}

proof fn lemma_first_with_id(log: Seq<Place>, id: Seq<char>, mark: nat)
    requires
        if exists|i: int| 0 <= i < log.len() && (#[trigger] log[i]).post.message_id@ == id {
            exists|i: int|
                {
                    &&& 0 <= i < log.len()
                    &&& (#[trigger] log[i]).post.message_id@ == id
                    &&& log[i].seq == mark
                    &&& forall|j: int| 0 <= j < i ==> (#[trigger] log[j]).post.message_id@ != id
                }
        } else {
            mark == 0
        },
    ensures
        position_in(log, id) == mark,
    decreases log.len(),
{
    if log.len() > 0 && log[0].post.message_id@ != id {
        let rest = log.skip(1);
        if exists|i: int| 0 <= i < log.len() && (#[trigger] log[i]).post.message_id@ == id {
            let i = choose|i: int|
                {
                    &&& 0 <= i < log.len()
                    &&& (#[trigger] log[i]).post.message_id@ == id
                    &&& log[i].seq == mark
                    &&& forall|j: int| 0 <= j < i ==> (#[trigger] log[j]).post.message_id@ != id
                };
            assert(rest[i - 1] == log[i]);
            assert forall|j: int| 0 <= j < i - 1 implies (#[trigger] rest[j]).post.message_id@
                != id by {
                assert(rest[j] == log[j + 1]);
            }
        } else {
            assert forall|j: int| 0 <= j < rest.len() implies (#[trigger] rest[j]).post.message_id@
                != id by {
                assert(rest[j] == log[j + 1]);
            }
        }
        lemma_first_with_id(rest, id, mark);
    }
}

/// A post is delivered exactly where its speaker has read everything that somebody else has
/// on the room's floor.
pub proof fn law_a_post_is_delivered_where_everything_was_read(
    before: StateModel,
    after: StateModel,
    delivery: Delivery,
    room_id: Seq<char>,
    origin: Seq<char>,
    post: Post,
    last_seen: Option<Seq<char>>,
    mark: nat,
)
    requires
        delivered_as(before, after, delivery, room_id, origin, post, last_seen),
        has_read_up_to(before.rooms[room_id], origin, last_seen, mark),
    ensures
        ({
            let log = before.rooms[room_id].floor.log;
            delivery.outcome.delivered <==> forall|i: int|
                0 <= i < log.len() && (#[trigger] log[i]).origin != origin ==> log[i].seq <= mark
        }),
        delivery.outcome.delivered <==> delivery.effects is Some,
{
    let room = before.rooms[room_id];
    let log = room.floor.log;
    lemma_read_up_to(room, origin, last_seen, mark);
    crate::floor::lemma_nothing_unseen(log, origin, mark);
    if forall|i: int|
        0 <= i < log.len() && (#[trigger] log[i]).origin != origin ==> log[i].seq <= mark {
        assert forall|i: int| 0 <= i < log.len() implies !crate::floor::unread(
            #[trigger] log[i],
            origin,
            mark,
        ) by {}
    }
}

/// A refused speaker changes nothing, and is handed every post of the others that they have
/// not read, oldest first, each with what was said, by whom and under which id.
pub proof fn law_a_refused_speaker_is_handed_what_they_missed(
    before: StateModel,
    after: StateModel,
    delivery: Delivery,
    room_id: Seq<char>,
    origin: Seq<char>,
    post: Post,
    last_seen: Option<Seq<char>>,
    mark: nat,
)
    requires
        delivered_as(before, after, delivery, room_id, origin, post, last_seen),
        has_read_up_to(before.rooms[room_id], origin, last_seen, mark),
        !delivery.outcome.delivered,
    ensures
        after == before,
        delivery.effects is None,
        delivery.outcome.message_id is None,
        delivery.outcome.missed@.len() > 0,
        ({
            let unread = before.rooms[room_id].floor.log.filter(
                |place: Place| place.seq > mark && place.origin != origin,
            );
            &&& delivery.outcome.missed@.len() == unread.len()
            &&& forall|i: int|
                0 <= i < unread.len() ==> {
                    let handed = #[trigger] delivery.outcome.missed@[i];
                    &&& handed.message_id@ == unread[i].post.message_id@
                    &&& handed.speaker@ == unread[i].post.speaker@
                    &&& handed.content@ == unread[i].post.content@
                    &&& handed.hue == unread[i].post.hue
                    &&& handed.to == unread[i].post.to
                    &&& handed.ts@ == unread[i].post.ts@
                }
        }),
{
    let room = before.rooms[room_id];
    lemma_read_up_to(room, origin, last_seen, mark);
    crate::floor::law_the_unread_are_the_posts_of_others_behind_the_watermark(
        room.floor.log,
        origin,
        mark,
    );
}

/// A delivered post stands last on the floor of its room, under its connection, as it was
/// said and in the colour that the connection's seat declared. It is logged, sent to the
/// others of the room and shown on the screen as it was said; everything else stays.
pub proof fn law_a_delivered_post_is_logged_sent_and_shown(
    before: StateModel,
    after: StateModel,
    delivery: Delivery,
    room_id: Seq<char>,
    origin: Seq<char>,
    post: Post,
    last_seen: Option<Seq<char>>,
)
    requires
        before.wf(),
        before.rooms.contains_key(room_id),
        delivered_as(before, after, delivery, room_id, origin, post, last_seen),
        delivery.outcome.delivered,
    ensures
        opt_text(delivery.outcome.message_id) == Some(post.message_id@),
        delivery.outcome.missed@.len() == 0,
        delivery.effects is Some,
        ({
            let room = before.rooms[room_id];
            let hue = if room.seats.contains_key(origin) {
                room.seats[origin].declared.hue
            } else {
                None
            };
            let effects = delivery.effects->0;
            let placed = after.rooms[room_id].floor.log.last();
            &&& placed.origin == origin
            &&& placed.seq == room.floor.seq + 1
            &&& placed.post == effects.post
            &&& effects.post.message_id@ == post.message_id@
            &&& effects.post.speaker@ == post.speaker@
            &&& effects.post.content@ == post.content@
            &&& effects.post.to == post.to
            &&& effects.post.ts@ == post.ts@
            &&& effects.post.hue == hue
            &&& effects.topic.topic_id@ == room.topic.topic_id
            &&& effects.topic.created_at@ == room.topic.created_at
            &&& effects.fanout.origin@ == origin
            &&& effects.fanout.room@ == room_id
            &&& effects.fanout.target is None
            &&& parsed(effects.fanout.frame@) is Says
            &&& says(parsed(effects.fanout.frame@)->Says_0, "message_id"@, post.message_id@)
            &&& says(parsed(effects.fanout.frame@)->Says_0, "speaker"@, post.speaker@)
            &&& says(parsed(effects.fanout.frame@)->Says_0, "content"@, post.content@)
            &&& says(parsed(effects.fanout.frame@)->Says_0, "ts"@, post.ts@)
            &&& says_if_any(parsed(effects.fanout.frame@)->Says_0, "to"@, opt_text(post.to))
            &&& effects.message.topic_id@ == room_id
            &&& effects.message.message_id@ == post.message_id@
            &&& effects.message.speaker@ == post.speaker@
            &&& effects.message.content@ == post.content@
            &&& opt_text(effects.message.to) == opt_text(post.to)
            &&& effects.message.ts@ == post.ts@
            &&& effects.message.hue == hue
            &&& effects.message.own <==> origin == before.local_origin
        }),
        after.rooms[room_id].seats == before.rooms[room_id].seats,
        after.rooms[room_id].topic == before.rooms[room_id].topic,
        after.rooms.dom() == before.rooms.dom(),
        forall|id: Seq<char>|
            id != room_id && before.rooms.contains_key(id) ==> #[trigger] after.rooms[id]
                == before.rooms[id],
        after.current == before.current,
        after.local == before.local,
        after.port == before.port,
{
    let room = before.rooms[room_id];
    let said = delivery.effects->0.post;
    crate::floor::law_a_post_is_put_behind_the_others(room.floor, origin, said);
    crate::frames::law_a_post_frame_tells_who_said_what(said);
    assert(after.rooms.dom() =~= before.rooms.dom());
}

/// The person at the screen is seated in every room that is held, under what they declare:
/// the name without the white space around it, the hue, and the account where it is not
/// blank. Nobody else's seat changes, and no room's floor or topic.
pub proof fn law_the_person_at_the_screen_is_in_every_room(
    before: StateModel,
    after: StateModel,
    name: Seq<char>,
    hue: Option<serde_json::Number>,
    account_id: Option<Seq<char>>,
    res: Result<Vec<String>, String>,
    id: Seq<char>,
    other: Seq<char>,
)
    requires
        joined_everywhere(before, after, name, hue, account_id, res),
        before.rooms.contains_key(id),
        other != before.local_origin,
    ensures
        res is Err <==> trimmed(name).len() == 0,
        res is Err ==> after == before,
        res is Ok ==> {
            let seat = after.rooms[id].seats[before.local_origin];
            &&& after.rooms.contains_key(id)
            &&& after.rooms[id].seats.contains_key(before.local_origin)
            &&& seat.declared.name == trimmed(name)
            &&& crate::room::same_hue(seat.declared.hue, hue)
            &&& seat.declared.account == given(account_id)
            &&& after.local is Some
            &&& after.local->0.name == trimmed(name)
            &&& after.local->0.hue == hue
            &&& after.local->0.account == given(account_id)
            &&& after.rooms[id].floor == before.rooms[id].floor
            &&& after.rooms[id].topic == before.rooms[id].topic
            &&& after.rooms[id].seats.contains_key(other) == before.rooms[id].seats.contains_key(
                other,
            )
            &&& after.rooms[id].seats.contains_key(other) ==> after.rooms[id].seats[other]
                == before.rooms[id].seats[other]
            &&& !before.rooms[id].seats.contains_key(before.local_origin) ==> seat.since
                == before.rooms[id].floor.seq && texts(res->Ok_0@).contains(id)
            &&& before.rooms[id].seats.contains_key(before.local_origin) ==> {
                let was = before.rooms[id].seats[before.local_origin];
                &&& seat.since == was.since
                &&& texts(res->Ok_0@).contains(id) <==> was.declared.name != trimmed(name)
                    || !crate::room::same_hue(was.declared.hue, hue) || was.declared.account
                    != given(account_id)
            }
        },
        res is Err ==> res->Err_0@ == "name is empty"@,
        after.rooms.dom() == before.rooms.dom(),
        after.current == before.current,
        after.port == before.port,
        after.token == before.token,
        after.local_origin == before.local_origin,
{
    assert(after.rooms.dom() =~= before.rooms.dom());
}

/// What the person at the screen says is delivered in the topic they say it in, from their
/// own connection, under their name, to whom they name, and shown as their own; the white
/// space around it is dropped. They keep the hue and the account they declared.
pub proof fn law_the_person_at_the_screen_is_heard(
    before: StateModel,
    after: StateModel,
    res: Result<(Vec<String>, Result<Delivery, String>), String>,
    topic_id: Seq<char>,
    speaker: Seq<char>,
    content: Seq<char>,
    to: Option<Seq<char>>,
    last_seen: Option<Seq<char>>,
    message_id: Seq<char>,
    ts: Seq<char>,
)
    requires
        before.wf(),
        spoken_locally(
            before,
            after,
            res,
            topic_id,
            speaker,
            content,
            to,
            last_seen,
            message_id,
            ts,
        ),
    ensures
        res is Err <==> trimmed(content).len() == 0 || trimmed(speaker).len() == 0,
        res is Err ==> after == before,
        res is Err ==> res->Err_0@ == if trimmed(content).len() == 0 {
            "content is empty"@
        } else {
            "speaker is empty"@
        },
        res is Ok ==> {
            let delivery = res->Ok_0.1;
            let effects = delivery->Ok_0.effects->0;
            &&& after.local is Some
            &&& after.local->0.name == trimmed(speaker)
            &&& before.local is Some ==> after.local->0.hue == before.local->0.hue
                && after.local->0.account == before.local->0.account
            &&& delivery is Ok <==> before.rooms.contains_key(topic_id)
            &&& delivery is Err ==> delivery->Err_0@ == "トピック "@ + topic_id
                + " はこのアプリで開かれていません。削除されたトピックかもしれません。"@
            &&& delivery is Ok && delivery->Ok_0.outcome.delivered ==> {
                &&& delivery->Ok_0.effects is Some
                &&& opt_text(delivery->Ok_0.outcome.message_id) == Some(message_id)
                &&& effects.post.message_id@ == message_id
                &&& effects.post.speaker@ == trimmed(speaker)
                &&& effects.post.content@ == trimmed(content)
                &&& opt_text(effects.post.to) == given(to)
                &&& effects.post.ts@ == ts
                &&& effects.message.own
                &&& effects.message.content@ == trimmed(content)
                &&& effects.message.topic_id@ == topic_id
                &&& effects.fanout.origin@ == before.local_origin
                &&& after.rooms[topic_id].floor.log.last().post.content@ == trimmed(content)
                &&& after.rooms[topic_id].floor.log.last().origin == before.local_origin
            }
            &&& delivery is Ok && !delivery->Ok_0.outcome.delivered ==> {
                &&& delivery->Ok_0.effects is None
                &&& delivery->Ok_0.outcome.missed@.len() > 0
                &&& after.rooms[topic_id].floor == before.rooms[topic_id].floor
            }
        },
{
    if res is Ok && res->Ok_0.1 is Ok {
        let declared = speaking_as(before, trimmed(speaker));
        let seated = declared_everywhere(before, declared);
        let delivery = res->Ok_0.1->Ok_0;
        let made = choose|made: Post| #[trigger]
            local_post(made, speaker, content, to, message_id, ts) && delivered_as(
                seated,
                after,
                delivery,
                topic_id,
                seated.local_origin,
                made,
                last_seen,
            );
        assert(seated.wf()) by {
            assert forall|id: Seq<char>| #[trigger] seated.rooms.contains_key(id) implies seated.rooms[id].wf() by {
                assert(before.rooms.contains_key(id));
                crate::room::law_a_seat_keeps_its_position(
                    before.rooms[id],
                    before.local_origin,
                    declared,
                    declared,
                );
            }
        }
        if delivery.outcome.delivered {
            law_a_delivered_post_is_logged_sent_and_shown(
                seated,
                after,
                delivery,
                topic_id,
                seated.local_origin,
                made,
                last_seen,
            );
        }
    }
}

/// The watermark that the person at the screen names counts: where they name the newest post
/// of the topic, and no two posts there carry one id, what they say is delivered.
pub proof fn law_the_person_at_the_screen_may_speak_once_they_have_read(
    before: StateModel,
    after: StateModel,
    res: Result<(Vec<String>, Result<Delivery, String>), String>,
    topic_id: Seq<char>,
    speaker: Seq<char>,
    content: Seq<char>,
    to: Option<Seq<char>>,
    message_id: Seq<char>,
    ts: Seq<char>,
)
    requires
        before.wf(),
        before.rooms.contains_key(topic_id),
        before.rooms[topic_id].floor.log.len() > 0,
        ids_distinct(before.rooms[topic_id].floor.log),
        trimmed(content).len() > 0,
        trimmed(speaker).len() > 0,
        spoken_locally(
            before,
            after,
            res,
            topic_id,
            speaker,
            content,
            to,
            Some(before.rooms[topic_id].floor.log.last().post.message_id@),
            message_id,
            ts,
        ),
    ensures
        res is Ok,
        res->Ok_0.1 is Ok,
        res->Ok_0.1->Ok_0.outcome.delivered,
{
    let declared = speaking_as(before, trimmed(speaker));
    let seated = declared_everywhere(before, declared);
    let floor = before.rooms[topic_id].floor;
    let last = floor.log.len() - 1;
    let delivery = res->Ok_0.1->Ok_0;
    assert(seated.rooms[topic_id].floor == floor);
    assert(before.rooms[topic_id].wf());
    crate::floor::law_a_watermark_is_where_the_named_post_stands(
        floor,
        since_of(seated.rooms[topic_id], seated.local_origin),
        floor.log[last].post.message_id@,
        last,
    );
    crate::floor::lemma_nothing_unseen(floor.log, seated.local_origin, floor.seq);
}

/// What the person at the screen says goes under an id that this run minted and a moment that
/// the clock gave, and says what they said, under their name, to whom they named.
pub proof fn law_the_person_at_the_screen_speaks_now(
    before: StateModel,
    after: StateModel,
    res: Result<(Vec<String>, Result<Delivery, String>), String>,
    topic_id: Seq<char>,
    speaker: Seq<char>,
    content: Seq<char>,
    to: Option<Seq<char>>,
    last_seen: Option<Seq<char>>,
)
    requires
        before.wf(),
        spoken_locally_now(before, after, res, topic_id, speaker, content, to, last_seen),
        res is Ok,
        res->Ok_0.1 is Ok,
        res->Ok_0.1->Ok_0.outcome.delivered,
    ensures
        res->Ok_0.1->Ok_0.effects is Some,
        ({
            let said = res->Ok_0.1->Ok_0.effects->0.post;
            &&& is_hyphenated_id(said.message_id@)
            &&& exists|stretch: Option<std::time::Duration>| said.ts@ == #[trigger] moment(stretch)
            &&& said.speaker@ == trimmed(speaker)
            &&& said.content@ == trimmed(content)
            &&& opt_text(said.to) == given(to)
        }),
{
    let (message_id, stretch) = choose|message_id: Seq<char>, stretch: Option<std::time::Duration>|
        is_hyphenated_id(message_id) && #[trigger] spoken_locally(
            before,
            after,
            res,
            topic_id,
            speaker,
            content,
            to,
            last_seen,
            message_id,
            moment(stretch),
        );
    law_the_person_at_the_screen_is_heard(
        before,
        after,
        res,
        topic_id,
        speaker,
        content,
        to,
        last_seen,
        message_id,
        moment(stretch),
    );
}

/// Whom a post is addressed to and which account is behind a connection is what the field
/// says without the white space around it, and nobody where it is blank.
pub proof fn law_a_blank_name_is_nobody(
    field: Option<String>,
    to: Option<String>,
    account: Option<String>,
)
    requires
        normalize_to.ensures((field,), to),
        normalize_account.ensures((field,), account),
    ensures
        to is Some <==> field is Some && trimmed(field->0@).len() > 0,
        to is Some ==> to->0@ == trimmed(field->0@),
        account is Some <==> field is Some && trimmed(field->0@).len() > 0,
        account is Some ==> account->0@ == trimmed(field->0@),
{
}

/// A post into a room that is held is delivered or refused there, as it was given and by whom
/// it was given; into any other it is an error, and nothing changes.
pub proof fn law_a_post_is_delivered_as_it_is_given(
    state: &mut RoomState,
    room_id: &str,
    origin: &str,
    post: Post,
    last_seen: Option<&str>,
    res: Result<Delivery, String>,
)
    requires
        deliver.ensures((state, room_id, origin, post, last_seen), res),
    ensures
        res is Ok <==> old(state)@.rooms.contains_key(room_id@),
        res is Err ==> final(state)@ == old(state)@ && res->Err_0@ == "トピック "@ + room_id@
            + " はこのアプリで開かれていません。削除されたトピックかもしれません。"@,
        res is Ok ==> delivered_as(
            old(state)@,
            final(state)@,
            res->Ok_0,
            room_id@,
            origin@,
            post,
            opt_str(last_seen),
        ),
{
}

/// The person at the screen joins under the name, the hue and the account they give.
pub proof fn law_the_person_at_the_screen_joins_as_they_say(
    state: &mut RoomState,
    name: &str,
    hue: Option<serde_json::Number>,
    account_id: Option<String>,
    res: Result<Vec<String>, String>,
)
    requires
        join.ensures((state, name, hue, account_id), res),
    ensures
        joined_everywhere(
            old(state)@,
            final(state)@,
            name@,
            hue,
            opt_text(account_id),
            res,
        ),
{
}

/// What the person at the screen says is said in the topic, under the name, to whom and behind
/// the watermark that they give, and under the id and the stamp that are given.
pub proof fn law_the_person_at_the_screen_speaks_as_they_say(
    state: &mut RoomState,
    topic_id: &str,
    speaker: &str,
    content: &str,
    to: Option<String>,
    last_seen: Option<&str>,
    message_id: String,
    ts: String,
    res: Result<(Vec<String>, Result<Delivery, String>), String>,
)
    requires
        post_local_as.ensures(
            (state, topic_id, speaker, content, to, last_seen, message_id, ts),
            res,
        ),
    ensures
        spoken_locally(
            old(state)@,
            final(state)@,
            res,
            topic_id@,
            speaker@,
            content@,
            opt_text(to),
            opt_str(last_seen),
            message_id@,
            ts@,
        ),
{
}

/// So it is where the id and the stamp are this run's own.
pub proof fn law_the_person_at_the_screen_speaks_now_as_they_say(
    state: &mut RoomState,
    topic_id: &str,
    speaker: &str,
    content: &str,
    to: Option<String>,
    last_seen: Option<&str>,
    res: Result<(Vec<String>, Result<Delivery, String>), String>,
)
    requires
        post_local.ensures((state, topic_id, speaker, content, to, last_seen), res),
    ensures
        spoken_locally_now(
            old(state)@,
            final(state)@,
            res,
            topic_id@,
            speaker@,
            content@,
            opt_text(to),
            opt_str(last_seen),
        ),
{
}

} // verus!
