//! One participant's connection: what each frame it sends does, and which frames it is
//! sent.

use vstd::prelude::*;
use vstd::string::*;

use crate::clock::{moment, now_iso};
use crate::delivery::{
    deliver, delivered_as, has_read_up_to, law_a_delivered_post_is_logged_sent_and_shown,
    law_a_post_is_delivered_where_everything_was_read,
    law_a_refused_speaker_is_handed_what_they_missed, may_speak, normalize_account, normalize_to,
    since_of, Delivery, Effects,
};
use crate::floor::{
    ids_distinct, law_a_watermark_is_where_the_named_post_stands, lemma_nothing_unseen, Missed,
    Place, Post,
};
use crate::frames::{
    ends_before, history_answer, history_error, history_error_json, history_json,
    law_a_missed_post_is_handed_back_whole, law_a_page_hands_out_the_newest_posts_before_its_end,
    law_a_receipt_says_what_became_of_a_post, law_an_unread_history_says_why,
    lemma_history_error_readable, lemma_history_readable, lemma_receipt_nests, logged_models,
    missed_json, receipt_frame, receipt_json, says, says_if_any,
};
use crate::ids::{fresh_id, is_hyphenated_id};
use crate::json::{
    alike, at, compact, compact_text, json_of, lemma_alike_parts, nests_within, parsed, read_depth,
    readable, reads_alike, Json, Reading,
};
use crate::room::{
    same_hue, with_seat, Declared, Fanout, FanoutModel, PROTOCOL_VERSION, RoomModel, RoomState,
    StateModel,
};
use crate::text::{borrowed, given, given_text, opt_str, opt_text, owned, same_text, trimmed};
use crate::topics::{LoggedPost, TopicRef};

verus! {

/// A frame that a participant sent.
#[derive(Debug)]
pub struct IncomingFrame {
    pub kind: String,
    pub message_id: Option<String>,
    pub name: Option<String>,
    pub hue: Option<serde_json::Number>,
    pub account_id: Option<String>,
    pub content: Option<String>,
    pub to: Option<String>,
    pub ts: Option<String>,
    pub last_seen: Option<String>,
    pub protocol: Option<u32>,
    pub room: Option<String>,
    pub request_id: Option<String>,
    pub limit: Option<usize>,
    pub before: Option<String>,
}

/// A connection: its id, the room it joined, and the name it joined under.
#[derive(Debug)]
pub struct Connection {
    pub origin: String,
    pub joined_room: Option<String>,
    pub joined_as: Option<String>,
}

/// A connection, told by its texts.
pub struct ConnectionModel {
    pub origin: Seq<char>,
    pub joined_room: Option<Seq<char>>,
    pub joined_as: Option<Seq<char>>,
}

impl View for Connection {
    type V = ConnectionModel;

    open spec fn view(&self) -> ConnectionModel {
        ConnectionModel {
            origin: self.origin@,
            joined_room: opt_text(self.joined_room),
            joined_as: opt_text(self.joined_as),
        }
    }
}

/// What a frame asks for.
#[derive(Debug, Clone, Copy, PartialEq, Eq, Structural)]
pub enum Request {
    Hello,
    Post,
    History,
    /// Nothing that this room answers.
    Other,
}

/// What a frame's kind asks for.
pub open spec fn request_named(kind: Seq<char>) -> Request {
    if kind == "hello"@ {
        Request::Hello
    } else if kind == "post"@ {
        Request::Post
    } else if kind == "history"@ {
        Request::History
    } else {
        Request::Other
    }
}

/// What a frame asks for.
pub fn request_of(frame: &IncomingFrame) -> (request: Request)
    ensures
        request == request_named(frame.kind@),
{
    let kind: &str = frame.kind.as_str();
    if same_text(kind, "hello") {
        Request::Hello
    } else if same_text(kind, "post") {
        Request::Post
    } else if same_text(kind, "history") {
        Request::History
    } else {
        Request::Other
    }
}

// ---------------------------------------------------------------------------
// Getting in
// ---------------------------------------------------------------------------

/// Whether a connection presents the room's token.
pub fn authorized(header: Option<&str>, token: &str) -> (res: bool)
    ensures
        res == (opt_str(header) == Some("Bearer "@ + token@)),
{
    let mut expected: String = "Bearer ".to_owned();
    expected.append(token);
    match header {
        Some(value) => same_text(value, expected.as_str()),
        None => false,
    }
}

impl Connection {
    /// A connection that has not said who it is.
    pub fn accept(origin: String) -> (connection: Self)
        ensures
            connection@ == (ConnectionModel {
                origin: origin@,
                joined_room: None,
                joined_as: None,
            }),
    {
        Connection { origin, joined_room: None, joined_as: None }
    }

    /// A connection under a fresh id.
    pub fn new() -> (connection: Self)
        ensures
            is_hyphenated_id(connection@.origin),
            connection@.joined_room is None,
            connection@.joined_as is None,
    {
        Connection::accept(fresh_id())
    }
}

/// Whether a connection speaks the version this room speaks.
pub fn speaks_protocol(frame: &IncomingFrame) -> (res: bool)
    ensures
        res == (frame.protocol == Some(PROTOCOL_VERSION)),
{
    match frame.protocol {
        Some(version) => version == PROTOCOL_VERSION,
        None => false,
    }
}

/// The name a participant goes by.
pub open spec fn name_or_session(name: Option<Seq<char>>) -> Seq<char> {
    match name {
        Some(name) => name,
        None => "session"@,
    }
}

/// The room that a hello puts a connection into: the one it joined before, whatever it
/// asks for now; else the one it asks for, where this run holds it; else none.
pub open spec fn room_joined(
    joined: Option<Seq<char>>,
    asked: Option<Seq<char>>,
    state: StateModel,
) -> Option<Seq<char>> {
    match (joined, given(asked)) {
        (Some(room), _) => Some(room),
        (None, Some(room)) => if state.rooms.contains_key(room) {
            Some(room)
        } else {
            None
        },
        (None, None) => None,
    }
}

/// What came of a hello.
#[derive(Debug)]
pub struct Hello {
    /// The name the connection gave.
    pub name: String,
    /// The room it asked for.
    pub asked: Option<String>,
    /// The room it is in, or `None` when it was not let into one.
    pub room: Option<String>,
}

/// What comes of a participant saying who they are.
pub open spec fn welcomed(
    before: ConnectionModel,
    after: ConnectionModel,
    state: StateModel,
    left: StateModel,
    frame: IncomingFrame,
    res: Hello,
) -> bool {
    let name = name_or_session(opt_text(frame.name));
    let room = room_joined(before.joined_room, opt_text(frame.room), state);
    &&& res.name@ == name
    &&& opt_text(res.asked) == given(opt_text(frame.room))
    &&& opt_text(res.room) == room
    &&& after.origin == before.origin
    &&& match room {
        None => after == before && left == state,
        Some(id) => {
            let declared = Declared {
                name,
                hue: frame.hue,
                account: given(opt_text(frame.account_id)),
            };
            &&& after == (ConnectionModel {
                origin: before.origin,
                joined_room: Some(id),
                joined_as: Some(name),
            })
            &&& left == (if state.rooms.contains_key(id) {
                state.with_room(id, with_seat(state.rooms[id], before.origin, declared))
            } else {
                state
            })
        },
    }
}

/// A participant says who they are. They are seated in the room they joined, or in the
/// one they ask for; where there is none, nothing changes.
pub fn hello(connection: &mut Connection, state: &mut RoomState, frame: IncomingFrame) -> (res: Hello)
    requires
        old(state).wf(),
    ensures
        final(state).wf(),
        welcomed(
            old(connection)@,
            final(connection)@,
            old(state)@,
            final(state)@,
            frame,
            res,
        ),
{
    let name = match frame.name {
        Some(name) => name,
        None => "session".to_owned(),
    };
    let asked = owned(given_text(borrowed(&frame.room)));
    let room = match borrowed(&connection.joined_room) {
        Some(joined) => Some(joined.to_owned()),
        None => match borrowed(&asked) {
            Some(id) => if state.holds(id) {
                Some(id.to_owned())
            } else {
                None
            },
            None => None,
        },
    };
    if let Some(id) = borrowed(&room) {
        let account = normalize_account(frame.account_id);
        let _ = state.seat(
            id,
            connection.origin.as_str(),
            name.as_str(),
            frame.hue,
            borrowed(&account),
        );
        connection.joined_room = Some(id.to_owned());
        connection.joined_as = Some(name.clone());
    }
    Hello { name, asked, room }
}

/// What comes of a connection's end.
pub open spec fn left_room(
    connection: ConnectionModel,
    before: StateModel,
    after: StateModel,
    told: Option<Seq<char>>,
) -> bool {
    let had = connection.joined_as is Some && connection.joined_room is Some
        && before.rooms.contains_key(connection.joined_room->0);
    let id = connection.joined_room->0;
    let room = before.rooms[id];
    &&& told == (if had {
        Some(id)
    } else {
        None
    })
    &&& after == (if had {
        before.with_room(id, RoomModel { seats: room.seats.remove(connection.origin), ..room })
    } else {
        before
    })
}

/// The connection ended. Its seat is taken away where it had one in a room that is still
/// held, which is then the room to tell the screen about.
pub fn leave(connection: &Connection, state: &mut RoomState) -> (res: Option<String>)
    requires
        old(state).wf(),
    ensures
        final(state).wf(),
        left_room(connection@, old(state)@, final(state)@, opt_text(res)),
{
    if connection.joined_as.is_none() {
        return None;
    }
    match borrowed(&connection.joined_room) {
        Some(id) => {
            if state.holds(id) {
                state.unseat(id, connection.origin.as_str());
                Some(id.to_owned())
            } else {
                None
            }
        },
        None => None,
    }
}

// ---------------------------------------------------------------------------
// Which frames a connection is sent
// ---------------------------------------------------------------------------

/// Whether a frame is for a connection: one that names a target is for that one alone,
/// and one for a room is for everybody who joined it but its author.
pub open spec fn is_for(fanout: FanoutModel, connection: ConnectionModel) -> bool {
    match fanout.target {
        Some(target) => target == connection.origin,
        None => fanout.origin != connection.origin && connection.joined_room == Some(fanout.room),
    }
}

/// Whether a frame is for a connection.
pub fn receives(fanout: &Fanout, origin: &str, joined_room: Option<&str>) -> (res: bool)
    ensures
        forall|connection: ConnectionModel|
            connection.origin == origin@ && connection.joined_room == opt_str(joined_room) ==> res
                == #[trigger] is_for(fanout@, connection),
        res == is_for(
            fanout@,
            (ConnectionModel {
                origin: origin@,
                joined_room: opt_str(joined_room),
                joined_as: None,
            }),
        ),
{
    match borrowed(&fanout.target) {
        Some(target) => same_text(target, origin),
        None => {
            if same_text(fanout.origin.as_str(), origin) {
                return false;
            }
            match joined_room {
                Some(room) => same_text(room, fanout.room.as_str()),
                None => false,
            }
        },
    }
}

// ---------------------------------------------------------------------------
// Speaking
// ---------------------------------------------------------------------------

/// What a connection without a room is told.
pub open spec fn no_room(joined: Option<Seq<char>>) -> Seq<char> {
    match joined {
        Some(id) => "the topic this session was started in ("@ + id
            + ") is no longer open in the app; it may have been deleted"@,
        None => "this session is not in a room: its hello named none this app holds"@,
    }
}

fn no_room_text(joined: Option<&str>) -> (text: String)
    ensures
        text@ == no_room(opt_str(joined)),
{
    match joined {
        Some(id) => {
            let mut text: String = "the topic this session was started in (".to_owned();
            text.append(id);
            text.append(") is no longer open in the app; it may have been deleted");
            text
        },
        None => "this session is not in a room: its hello named none this app holds".to_owned(),
    }
}

/// A frame to one connection alone.
pub open spec fn reply(connection: ConnectionModel, json: Json) -> FanoutModel {
    FanoutModel {
        origin: connection.origin,
        room: Seq::empty(),
        target: Some(connection.origin),
        frame: compact_text(json),
    }
}

fn reply_with(connection: &Connection, value: serde_json::Value) -> (fanout: Fanout)
    ensures
        fanout@ == reply(connection@, json_of(value)),
        nests_within(json_of(value), read_depth()) ==> reads_alike(
            parsed(fanout@.frame),
            json_of(value),
        ),
        readable(json_of(value), read_depth()) ==> parsed(fanout@.frame) == Reading::Says(
            json_of(value),
        ),
{
    let fanout = Fanout {
        origin: connection.origin.clone(),
        room: String::new(),
        target: Some(connection.origin.clone()),
        frame: compact(&value),
    };
    proof {
        assert(fanout@.room =~= Seq::<char>::empty());
    }
    fanout
}

/// The post that a frame makes: under the name its connection joined with, and under the
/// given id and stamp where it carries none of its own.
pub open spec fn framed_post(
    made: Post,
    connection: ConnectionModel,
    frame: IncomingFrame,
    fresh: Seq<char>,
    now: Seq<char>,
) -> bool {
    &&& made.message_id@ == match frame.message_id {
        Some(id) => id@,
        None => fresh,
    }
    &&& made.speaker@ == name_or_session(connection.joined_as)
    &&& made.content@ == match frame.content {
        Some(content) => content@,
        None => Seq::empty(),
    }
    &&& opt_text(made.to) == given(opt_text(frame.to))
    &&& made.ts@ == match frame.ts {
        Some(ts) => ts@,
        None => now,
    }
}

/// Whether a connection is in a room that this run holds.
pub open spec fn in_held_room(connection: ConnectionModel, state: StateModel) -> bool {
    connection.joined_room is Some && state.rooms.contains_key(connection.joined_room->0)
}

/// What comes of a post from a connection: delivered or refused in the room it joined,
/// with the receipt of that; and an error on the receipt where it is in no room that this
/// run holds.
pub open spec fn post_answered(
    connection: ConnectionModel,
    before: StateModel,
    after: StateModel,
    effects: Option<Effects>,
    receipt: FanoutModel,
    frame: IncomingFrame,
    fresh: Seq<char>,
    now: Seq<char>,
) -> bool {
    exists|made: Post|
        {
            &&& #[trigger] framed_post(made, connection, frame, fresh, now)
            &&& if in_held_room(connection, before) {
                exists|delivery: Delivery|
                    {
                        &&& #[trigger] delivered_as(
                            before,
                            after,
                            delivery,
                            connection.joined_room->0,
                            connection.origin,
                            made,
                            opt_text(frame.last_seen),
                        )
                        &&& effects == delivery.effects
                        &&& receipt == reply(
                            connection,
                            receipt_json(
                                made.message_id@,
                                delivery.outcome.delivered,
                                delivery.outcome.missed@,
                                None,
                            ),
                        )
                        &&& reads_alike(
                            parsed(receipt.frame),
                            receipt_json(
                                made.message_id@,
                                delivery.outcome.delivered,
                                delivery.outcome.missed@,
                                None,
                            ),
                        )
                    }
            } else {
                &&& after == before
                &&& effects is None
                &&& receipt == reply(
                    connection,
                    receipt_json(
                        made.message_id@,
                        false,
                        Seq::empty(),
                        Some(no_room(connection.joined_room)),
                    ),
                )
                &&& reads_alike(
                    parsed(receipt.frame),
                    receipt_json(
                        made.message_id@,
                        false,
                        Seq::empty(),
                        Some(no_room(connection.joined_room)),
                    ),
                )
            }
        }
}

/// Whether a connection's next post fits the numbering of the floor it would go onto.
pub open spec fn may_post(connection: ConnectionModel, state: StateModel) -> bool {
    connection.joined_room is Some ==> may_speak(state, connection.joined_room->0)
}

/// A participant speaks, under an id and a stamp to use where the frame carries none.
pub fn post_as(
    connection: &Connection,
    state: &mut RoomState,
    frame: IncomingFrame,
    fresh: String,
    now: String,
) -> (res: (Option<Effects>, Fanout))
    requires
        old(state).wf(),
        may_post(connection@, old(state)@),
    ensures
        final(state).wf(),
        post_answered(
            connection@,
            old(state)@,
            final(state)@,
            res.0,
            res.1@,
            frame,
            fresh@,
            now@,
        ),
{
    let ghost given_id = fresh@;
    let ghost given_stamp = now@;
    let speaker = match borrowed(&connection.joined_as) {
        Some(name) => name.to_owned(),
        None => "session".to_owned(),
    };
    let message_id = match frame.message_id {
        Some(id) => id,
        None => fresh,
    };
    let content = match frame.content {
        Some(content) => content,
        None => String::new(),
    };
    let ts = match frame.ts {
        Some(ts) => ts,
        None => now,
    };
    let made = Post {
        message_id: message_id.clone(),
        speaker,
        hue: None,
        content,
        to: normalize_to(frame.to),
        ts,
    };
    proof {
        assert(framed_post(made, connection@, frame, given_id, given_stamp));
    }
    if let Some(room_id) = borrowed(&connection.joined_room) {
        match deliver(
            state,
            room_id,
            connection.origin.as_str(),
            made,
            borrowed(&frame.last_seen),
        ) {
            Ok(delivery) => {
                let ghost whole = delivery;
                let receipt = receipt_frame(
                    message_id.as_str(),
                    delivery.outcome.delivered,
                    &delivery.outcome.missed,
                    None,
                );
                let fanout = reply_with(connection, receipt);
                proof {
                    lemma_receipt_nests(
                        message_id@,
                        whole.outcome.delivered,
                        whole.outcome.missed@,
                        None,
                    );
                    assert(delivered_as(
                        old(state)@,
                        state@,
                        whole,
                        connection@.joined_room->0,
                        connection@.origin,
                        made,
                        opt_text(frame.last_seen),
                    ));
                }
                return (delivery.effects, fanout);
            },
            Err(_) => {},
        }
    }
    let error = no_room_text(borrowed(&connection.joined_room));
    let none: Vec<Missed> = Vec::new();
    let receipt = receipt_frame(message_id.as_str(), false, &none, Some(error.as_str()));
    proof {
        assert(none@ =~= Seq::<Missed>::empty());
        lemma_receipt_nests(message_id@, false, none@, Some(error@));
    }
    (None, reply_with(connection, receipt))
}

/// What comes of a post under an id of this run and a moment of the clock, where the frame
/// carries none of its own.
pub open spec fn post_answered_now(
    connection: ConnectionModel,
    before: StateModel,
    after: StateModel,
    effects: Option<Effects>,
    receipt: FanoutModel,
    frame: IncomingFrame,
) -> bool {
    exists|fresh: Seq<char>, stretch: Option<std::time::Duration>|
        is_hyphenated_id(fresh) && #[trigger] post_answered(
            connection,
            before,
            after,
            effects,
            receipt,
            frame,
            fresh,
            moment(stretch),
        )
}

/// A participant speaks, under a fresh id and the present moment where the frame carries
/// none of its own.
pub fn post(connection: &Connection, state: &mut RoomState, frame: IncomingFrame) -> (res: (
    Option<Effects>,
    Fanout,
))
    requires
        old(state).wf(),
        may_post(connection@, old(state)@),
    ensures
        final(state).wf(),
        post_answered_now(connection@, old(state)@, final(state)@, res.0, res.1@, frame),
{
    let fresh = fresh_id();
    let now = now_iso();
    let ghost id = fresh@;
    let ghost stretch = choose|stretch: Option<std::time::Duration>|
        now@ == #[trigger] moment(stretch);
    let res = post_as(connection, state, frame, fresh, now);
    assert(is_hyphenated_id(id));
    assert(post_answered(
        connection@,
        old(state)@,
        state@,
        res.0,
        res.1@,
        frame,
        id,
        moment(stretch),
    ));
    res
}

// ---------------------------------------------------------------------------
// Reading back
// ---------------------------------------------------------------------------

/// The topic whose posts a connection may read, or what it is told where there is none.
pub fn history_source(connection: &Connection, state: &RoomState) -> (res: Result<TopicRef, String>)
    requires
        state.wf(),
    ensures
        match res {
            Ok(topic) => in_held_room(connection@, state@) && topic@
                == state@.rooms[connection@.joined_room->0].topic,
            Err(message) => !in_held_room(connection@, state@) && message@ == no_room(
                connection@.joined_room,
            ),
        },
{
    if let Some(id) = borrowed(&connection.joined_room) {
        if let Some(topic) = state.topic_of(id) {
            return Ok(topic);
        }
    }
    Err(no_room_text(borrowed(&connection.joined_room)))
}

/// What a request for history is told, given the posts that were read or why they could not
/// be.
pub open spec fn history_told(frame: IncomingFrame, read: Result<Vec<LoggedPost>, String>) -> Json {
    let request_id = match frame.request_id {
        Some(id) => id@,
        None => Seq::empty(),
    };
    match read {
        Ok(posts) => history_json(
            request_id,
            logged_models(posts@),
            opt_text(frame.before),
            frame.limit,
        ),
        Err(error) => history_error_json(request_id, error@),
    }
}

/// What a request for history is answered.
pub open spec fn history_reply(
    connection: ConnectionModel,
    frame: IncomingFrame,
    read: Result<Vec<LoggedPost>, String>,
) -> FanoutModel {
    reply(connection, history_told(frame, read))
}

/// Answer a request for history.
pub fn history(
    connection: &Connection,
    frame: IncomingFrame,
    read: Result<Vec<LoggedPost>, String>,
) -> (fanout: Fanout)
    ensures
        fanout@ == history_reply(connection@, frame, read),
        parsed(fanout@.frame) == Reading::Says(history_told(frame, read)),
{
    let request_id = match frame.request_id {
        Some(id) => id,
        None => String::new(),
    };
    proof {
        if frame.request_id is None {
            assert(request_id@ =~= Seq::<char>::empty());
        }
    }
    proof {
        if read is Ok {
            lemma_history_readable(
                request_id@,
                logged_models(read->Ok_0@),
                opt_text(frame.before),
                frame.limit,
            );
        } else {
            lemma_history_error_readable(request_id@, read->Err_0@);
        }
    }
    let answer = match read {
        Ok(posts) => history_answer(
            request_id.as_str(),
            &posts,
            borrowed(&frame.before),
            frame.limit,
        ),
        Err(error) => history_error(request_id.as_str(), error.as_str()),
    };
    reply_with(connection, answer)
}

// ---------------------------------------------------------------------------
// Laws
// ---------------------------------------------------------------------------

/// A connection stays in the room it joined, whatever a later hello asks for.
pub proof fn law_a_connection_stays_in_its_room(
    room: Seq<char>,
    asked: Option<Seq<char>>,
    state: StateModel,
)
    ensures
        room_joined(Some(room), asked, state) == Some(room),
{
}

/// A reply reaches the connection it is for and no other, and a post reaches everybody in
/// its room but the one who said it.
pub proof fn law_frames_reach_whom_they_are_for(
    connection: ConnectionModel,
    other: ConnectionModel,
    json: Json,
    room: Seq<char>,
)
    requires
        other.origin != connection.origin,
    ensures
        is_for(reply(connection, json), connection),
        !is_for(reply(connection, json), other),
        !is_for(
            (FanoutModel {
                origin: connection.origin,
                room,
                target: None,
                frame: compact_text(json),
            }),
            connection,
        ),
        is_for(
            (FanoutModel {
                origin: connection.origin,
                room,
                target: None,
                frame: compact_text(json),
            }),
            other,
        ) <==> other.joined_room == Some(room),
{
}

/// A receipt that is read again says of its post what was written.
proof fn lemma_receipt_read(
    read: Json,
    message_id: Seq<char>,
    delivered: bool,
    missed: Seq<Missed>,
    error: Option<Seq<char>>,
)
    requires
        alike(receipt_json(message_id, delivered, missed, error), read),
    ensures
        says(read, "type"@, "post_result"@),
        says(read, "message_id"@, message_id),
        at(read, "delivered"@) == Some(Json::Bool(delivered)),
        says_if_any(read, "error"@, error),
        at(read, "missed"@) is Some,
        at(read, "missed"@)->0 is List,
        at(read, "missed"@)->0->List_0.len() == missed.len(),
        forall|i: int|
            #![trigger at(read, "missed"@)->0->List_0[i]]
            0 <= i < missed.len() ==> {
                let one = at(read, "missed"@)->0->List_0[i];
                &&& says(one, "message_id"@, missed[i].message_id@)
                &&& says(one, "speaker"@, missed[i].speaker@)
                &&& says(one, "content"@, missed[i].content@)
                &&& says(one, "ts"@, missed[i].ts@)
                &&& at(one, "to"@) == Some(
                    match missed[i].to {
                        Some(name) => Json::Text(name@),
                        None => Json::Null,
                    },
                )
            },
{
    let written = receipt_json(message_id, delivered, missed, error);
    law_a_receipt_says_what_became_of_a_post(message_id, delivered, missed, error);
    lemma_alike_parts(written, read);
    lemma_alike_parts(at(written, "type"@)->0, at(read, "type"@)->0);
    lemma_alike_parts(at(written, "message_id"@)->0, at(read, "message_id"@)->0);
    lemma_alike_parts(at(written, "delivered"@)->0, at(read, "delivered"@)->0);
    lemma_alike_parts(at(written, "missed"@)->0, at(read, "missed"@)->0);
    if error is Some {
        lemma_alike_parts(at(written, "error"@)->0, at(read, "error"@)->0);
    }
    let handed = at(written, "missed"@)->0->List_0;
    let list = at(read, "missed"@)->0->List_0;
    assert forall|i: int|
        #![trigger at(read, "missed"@)->0->List_0[i]]
        0 <= i < missed.len() implies {
        let one = at(read, "missed"@)->0->List_0[i];
        &&& says(one, "message_id"@, missed[i].message_id@)
        &&& says(one, "speaker"@, missed[i].speaker@)
        &&& says(one, "content"@, missed[i].content@)
        &&& says(one, "ts"@, missed[i].ts@)
        &&& at(one, "to"@) == Some(
            match missed[i].to {
                Some(name) => Json::Text(name@),
                None => Json::Null,
            },
        )
    } by {
        law_a_missed_post_is_handed_back_whole(missed[i]);
        assert(handed[i] == missed_json(missed[i]));
        lemma_alike_parts(handed[i], list[i]);
        lemma_alike_parts(at(handed[i], "message_id"@)->0, at(list[i], "message_id"@)->0);
        lemma_alike_parts(at(handed[i], "speaker"@)->0, at(list[i], "speaker"@)->0);
        lemma_alike_parts(at(handed[i], "content"@)->0, at(list[i], "content"@)->0);
        lemma_alike_parts(at(handed[i], "ts"@)->0, at(list[i], "ts"@)->0);
        lemma_alike_parts(at(handed[i], "to"@)->0, at(list[i], "to"@)->0);
    }
}

/// The id that a frame's post goes under: its own, or the fresh one where it carries none.
pub open spec fn id_on(frame: IncomingFrame, fresh: Seq<char>) -> Seq<char> {
    if frame.message_id is Some {
        frame.message_id->0@
    } else {
        fresh
    }
}

/// The watermark that a frame carries counts: a connection that names the newest post of its
/// room, where no two posts carry one id, is delivered whenever its seat was taken, and its
/// receipt, read again, says so and hands back nothing.
pub proof fn law_a_speaker_who_names_the_newest_post_is_heard(
    connection: ConnectionModel,
    before: StateModel,
    after: StateModel,
    effects: Option<Effects>,
    receipt: FanoutModel,
    frame: IncomingFrame,
    fresh: Seq<char>,
    now: Seq<char>,
    room_id: Seq<char>,
)
    requires
        before.wf(),
        connection.joined_room == Some(room_id),
        before.rooms.contains_key(room_id),
        before.rooms[room_id].floor.log.len() > 0,
        ids_distinct(before.rooms[room_id].floor.log),
        frame.last_seen is Some,
        frame.last_seen->0@ == before.rooms[room_id].floor.log.last().post.message_id@,
        post_answered(connection, before, after, effects, receipt, frame, fresh, now),
    ensures
        effects is Some,
        receipt.target == Some(connection.origin),
        parsed(receipt.frame) is Says,
        at(parsed(receipt.frame)->Says_0, "delivered"@) == Some(Json::Bool(true)),
        at(parsed(receipt.frame)->Says_0, "missed"@) == Some(Json::List(Seq::empty())),
        says(parsed(receipt.frame)->Says_0, "message_id"@, id_on(frame, fresh)),
{
    let made = choose|made: Post|
        {
            &&& #[trigger] framed_post(made, connection, frame, fresh, now)
            &&& exists|delivery: Delivery|
                {
                    &&& #[trigger] delivered_as(
                        before,
                        after,
                        delivery,
                        room_id,
                        connection.origin,
                        made,
                        opt_text(frame.last_seen),
                    )
                    &&& effects == delivery.effects
                    &&& reads_alike(
                        parsed(receipt.frame),
                        receipt_json(
                            made.message_id@,
                            delivery.outcome.delivered,
                            delivery.outcome.missed@,
                            None,
                        ),
                    )
                }
        };
    let delivery = choose|delivery: Delivery|
        {
            &&& #[trigger] delivered_as(
                before,
                after,
                delivery,
                room_id,
                connection.origin,
                made,
                opt_text(frame.last_seen),
            )
            &&& effects == delivery.effects
            &&& reads_alike(
                parsed(receipt.frame),
                receipt_json(
                    made.message_id@,
                    delivery.outcome.delivered,
                    delivery.outcome.missed@,
                    None,
                ),
            )
        };
    let room = before.rooms[room_id];
    let log = room.floor.log;
    let last = log.len() - 1;
    assert(room.wf());
    law_a_watermark_is_where_the_named_post_stands(
        room.floor,
        since_of(room, connection.origin),
        log[last].post.message_id@,
        last,
    );
    lemma_nothing_unseen(log, connection.origin, room.floor.seq);
    let read = parsed(receipt.frame)->Says_0;
    lemma_receipt_read(
        read,
        made.message_id@,
        delivery.outcome.delivered,
        delivery.outcome.missed@,
        None,
    );
    assert(at(read, "missed"@)->0->List_0 =~= Seq::empty());
}

/// A post is answered to its connection alone. It is delivered exactly where the connection
/// has read everything that the others have on the floor of its room, and the receipt, read
/// again, says whether it was. Delivered, it says what the frame says, under the name that
/// the connection joined with, and stands last on the floor. Refused, it changes nothing, and
/// every post that was missed is handed back in its order.
pub proof fn law_a_post_is_answered_with_what_became_of_it(
    connection: ConnectionModel,
    before: StateModel,
    after: StateModel,
    effects: Option<Effects>,
    receipt: FanoutModel,
    frame: IncomingFrame,
    fresh: Seq<char>,
    now: Seq<char>,
    room_id: Seq<char>,
    mark: nat,
)
    requires
        before.wf(),
        connection.joined_room == Some(room_id),
        before.rooms.contains_key(room_id),
        has_read_up_to(
            before.rooms[room_id],
            connection.origin,
            if frame.last_seen is Some {
                Some(frame.last_seen->0@)
            } else {
                None
            },
            mark,
        ),
        post_answered(connection, before, after, effects, receipt, frame, fresh, now),
    ensures
        ({
            let log = before.rooms[room_id].floor.log;
            let read = parsed(receipt.frame)->Says_0;
            let unread = log.filter(
                |place: Place| place.seq > mark && place.origin != connection.origin,
            );
            &&& receipt.target == Some(connection.origin)
            &&& parsed(receipt.frame) is Says
            &&& says(read, "type"@, "post_result"@)
            &&& says(read, "message_id"@, id_on(frame, fresh))
            &&& at(read, "error"@) is None
            &&& at(read, "delivered"@) == Some(Json::Bool(effects is Some))
            &&& at(read, "missed"@) is Some
            &&& at(read, "missed"@)->0 is List
            &&& effects is Some <==> forall|i: int|
                0 <= i < log.len() && (#[trigger] log[i]).origin != connection.origin ==> log[i].seq
                    <= mark
            &&& effects is Some ==> {
                let placed = after.rooms[room_id].floor.log.last();
                let said = effects->0.post;
                &&& at(read, "missed"@)->0->List_0.len() == 0
                &&& said.message_id@ == id_on(frame, fresh)
                &&& said.speaker@ == if connection.joined_as is Some {
                    connection.joined_as->0
                } else {
                    "session"@
                }
                &&& said.content@ == if frame.content is Some {
                    frame.content->0@
                } else {
                    Seq::empty()
                }
                &&& said.ts@ == if frame.ts is Some {
                    frame.ts->0@
                } else {
                    now
                }
                &&& opt_text(said.to) == given(opt_text(frame.to))
                &&& placed.post == said
                &&& placed.origin == connection.origin
                &&& effects->0.fanout.origin@ == connection.origin
                &&& effects->0.fanout.room@ == room_id
                &&& effects->0.fanout.target is None
                &&& effects->0.message.content@ == said.content@
                &&& effects->0.message.speaker@ == said.speaker@
                &&& effects->0.message.topic_id@ == room_id
            }
            &&& effects is None ==> {
                &&& after == before
                &&& at(read, "missed"@)->0->List_0.len() == unread.len()
                &&& forall|i: int|
                    #![trigger at(read, "missed"@)->0->List_0[i]]
                    0 <= i < unread.len() ==> {
                        let one = at(read, "missed"@)->0->List_0[i];
                        &&& says(one, "message_id"@, unread[i].post.message_id@)
                        &&& says(one, "speaker"@, unread[i].post.speaker@)
                        &&& says(one, "content"@, unread[i].post.content@)
                        &&& says(one, "ts"@, unread[i].post.ts@)
                        &&& at(one, "to"@) == Some(
                            match unread[i].post.to {
                                Some(name) => Json::Text(name@),
                                None => Json::Null,
                            },
                        )
                    }
            }
        }),
{
    let made = choose|made: Post|
        {
            &&& #[trigger] framed_post(made, connection, frame, fresh, now)
            &&& exists|delivery: Delivery|
                {
                    &&& #[trigger] delivered_as(
                        before,
                        after,
                        delivery,
                        room_id,
                        connection.origin,
                        made,
                        opt_text(frame.last_seen),
                    )
                    &&& effects == delivery.effects
                    &&& reads_alike(
                        parsed(receipt.frame),
                        receipt_json(
                            made.message_id@,
                            delivery.outcome.delivered,
                            delivery.outcome.missed@,
                            None,
                        ),
                    )
                }
        };
    let delivery = choose|delivery: Delivery|
        {
            &&& #[trigger] delivered_as(
                before,
                after,
                delivery,
                room_id,
                connection.origin,
                made,
                opt_text(frame.last_seen),
            )
            &&& effects == delivery.effects
            &&& reads_alike(
                parsed(receipt.frame),
                receipt_json(
                    made.message_id@,
                    delivery.outcome.delivered,
                    delivery.outcome.missed@,
                    None,
                ),
            )
        };
    let seen = opt_text(frame.last_seen);
    let origin = connection.origin;
    let read = parsed(receipt.frame)->Says_0;
    lemma_receipt_read(
        read,
        made.message_id@,
        delivery.outcome.delivered,
        delivery.outcome.missed@,
        None,
    );
    law_a_post_is_delivered_where_everything_was_read(
        before,
        after,
        delivery,
        room_id,
        origin,
        made,
        seen,
        mark,
    );
    if delivery.outcome.delivered {
        law_a_delivered_post_is_logged_sent_and_shown(
            before,
            after,
            delivery,
            room_id,
            origin,
            made,
            seen,
        );
    } else {
        law_a_refused_speaker_is_handed_what_they_missed(
            before,
            after,
            delivery,
            room_id,
            origin,
            made,
            seen,
            mark,
        );
    }
}

/// A post from a connection that is in no room this run holds is delivered to nobody and
/// changes nothing, and the connection is told why.
pub proof fn law_a_speaker_without_a_room_is_told_why(
    connection: ConnectionModel,
    before: StateModel,
    after: StateModel,
    effects: Option<Effects>,
    receipt: FanoutModel,
    frame: IncomingFrame,
    fresh: Seq<char>,
    now: Seq<char>,
)
    requires
        connection.joined_room is Some ==> !before.rooms.contains_key(connection.joined_room->0),
        post_answered(connection, before, after, effects, receipt, frame, fresh, now),
    ensures
        after == before,
        effects is None,
        receipt.target == Some(connection.origin),
        parsed(receipt.frame) is Says,
        says(parsed(receipt.frame)->Says_0, "message_id"@, id_on(frame, fresh)),
        at(parsed(receipt.frame)->Says_0, "delivered"@) == Some(Json::Bool(false)),
        says(
            parsed(receipt.frame)->Says_0,
            "error"@,
            if connection.joined_room is Some {
                "the topic this session was started in ("@ + connection.joined_room->0
                    + ") is no longer open in the app; it may have been deleted"@
            } else {
                "this session is not in a room: its hello named none this app holds"@
            },
        ),
{
    let made = choose|made: Post|
        {
            &&& #[trigger] framed_post(made, connection, frame, fresh, now)
            &&& reads_alike(
                parsed(receipt.frame),
                receipt_json(
                    made.message_id@,
                    false,
                    Seq::empty(),
                    Some(no_room(connection.joined_room)),
                ),
            )
        };
    lemma_receipt_read(
        parsed(receipt.frame)->Says_0,
        made.message_id@,
        false,
        Seq::empty(),
        Some(no_room(connection.joined_room)),
    );
}

/// A connection that says hello is seated in the room it joined before, and where it joined
/// none in the room it asks for, where that is held. It sits there under the name, the hue
/// and the account it declares; where it had no seat, it starts from the floor as it stands,
/// and where it had one, it keeps what it has read. Nobody else's seat changes, and no floor.
pub proof fn law_a_hello_takes_a_seat(
    before: ConnectionModel,
    after: ConnectionModel,
    state: StateModel,
    left: StateModel,
    frame: IncomingFrame,
    res: Hello,
    id: Seq<char>,
)
    requires
        welcomed(before, after, state, left, frame, res),
        state.rooms.contains_key(id),
        before.joined_room == Some(id) || (before.joined_room is None && frame.room is Some
            && trimmed(frame.room->0@) == id && id.len() > 0),
    ensures
        res.room is Some,
        res.room->0@ == id,
        after.origin == before.origin,
        after.joined_room == Some(id),
        ({
            let name = if frame.name is Some {
                frame.name->0@
            } else {
                "session"@
            };
            let seat = left.rooms[id].seats[before.origin];
            &&& res.name@ == name
            &&& after.joined_as == Some(name)
            &&& left.rooms.contains_key(id)
            &&& left.rooms[id].seats.contains_key(before.origin)
            &&& seat.declared.name == name
            &&& same_hue(seat.declared.hue, frame.hue)
            &&& seat.declared.account == given(opt_text(frame.account_id))
            &&& seat.since == if state.rooms[id].seats.contains_key(before.origin) {
                state.rooms[id].seats[before.origin].since
            } else {
                state.rooms[id].floor.seq
            }
        }),
        left.rooms[id].floor == state.rooms[id].floor,
        left.rooms[id].topic == state.rooms[id].topic,
        forall|other: Seq<char>|
            #![trigger left.rooms[id].seats.contains_key(other)]
            other != before.origin ==> left.rooms[id].seats.contains_key(other)
                == state.rooms[id].seats.contains_key(other) && (
            left.rooms[id].seats.contains_key(other) ==> left.rooms[id].seats[other]
                == state.rooms[id].seats[other]),
        forall|room: Seq<char>|
            #![trigger left.rooms[room]]
            room != id && state.rooms.contains_key(room) ==> left.rooms.contains_key(room)
                && left.rooms[room] == state.rooms[room],
        left.current == state.current,
        left.local == state.local,
{
}

/// A connection that joined no room and asks for none that is held is let into none, and
/// nothing changes.
pub proof fn law_a_hello_without_a_room_changes_nothing(
    before: ConnectionModel,
    after: ConnectionModel,
    state: StateModel,
    left: StateModel,
    frame: IncomingFrame,
    res: Hello,
)
    requires
        welcomed(before, after, state, left, frame, res),
        before.joined_room is None,
        frame.room is Some ==> !state.rooms.contains_key(trimmed(frame.room->0@)),
    ensures
        res.room is None,
        after == before,
        left == state,
{
}

/// A connection that ends gives up its seat in the room it joined, which is the room to tell
/// about, and nobody else does. One that never joined, or whose room is gone, changes
/// nothing.
pub proof fn law_a_connection_that_ends_gives_up_its_seat(
    connection: ConnectionModel,
    before: StateModel,
    after: StateModel,
    told: Option<Seq<char>>,
    id: Seq<char>,
    other: Seq<char>,
)
    requires
        left_room(connection, before, after, told),
        other != connection.origin,
    ensures
        told is Some ==> connection.joined_room == told,
        connection.joined_as is Some && connection.joined_room == Some(id)
            && before.rooms.contains_key(id) ==> {
            &&& told == Some(id)
            &&& after.rooms.contains_key(id)
            &&& !after.rooms[id].seats.contains_key(connection.origin)
            &&& after.rooms[id].seats.contains_key(other) == before.rooms[id].seats.contains_key(
                other,
            )
            &&& after.rooms[id].seats.contains_key(other) ==> after.rooms[id].seats[other]
                == before.rooms[id].seats[other]
            &&& after.rooms[id].floor == before.rooms[id].floor
            &&& after.rooms[id].topic == before.rooms[id].topic
        },
        connection.joined_room != Some(id) && before.rooms.contains_key(id) ==> after.rooms[id]
            == before.rooms[id],
        connection.joined_as is None || connection.joined_room is None ==> told is None && after
            == before,
        connection.joined_room == Some(id) && !before.rooms.contains_key(id) ==> told is None
            && after == before,
{
}

/// A connection that asks for history is answered alone, and the answer, read again, carries
/// the request's id and the newest posts of the log before the one that was named, each with
/// what was said, by whom, to whom, when and under which id.
pub proof fn law_history_hands_out_what_was_read(
    connection: Connection,
    frame: IncomingFrame,
    posts: Vec<LoggedPost>,
    fanout: Fanout,
    end: int,
)
    requires
        history.ensures((&connection, frame, Ok(posts)), fanout),
        0 <= end <= posts@.len(),
        match frame.before {
            None => end == posts@.len(),
            Some(id) => {
                &&& forall|i: int| 0 <= i < end ==> (#[trigger] posts@[i]).message_id@ != id@
                &&& end < posts@.len() ==> posts@[end].message_id@ == id@
            },
        },
    ensures
        ({
            let read = parsed(fanout.frame@)->Says_0;
            let asked: int = match frame.limit {
                None => 50,
                Some(limit) => if limit == 0 {
                    1
                } else if limit > 200 {
                    200
                } else {
                    limit as int
                },
            };
            let count: int = if end < asked {
                end
            } else {
                asked
            };
            &&& opt_text(fanout.target) == Some(connection.origin@)
            &&& parsed(fanout.frame@) is Says
            &&& says(read, "type"@, "history_result"@)
            &&& says(
                read,
                "request_id"@,
                if frame.request_id is Some {
                    frame.request_id->0@
                } else {
                    Seq::empty()
                },
            )
            &&& at(read, "posts"@) is Some
            &&& at(read, "posts"@)->0 is List
            &&& at(read, "posts"@)->0->List_0.len() == count
            &&& at(read, "has_more"@) == Some(Json::Bool(count < end))
            &&& forall|i: int|
                #![trigger at(read, "posts"@)->0->List_0[i]]
                0 <= i < count ==> {
                    let one = at(read, "posts"@)->0->List_0[i];
                    let post = posts@[end - count + i];
                    &&& says(one, "message_id"@, post.message_id@)
                    &&& says(one, "speaker"@, post.speaker@)
                    &&& says(one, "content"@, post.content@)
                    &&& says(one, "ts"@, post.ts@)
                    &&& says_if_any(one, "to"@, opt_text(post.to))
                }
        }),
{
    let models = logged_models(posts@);
    let before = opt_text(frame.before);
    if before is Some {
        assert forall|i: int| 0 <= i < end implies (#[trigger] models[i]).message_id
            != before->0 by {
            assert(posts@[i].message_id@ != before->0);
        }
    }
    assert(ends_before(models, before, end));
    let request_id = match frame.request_id {
        Some(id) => id@,
        None => Seq::empty(),
    };
    law_a_page_hands_out_the_newest_posts_before_its_end(
        request_id,
        models,
        before,
        frame.limit,
        end,
    );
}

/// A connection whose history cannot be read is told the request's id and why, alone.
pub proof fn law_history_that_cannot_be_read_says_why(
    connection: Connection,
    frame: IncomingFrame,
    error: String,
    fanout: Fanout,
)
    requires
        history.ensures((&connection, frame, Err(error)), fanout),
    ensures
        opt_text(fanout.target) == Some(connection.origin@),
        parsed(fanout.frame@) is Says,
        says(parsed(fanout.frame@)->Says_0, "type"@, "history_result"@),
        says(parsed(fanout.frame@)->Says_0, "error"@, error@),
        says(
            parsed(fanout.frame@)->Says_0,
            "request_id"@,
            if frame.request_id is Some {
                frame.request_id->0@
            } else {
                Seq::empty()
            },
        ),
{
    let request_id = match frame.request_id {
        Some(id) => id@,
        None => Seq::empty(),
    };
    law_an_unread_history_says_why(request_id, error@);
}

/// A connection gets in exactly with the token behind the word that announces it, and speaks
/// with this room only in the room's version. A connection that was let in has its id and is
/// in no room.
pub proof fn law_who_gets_in(
    header: Option<&str>,
    token: &str,
    allowed: bool,
    frame: IncomingFrame,
    speaks: bool,
    origin: String,
    accepted: Connection,
)
    requires
        authorized.ensures((header, token), allowed),
        speaks_protocol.ensures((&frame,), speaks),
        Connection::accept.ensures((origin,), accepted),
    ensures
        allowed <==> header is Some && header->0@.len() == 7 + token@.len()
            && header->0@.subrange(0, 7) == "Bearer "@ && header->0@.skip(7) == token@,
        speaks <==> frame.protocol == Some(7u32),
        accepted.origin@ == origin@,
        accepted.joined_room is None,
        accepted.joined_as is None,
{
    reveal_strlit("Bearer ");
    if let Some(value) = header {
        assert("Bearer "@.len() == 7);
        assert(value@ == "Bearer "@ + token@ ==> value@.subrange(0, 7) =~= "Bearer "@ && value@.skip(
            7,
        ) =~= token@);
        assert(value@.len() == 7 + token@.len() && value@.subrange(0, 7) == "Bearer "@
            && value@.skip(7) == token@ ==> value@ =~= "Bearer "@ + token@);
    }
}

/// What a frame asks for is what its kind says, and nothing for any other kind.
pub proof fn law_a_frame_asks_for_what_its_kind_says(frame: IncomingFrame, request: Request)
    requires
        request_of.ensures((&frame,), request),
    ensures
        request == Request::Hello <==> frame.kind@ == "hello"@,
        request == Request::Post <==> frame.kind@ == "post"@,
        request == Request::History <==> frame.kind@ == "history"@,
{
    reveal_strlit("hello");
    reveal_strlit("post");
    reveal_strlit("history");
    assert("hello"@.len() == 5 && "post"@.len() == 4 && "history"@.len() == 7);
}

/// A frame that names a target is for that connection alone; any other is for those who
/// joined its room, and not for its author.
pub proof fn law_a_frame_is_received_by_whom_it_is_for(
    fanout: Fanout,
    origin: &str,
    joined_room: Option<&str>,
    res: bool,
)
    requires
        receives.ensures((&fanout, origin, joined_room), res),
    ensures
        fanout.target is Some ==> (res <==> fanout.target->0@ == origin@),
        fanout.target is None ==> (res <==> fanout.origin@ != origin@ && joined_room is Some
            && joined_room->0@ == fanout.room@),
{
}

/// A connection reads the history of the topic of its own room, and of no other.
pub proof fn law_a_connection_reads_its_own_topic(
    connection: Connection,
    state: RoomState,
    res: Result<TopicRef, String>,
)
    requires
        history_source.ensures((&connection, &state), res),
    ensures
        res is Ok <==> connection.joined_room is Some && state@.rooms.contains_key(
            connection.joined_room->0@,
        ),
        res is Ok ==> res->Ok_0.topic_id@ == state@.rooms[connection.joined_room->0@].topic.topic_id,
        res is Ok ==> res->Ok_0.created_at@
            == state@.rooms[connection.joined_room->0@].topic.created_at,
        res is Err && connection.joined_room is Some ==> res->Err_0@
            == "the topic this session was started in ("@ + connection.joined_room->0@
            + ") is no longer open in the app; it may have been deleted"@,
        res is Err && connection.joined_room is None ==> res->Err_0@
            == "this session is not in a room: its hello named none this app holds"@,
{
}

/// A post that is delivered goes under the id and the moment that its frame carries; where it
/// carries none, under an id that this run minted and a moment that the clock gave.
pub proof fn law_a_post_without_an_id_is_given_one(
    connection: ConnectionModel,
    before: StateModel,
    after: StateModel,
    effects: Option<Effects>,
    receipt: FanoutModel,
    frame: IncomingFrame,
    room_id: Seq<char>,
    mark: nat,
)
    requires
        before.wf(),
        connection.joined_room == Some(room_id),
        before.rooms.contains_key(room_id),
        has_read_up_to(
            before.rooms[room_id],
            connection.origin,
            opt_text(frame.last_seen),
            mark,
        ),
        post_answered_now(connection, before, after, effects, receipt, frame),
        effects is Some,
    ensures
        frame.message_id is Some ==> effects->0.post.message_id@ == frame.message_id->0@,
        frame.message_id is None ==> is_hyphenated_id(effects->0.post.message_id@),
        frame.ts is Some ==> effects->0.post.ts@ == frame.ts->0@,
        frame.ts is None ==> exists|stretch: Option<std::time::Duration>|
            effects->0.post.ts@ == #[trigger] moment(stretch),
        frame.content is Some ==> effects->0.post.content@ == frame.content->0@,
{
    let (fresh, stretch) = choose|fresh: Seq<char>, stretch: Option<std::time::Duration>|
        is_hyphenated_id(fresh) && #[trigger] post_answered(
            connection,
            before,
            after,
            effects,
            receipt,
            frame,
            fresh,
            moment(stretch),
        );
    law_a_post_is_answered_with_what_became_of_it(
        connection,
        before,
        after,
        effects,
        receipt,
        frame,
        fresh,
        moment(stretch),
        room_id,
        mark,
    );
}

/// A connection whose room is gone is told of that room still, keeps the name it gives, and
/// sits nowhere.
pub proof fn law_a_hello_into_a_room_that_is_gone_seats_nobody(
    before: ConnectionModel,
    after: ConnectionModel,
    state: StateModel,
    left: StateModel,
    frame: IncomingFrame,
    res: Hello,
    id: Seq<char>,
)
    requires
        welcomed(before, after, state, left, frame, res),
        before.joined_room == Some(id),
        !state.rooms.contains_key(id),
    ensures
        left == state,
        res.room is Some && res.room->0@ == id,
        after.origin == before.origin,
        after.joined_room == Some(id),
        after.joined_as == Some(
            if frame.name is Some {
                frame.name->0@
            } else {
                "session"@
            },
        ),
{
}

/// Whoever posts through a connection, naming in the frame the newest post of the connection's
/// room, is delivered, where no two posts there carry one id: the room has the post last on
/// its floor, and the receipt, read again, says that it was delivered and hands back nothing.
pub proof fn law_a_post_that_names_the_newest_is_delivered(
    connection: Connection,
    state: &mut RoomState,
    frame: IncomingFrame,
    fresh: String,
    now: String,
    res: (Option<Effects>, Fanout),
    room_id: Seq<char>,
)
    requires
        post_as.ensures((&connection, state, frame, fresh, now), res),
        old(state)@.wf(),
        connection.joined_room is Some,
        connection.joined_room->0@ == room_id,
        old(state)@.rooms.contains_key(room_id),
        old(state)@.rooms[room_id].floor.log.len() > 0,
        ids_distinct(old(state)@.rooms[room_id].floor.log),
        frame.last_seen is Some,
        frame.last_seen->0@ == old(state)@.rooms[room_id].floor.log.last().post.message_id@,
    ensures
        res.0 is Some,
        res.1.target is Some && res.1.target->0@ == connection.origin@,
        parsed(res.1.frame@) is Says,
        at(parsed(res.1.frame@)->Says_0, "delivered"@) == Some(Json::Bool(true)),
        at(parsed(res.1.frame@)->Says_0, "missed"@) == Some(Json::List(Seq::empty())),
        says(
            parsed(res.1.frame@)->Says_0,
            "message_id"@,
            if frame.message_id is Some {
                frame.message_id->0@
            } else {
                fresh@
            },
        ),
        frame.content is Some ==> final(state)@.rooms[room_id].floor.log.last().post.content@
            == frame.content->0@,
        final(state)@.rooms[room_id].floor.log.last().origin == connection.origin@,
{
    law_a_speaker_who_names_the_newest_post_is_heard(
        connection@,
        old(state)@,
        final(state)@,
        res.0,
        res.1@,
        frame,
        fresh@,
        now@,
        room_id,
    );
    let log = old(state)@.rooms[room_id].floor.log;
    let last = log.len() - 1;
    assert(log[last].post.message_id@ == frame.last_seen->0@);
    assert forall|j: int| 0 <= j < last implies (#[trigger] log[j]).post.message_id@
        != frame.last_seen->0@ by {
        assert(log[j].post.message_id@ != log[last].post.message_id@);
    }
    law_a_post_is_answered_with_what_became_of_it(
        connection@,
        old(state)@,
        final(state)@,
        res.0,
        res.1@,
        frame,
        fresh@,
        now@,
        room_id,
        log[last].seq,
    );
}

/// What comes of a post is decided by the connection, the rooms and the frame as they are
/// given, and by the id and the stamp where the frame carries none.
pub proof fn law_a_post_is_answered_as_it_is_given(
    connection: Connection,
    state: &mut RoomState,
    frame: IncomingFrame,
    fresh: String,
    now: String,
    res: (Option<Effects>, Fanout),
)
    requires
        post_as.ensures((&connection, state, frame, fresh, now), res),
    ensures
        post_answered(
            connection@,
            old(state)@,
            final(state)@,
            res.0,
            res.1@,
            frame,
            fresh@,
            now@,
        ),
{
}

/// A post without an id and a stamp of its own is answered as one with some id of this run and
/// some moment of the clock.
pub proof fn law_a_post_is_answered_now_as_it_is_given(
    connection: Connection,
    state: &mut RoomState,
    frame: IncomingFrame,
    res: (Option<Effects>, Fanout),
)
    requires
        post.ensures((&connection, state, frame), res),
    ensures
        post_answered_now(connection@, old(state)@, final(state)@, res.0, res.1@, frame),
{
}

/// A hello and the end of a connection are decided by the connection and the rooms as they
/// are, and by the frame as it was sent.
pub proof fn law_coming_and_going(
    connection: &mut Connection,
    state: &mut RoomState,
    frame: IncomingFrame,
    res: Hello,
)
    requires
        hello.ensures((connection, state, frame), res),
    ensures
        welcomed(
            old(connection)@,
            final(connection)@,
            old(state)@,
            final(state)@,
            frame,
            res,
        ),
{
}

/// The end of a connection takes its seat in the room it joined, and tells of that room where
/// it is held.
pub proof fn law_going(connection: Connection, state: &mut RoomState, told: Option<String>)
    requires
        leave.ensures((&connection, state), told),
    ensures
        left_room(connection@, old(state)@, final(state)@, opt_text(told)),
        connection.joined_as is Some && connection.joined_room is Some
            && old(state)@.rooms.contains_key(connection.joined_room->0@) ==> {
            &&& told is Some
            &&& told->0@ == connection.joined_room->0@
            &&& !final(state)@.rooms[told->0@].seats.contains_key(connection.origin@)
        },
{
}

/// A connection is told by its fields.
pub proof fn law_a_connection_is_told_by_its_fields(connection: Connection)
    ensures
        connection@.origin == connection.origin@,
        connection@.joined_room == opt_text(connection.joined_room),
        connection@.joined_as == opt_text(connection.joined_as),
{
}

/// A new connection has an id that this run minted, and is in no room.
pub proof fn law_a_new_connection_is_nowhere(connection: Connection)
    requires
        Connection::new.ensures((), connection),
    ensures
        is_hyphenated_id(connection.origin@),
        connection.joined_room is None,
        connection.joined_as is None,
{
}

} // verus!
