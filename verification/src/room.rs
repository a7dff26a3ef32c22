//! The rooms of one run: who is seated in each, what was said there, and which one the
//! screen has open.

use vstd::prelude::*;
use vstd::string::*;

use crate::clock::{moment, now_iso};
use crate::floor::{missed_of, Admission, Floor, FloorModel, Missed, Post};
use crate::ids::{fresh_id, is_hyphenated_id};
use crate::json::{equal_numbers, number_text, same_number};
use crate::text::{
    borrowed, lemma_less_irreflexive, lemma_less_total, lemma_less_transitive, less, opt_str,
    opt_text, owned, same_text, text_less, texts,
};
use crate::text_map::TextMap;
use crate::topics::{no_such_topic, no_such_topic_text, TopicRef};

verus! {

/// The version of what is spoken on the room's socket.
pub const PROTOCOL_VERSION: u32 = 7;

/// One post as the screen is told of it.
#[derive(Debug)]
pub struct RoomMessage {
    pub topic_id: String,
    pub message_id: String,
    pub speaker: String,
    pub hue: Option<serde_json::Number>,
    pub content: String,
    pub to: Option<String>,
    pub ts: String,
    /// Whether the person at this screen said it.
    pub own: bool,
}

/// One participant of a room.
#[derive(Debug)]
pub struct Participant {
    pub id: String,
    pub name: String,
    pub hue: Option<serde_json::Number>,
    pub account: Option<String>,
    /// Whether this is the person at this screen.
    pub own: bool,
}

/// The participants of one room.
#[derive(Debug)]
pub struct Roster {
    pub topic_id: String,
    pub participants: Vec<Participant>,
}

/// What became of an attempt to speak.
#[derive(Debug)]
pub struct PostOutcome {
    pub delivered: bool,
    pub message_id: Option<String>,
    pub missed: Vec<Missed>,
}

/// A frame on its way to the participants.
#[derive(Debug)]
pub struct Fanout {
    /// The connection it came from.
    pub origin: String,
    /// The room it is for.
    pub room: String,
    /// The one connection it is for, or `None` when it is for the room.
    pub target: Option<String>,
    pub frame: String,
}

/// A seat of a room: what its holder declared, and the position it was taken at.
#[derive(Debug)]
pub struct Seat {
    name: String,
    hue: Option<serde_json::Number>,
    account: Option<String>,
    since: u64,
}

/// One room: its seats by connection, its floor, and its topic.
#[derive(Debug)]
pub struct Room {
    participants: TextMap<Seat>,
    floor: Floor,
    topic: TopicRef,
}

/// What the person at the screen declared about themselves.
#[derive(Debug)]
pub struct Declaration {
    name: String,
    hue: Option<serde_json::Number>,
    account: Option<String>,
}

/// Every room of this run.
#[derive(Debug)]
pub struct RoomState {
    port: Option<u16>,
    rooms: TextMap<Room>,
    current: String,
    local: Option<Declaration>,
    token: String,
    local_origin: String,
}

// ---------------------------------------------------------------------------
// The model
// ---------------------------------------------------------------------------

/// What a participant declared.
pub struct Declared {
    pub name: Seq<char>,
    pub hue: Option<serde_json::Number>,
    pub account: Option<Seq<char>>,
}

/// A seat: what its holder declared, and the position it was taken at.
pub struct SeatModel {
    pub declared: Declared,
    pub since: nat,
}

/// A topic, told by its id and when it was made.
pub struct RefModel {
    pub topic_id: Seq<char>,
    pub created_at: Seq<char>,
}

/// A room.
pub struct RoomModel {
    pub seats: Map<Seq<char>, SeatModel>,
    pub floor: FloorModel,
    pub topic: RefModel,
}

/// The rooms of one run.
pub struct StateModel {
    pub port: Option<u16>,
    pub rooms: Map<Seq<char>, RoomModel>,
    pub current: Seq<char>,
    pub local: Option<Declared>,
    pub token: Seq<char>,
    pub local_origin: Seq<char>,
}

impl View for TopicRef {
    type V = RefModel;

    open spec fn view(&self) -> RefModel {
        RefModel { topic_id: self.topic_id@, created_at: self.created_at@ }
    }
}

impl View for Declaration {
    type V = Declared;

    closed spec fn view(&self) -> Declared {
        Declared { name: self.name@, hue: self.hue, account: opt_text(self.account) }
    }
}

impl View for Seat {
    type V = SeatModel;

    closed spec fn view(&self) -> SeatModel {
        SeatModel {
            declared: Declared {
                name: self.name@,
                hue: self.hue,
                account: opt_text(self.account),
            },
            since: self.since as nat,
        }
    }
}

impl View for Room {
    type V = RoomModel;

    closed spec fn view(&self) -> RoomModel {
        RoomModel {
            seats: self.participants@.map_values(|seat: Seat| seat@),
            floor: self.floor@,
            topic: self.topic@,
        }
    }
}

impl View for RoomState {
    type V = StateModel;

    closed spec fn view(&self) -> StateModel {
        StateModel {
            port: self.port,
            rooms: self.rooms@.map_values(|room: Room| room@),
            current: self.current@,
            local: match self.local {
                Some(declared) => Some(declared@),
                None => None,
            },
            token: self.token@,
            local_origin: self.local_origin@,
        }
    }
}

/// A frame on its way, told by its texts.
pub struct FanoutModel {
    pub origin: Seq<char>,
    pub room: Seq<char>,
    pub target: Option<Seq<char>>,
    pub frame: Seq<char>,
}

impl View for Fanout {
    type V = FanoutModel;

    open spec fn view(&self) -> FanoutModel {
        FanoutModel {
            origin: self.origin@,
            room: self.room@,
            target: opt_text(self.target),
            frame: self.frame@,
        }
    }
}

/// A participant, told by their texts.
pub struct ParticipantModel {
    pub id: Seq<char>,
    pub declared: Declared,
    pub own: bool,
}

impl View for Participant {
    type V = ParticipantModel;

    open spec fn view(&self) -> ParticipantModel {
        ParticipantModel {
            id: self.id@,
            declared: Declared {
                name: self.name@,
                hue: self.hue,
                account: opt_text(self.account),
            },
            own: self.own,
        }
    }
}

/// Whether a text is the stamp of some moment.
pub open spec fn is_a_moment(text: Seq<char>) -> bool {
    exists|stretch: Option<std::time::Duration>| text == #[trigger] moment(stretch)
}

/// A room that nobody is in and nothing was said in.
pub open spec fn empty_room(topic: RefModel) -> RoomModel {
    RoomModel {
        seats: Map::empty(),
        floor: FloorModel {
            seq: 0,
            capacity: crate::floor::DEFAULT_CAPACITY as nat,
            log: Seq::empty(),
        },
        topic,
    }
}

/// Whether two hues are one.
pub open spec fn same_hue(a: Option<serde_json::Number>, b: Option<serde_json::Number>) -> bool {
    match (a, b) {
        (None, None) => true,
        (Some(a), Some(b)) => equal_numbers(number_text(a), number_text(b)),
        _ => false,
    }
}

/// Whether two declarations say the same.
pub open spec fn same_declared(a: Declared, b: Declared) -> bool {
    a.name == b.name && same_hue(a.hue, b.hue) && a.account == b.account
}

/// Whether a declaration changes anything in a room.
pub open spec fn seat_changes(room: RoomModel, origin: Seq<char>, declared: Declared) -> bool {
    !(room.seats.contains_key(origin) && same_declared(room.seats[origin].declared, declared))
}

/// A room with a connection seated under what it declares. A seat that is there keeps the
/// position it was taken at; a new one starts from the floor as it stands.
pub open spec fn with_seat(room: RoomModel, origin: Seq<char>, declared: Declared) -> RoomModel {
    if seat_changes(room, origin, declared) {
        RoomModel {
            seats: room.seats.insert(
                origin,
                SeatModel {
                    declared,
                    since: if room.seats.contains_key(origin) {
                        room.seats[origin].since
                    } else {
                        room.floor.seq
                    },
                },
            ),
            ..room
        }
    } else {
        room
    }
}

/// A room opened for a topic, with the person at the screen in it where they declared
/// themselves.
pub open spec fn opened_room(state: StateModel, topic: RefModel) -> RoomModel {
    match state.local {
        Some(person) => with_seat(empty_room(topic), state.local_origin, person),
        None => empty_room(topic),
    }
}

/// The rooms once a topic is opened on the screen: its room is held, and the others are as
/// they were.
pub open spec fn entered(state: StateModel, topic: RefModel) -> StateModel {
    StateModel {
        current: topic.topic_id,
        rooms: if state.rooms.contains_key(topic.topic_id) {
            state.rooms
        } else {
            state.rooms.insert(topic.topic_id, opened_room(state, topic))
        },
        ..state
    }
}

/// The rooms once one of them is taken away: where it was the one that is open, a fresh
/// topic is open in its place.
pub open spec fn without_room(state: StateModel, room_id: Seq<char>, fresh: RefModel) -> StateModel {
    let left = state.rooms.remove(room_id);
    if state.current == room_id {
        StateModel {
            current: fresh.topic_id,
            rooms: left.insert(fresh.topic_id, opened_room(state, fresh)),
            ..state
        }
    } else {
        StateModel { rooms: left, ..state }
    }
}

/// The rooms once a connection's seat in one of them is taken away.
pub open spec fn without_seat(state: StateModel, room_id: Seq<char>, origin: Seq<char>) -> StateModel {
    let room = state.rooms[room_id];
    if state.rooms.contains_key(room_id) {
        state.with_room(room_id, RoomModel { seats: room.seats.remove(origin), ..room })
    } else {
        state
    }
}

/// The rooms once the port they listen on is known.
pub open spec fn listening(state: StateModel, port: u16) -> StateModel {
    StateModel { port: Some(port), ..state }
}

/// What comes of seating a connection in a room.
pub open spec fn seat_taken(
    before: StateModel,
    after: StateModel,
    room_id: Seq<char>,
    origin: Seq<char>,
    declared: Declared,
    changed: bool,
) -> bool {
    let held = before.rooms.contains_key(room_id);
    let room = before.rooms[room_id];
    &&& changed == (held && seat_changes(room, origin, declared))
    &&& after == (if held {
        before.with_room(room_id, with_seat(room, origin, declared))
    } else {
        before
    })
}

/// What comes of opening a topic on the screen.
pub open spec fn topic_opened(
    before: StateModel,
    after: StateModel,
    topic: RefModel,
    seated: bool,
) -> bool {
    &&& seated == (!before.rooms.contains_key(topic.topic_id) && before.local is Some)
    &&& after == entered(before, topic)
}

/// What comes of taking a room away.
pub open spec fn room_taken(
    before: StateModel,
    after: StateModel,
    room_id: Seq<char>,
    fresh: RefModel,
    moved: Option<TopicRef>,
) -> bool {
    &&& moved is Some <==> before.current == room_id
    &&& moved is Some ==> moved->0@ == fresh
    &&& after == without_room(before, room_id, fresh)
}

/// What comes of opening a topic from the list.
pub open spec fn selection(
    before: StateModel,
    after: StateModel,
    topic_id: Seq<char>,
    created_at: Seq<char>,
    listed: bool,
    res: Result<bool, String>,
) -> bool {
    let held = before.rooms.contains_key(topic_id);
    let topic = if held {
        before.rooms[topic_id].topic
    } else {
        RefModel { topic_id, created_at }
    };
    match res {
        Ok(seated) => {
            &&& held || listed
            &&& after == entered(before, topic)
            &&& seated == (!before.rooms.contains_key(topic.topic_id) && before.local is Some)
        },
        Err(message) => {
            &&& !held && !listed
            &&& after == before
            &&& message@ == no_such_topic(topic_id)
        },
    }
}

impl RoomModel {
    /// The floor is well formed, and no seat was taken at a position that it has not
    /// reached.
    pub open spec fn wf(self) -> bool {
        &&& self.floor.wf()
        &&& forall|origin: Seq<char>| #[trigger]
            self.seats.contains_key(origin) ==> self.seats[origin].since <= self.floor.seq
    }
}

impl StateModel {
    /// The room that is open is held, and every room is well formed.
    pub open spec fn wf(self) -> bool {
        &&& self.rooms.contains_key(self.current)
        &&& forall|id: Seq<char>| #[trigger] self.rooms.contains_key(id) ==> self.rooms[id].wf()
    }

    /// The rooms with one of them changed.
    pub open spec fn with_room(self, room_id: Seq<char>, room: RoomModel) -> StateModel {
        StateModel { rooms: self.rooms.insert(room_id, room), ..self }
    }
}

// ---------------------------------------------------------------------------
// Seating
// ---------------------------------------------------------------------------

impl Room {
    closed spec fn wf(&self) -> bool {
        self.participants.wf() && self@.wf()
    }

    fn new(topic: TopicRef) -> (room: Self)
        ensures
            room.wf(),
            room@ == empty_room(topic@),
    {
        let room = Room { participants: TextMap::new(), floor: Floor::new(), topic };
        proof {
            assert(room@.seats =~= Map::<Seq<char>, SeatModel>::empty());
        }
        room
    }
}

fn hues_agree(a: &Option<serde_json::Number>, b: &Option<serde_json::Number>) -> (res: bool)
    ensures
        res == same_hue(*a, *b),
{
    match (a, b) {
        (None, None) => true,
        (Some(a), Some(b)) => same_number(a, b),
        _ => false,
    }
}

fn accounts_agree(a: Option<&str>, b: Option<&str>) -> (res: bool)
    ensures
        res == (opt_str(a) == opt_str(b)),
{
    match (a, b) {
        (None, None) => true,
        (Some(a), Some(b)) => same_text(a, b),
        _ => false,
    }
}

/// What a name, a hue and an account declare.
pub open spec fn declares(name: &str, hue: Option<serde_json::Number>, account: Option<&str>) -> Declared {
    Declared { name: name@, hue, account: opt_str(account) }
}

fn seat_in(
    room: &mut Room,
    origin: &str,
    name: &str,
    hue: &Option<serde_json::Number>,
    account: Option<&str>,
) -> (changed: bool)
    requires
        old(room).wf(),
    ensures
        final(room).wf(),
        final(room)@ == with_seat(old(room)@, origin@, declares(name, *hue, account)),
        changed == seat_changes(old(room)@, origin@, declares(name, *hue, account)),
{
    let ghost before = room@;
    let since: u64 = match room.participants.get(origin) {
        Some(seat) => {
            proof {
                assert(before.seats[origin@] == seat@);
            }
            if same_text(seat.name.as_str(), name) && hues_agree(&seat.hue, hue) && accounts_agree(
                borrowed(&seat.account),
                account,
            ) {
                return false;
            }
            seat.since
        },
        None => room.floor.seq(),
    };
    let seat = Seat { name: name.to_owned(), hue: hue.clone(), account: owned(account), since };
    let _ = room.participants.insert(origin.to_owned(), seat);
    proof {
        assert(room@.seats =~= before.seats.insert(origin@, seat@));
    }
    true
}

// ---------------------------------------------------------------------------
// The state
// ---------------------------------------------------------------------------

/// The order participants are listed in: by name, then by connection.
pub open spec fn listed_before(a: ParticipantModel, b: ParticipantModel) -> bool {
    text_less(a.declared.name, b.declared.name) || (a.declared.name == b.declared.name
        && text_less(a.id, b.id))
}

/// Whether participants stand in that order, none twice.
pub open spec fn in_order(list: Seq<ParticipantModel>) -> bool {
    forall|i: int, j: int|
        0 <= i < j < list.len() ==> listed_before(#[trigger] list[i], #[trigger] list[j])
}

/// A seat as a participant of its room.
pub open spec fn participant_of(state: StateModel, id: Seq<char>, seat: SeatModel) -> ParticipantModel {
    ParticipantModel { id, declared: seat.declared, own: id == state.local_origin }
}

/// Whether a participant is seated in a room that is held.
pub open spec fn is_participant(state: StateModel, room_id: Seq<char>, one: ParticipantModel) -> bool {
    &&& state.rooms.contains_key(room_id)
    &&& state.rooms[room_id].seats.contains_key(one.id)
    &&& one == participant_of(state, one.id, state.rooms[room_id].seats[one.id])
}

/// What a list of participants holds.
pub open spec fn participant_models(list: Seq<Participant>) -> Seq<ParticipantModel> {
    list.map_values(|one: Participant| one@)
}

proof fn lemma_listed_before(a: ParticipantModel, b: ParticipantModel)
    requires
        a.id != b.id,
    ensures
        listed_before(a, b) || listed_before(b, a),
{
    lemma_less_total(a.declared.name, b.declared.name);
    lemma_less_total(a.id, b.id);
}

proof fn lemma_listed_transitive(a: ParticipantModel, b: ParticipantModel, c: ParticipantModel)
    requires
        listed_before(a, b),
        listed_before(b, c),
    ensures
        listed_before(a, c),
{
    if text_less(a.declared.name, b.declared.name) && text_less(b.declared.name, c.declared.name) {
        lemma_less_transitive(a.declared.name, b.declared.name, c.declared.name);
    }
    if text_less(a.id, b.id) && text_less(b.id, c.id) {
        lemma_less_transitive(a.id, b.id, c.id);
    }
}

fn stands_before(a: &Participant, b: &Participant) -> (res: bool)
    ensures
        res == listed_before(a@, b@),
{
    less(a.name.as_str(), b.name.as_str()) || (same_text(a.name.as_str(), b.name.as_str()) && less(
        a.id.as_str(),
        b.id.as_str(),
    ))
}

/// Put a participant where they belong in an ordered list.
fn list_participant(list: &mut Vec<Participant>, one: Participant)
    requires
        in_order(participant_models(old(list)@)),
        forall|i: int| 0 <= i < old(list)@.len() ==> (#[trigger] old(list)@[i])@.id != one@.id,
    ensures
        in_order(participant_models(final(list)@)),
        forall|other: ParticipantModel| #[trigger]
            participant_models(final(list)@).contains(other) <==> other == one@
                || participant_models(old(list)@).contains(other),
{
    let ghost before = participant_models(list@);
    let ghost model = one@;
    let mut at: usize = list.len();
    while at > 0 && stands_before(&one, &list[at - 1])
        invariant
            at <= list@.len(),
            before == participant_models(list@),
            model == one@,
            forall|j: int| at <= j < before.len() ==> listed_before(model, #[trigger] before[j]),
        decreases at,
    {
        proof {
            assert(before[at - 1] == list@[at - 1]@);
        }
        at = at - 1;
    }
    list.insert(at, one);
    proof {
        let now = participant_models(list@);
        assert(now =~= before.insert(at as int, model));
        if at > 0 {
            assert(before[at - 1].id != model.id) by {
                assert(old(list)@[at - 1]@ == before[at - 1]);
            }
            lemma_listed_before(model, before[at - 1]);
        }
        assert forall|a: int, b: int| 0 <= a < b < now.len() implies listed_before(
            #[trigger] now[a],
            #[trigger] now[b],
        ) by {
            if b == at {
                assert(now[a] == before[a]);
                if a < at - 1 {
                    assert(listed_before(before[a], before[at - 1]));
                    lemma_listed_transitive(before[a], before[at - 1], model);
                }
            } else if a == at {
                assert(now[b] == before[b - 1]);
            } else {
                let c = if a < at {
                    a
                } else {
                    a - 1
                };
                let d = if b < at {
                    b
                } else {
                    b - 1
                };
                assert(now[a] == before[c]);
                assert(now[b] == before[d]);
                assert(listed_before(before[c], before[d]));
            }
        }
        assert forall|other: ParticipantModel| #[trigger] now.contains(other) <==> other == model
            || before.contains(other) by {
            if now.contains(other) {
                let k = now.index_of(other);
                assert(now[k] == other);
                if k < at {
                    assert(before[k] == other);
                } else if k > at {
                    assert(before[k - 1] == other);
                }
            }
            if before.contains(other) {
                let k = before.index_of(other);
                assert(before[k] == other);
                if k < at {
                    assert(now[k] == other);
                } else {
                    assert(now[k + 1] == other);
                }
            }
            if other == model {
                assert(now[at as int] == other);
            }
        }
    }
}

impl RoomState {
    /// Every room is well formed, and the one that is open is held.
    pub closed spec fn wf(&self) -> bool {
        &&& self.rooms.wf()
        &&& self@.wf()
        &&& forall|id: Seq<char>| #[trigger] self.rooms@.contains_key(id) ==> self.rooms@[id].wf()
    }

    /// The rooms of a run that opens with one topic.
    pub fn with_topic(topic: TopicRef, token: String, local_origin: String) -> (state: Self)
        ensures
            state.wf(),
            state@ == (StateModel {
                port: None,
                rooms: Map::empty().insert(topic.topic_id@, empty_room(topic@)),
                current: topic.topic_id@,
                local: None,
                token: token@,
                local_origin: local_origin@,
            }),
    {
        let current = topic.topic_id.clone();
        let mut rooms = TextMap::new();
        let room = Room::new(topic);
        let _ = rooms.insert(current.clone(), room);
        let state = RoomState { port: None, rooms, current, local: None, token, local_origin };
        proof {
            assert(state@.rooms =~= Map::empty().insert(topic.topic_id@, empty_room(topic@)));
        }
        state
    }

    /// The rooms of a new run: one topic that nothing was said in, under fresh ids.
    pub fn new() -> (state: Self)
        ensures
            state.wf(),
            state@.port is None,
            state@.local is None,
            is_hyphenated_id(state@.current),
            is_hyphenated_id(state@.token),
            is_hyphenated_id(state@.local_origin),
            exists|stretch: Option<std::time::Duration>|
                state@.rooms == Map::empty().insert(
                    state@.current,
                    empty_room(
                        (RefModel {
                            topic_id: state@.current,
                            created_at: #[trigger] moment(stretch),
                        }),
                    ),
                ),
    {
        let topic = TopicRef::new(now_iso());
        let ghost made = topic@;
        let state = RoomState::with_topic(topic, fresh_id(), fresh_id());
        proof {
            assert(made == RefModel { topic_id: state@.current, created_at: made.created_at });
        }
        state
    }

    /// The token a connection must present.
    pub fn token(&self) -> (token: String)
        ensures
            token@ == self@.token,
    {
        self.token.clone()
    }

    /// The connection that stands for the person at this screen.
    pub fn local_origin(&self) -> (origin: String)
        ensures
            origin@ == self@.local_origin,
    {
        self.local_origin.clone()
    }

    /// The port the room listens on, once it does.
    pub fn port(&self) -> (port: Option<u16>)
        ensures
            port == self@.port,
    {
        self.port
    }

    /// Note the port the room listens on.
    pub fn set_port(&mut self, port: u16)
        requires
            old(self).wf(),
        ensures
            final(self).wf(),
            final(self)@ == listening(old(self)@, port),
    {
        self.port = Some(port);
    }

    /// The participants of a room, by name and then by connection. None for a room that
    /// is not held.
    pub fn participants(&self, room_id: &str) -> (res: Vec<Participant>)
        requires
            self.wf(),
        ensures
            in_order(participant_models(res@)),
            forall|one: ParticipantModel| #[trigger]
                participant_models(res@).contains(one) <==> is_participant(self@, room_id@, one),
    {
        let mut res: Vec<Participant> = Vec::new();
        proof {
            assert(participant_models(res@) =~= Seq::<ParticipantModel>::empty());
        }
        let room = match self.rooms.get(room_id) {
            Some(room) => room,
            None => {
                return res;
            },
        };
        let ghost state = self@;
        let ghost seats = room@.seats;
        proof {
            assert(room.wf());
            room.participants.lemma_entries();
        }
        let mut i: usize = 0;
        while i < room.participants.len()
            invariant
                room.wf(),
                i <= room.participants.keys().len(),
                state == self@,
                seats == room@.seats,
                room.participants.keys().len() == room.participants.values().len(),
                in_order(participant_models(res@)),
                forall|one: ParticipantModel| #[trigger]
                    participant_models(res@).contains(one) <==> exists|j: int|
                        0 <= j < i && one == participant_of(
                            state,
                            #[trigger] room.participants.keys()[j],
                            room.participants.values()[j]@,
                        ),
            decreases room.participants.keys().len() - i,
        {
            let id: &str = room.participants.key_at(i);
            let seat = room.participants.value_at(i);
            let one = Participant {
                id: id.to_owned(),
                name: seat.name.clone(),
                hue: seat.hue.clone(),
                account: seat.account.clone(),
                own: same_text(id, self.local_origin.as_str()),
            };
            let ghost before = participant_models(res@);
            let ghost model = one@;
            let ghost keys = room.participants.keys();
            proof {
                assert(model == participant_of(state, keys[i as int], seat@));
                assert forall|k: int| 0 <= k < res@.len() implies (#[trigger] res@[k])@.id
                    != model.id by {
                    let other = res@[k]@;
                    assert(before[k] == other);
                    assert(before.contains(other));
                    let j = choose|j: int|
                        0 <= j < i && other == participant_of(
                            state,
                            #[trigger] keys[j],
                            room.participants.values()[j]@,
                        );
                    assert(text_less(keys[j], keys[i as int]));
                    lemma_less_irreflexive(keys[i as int]);
                }
            }
            list_participant(&mut res, one);
            proof {
                assert forall|other: ParticipantModel| #[trigger]
                    participant_models(res@).contains(other) <==> exists|j: int|
                        0 <= j < i + 1 && other == participant_of(
                            state,
                            #[trigger] keys[j],
                            room.participants.values()[j]@,
                        ) by {
                    if other == model {
                        assert(other == participant_of(
                            state,
                            keys[i as int],
                            room.participants.values()[i as int]@,
                        ));
                    } else if before.contains(other) {
                        let j = choose|j: int|
                            0 <= j < i && other == participant_of(
                                state,
                                #[trigger] keys[j],
                                room.participants.values()[j]@,
                            );
                        assert(0 <= j < i + 1 && other == participant_of(
                            state,
                            keys[j],
                            room.participants.values()[j]@,
                        ));
                    }
                }
            }
            i = i + 1;
        }
        proof {
            room.participants.lemma_entries();
            assert(state.rooms[room_id@] == room@);
            assert forall|one: ParticipantModel| #[trigger]
                participant_models(res@).contains(one) <==> is_participant(state, room_id@, one) by {
                let keys = room.participants.keys();
                if is_participant(state, room_id@, one) {
                    assert(room.participants@.contains_key(one.id));
                    let j = keys.index_of(one.id);
                    assert(keys.contains(one.id));
                    assert(keys[j] == one.id);
                    assert(room.participants@[one.id] == room.participants.values()[j]);
                    assert(one == participant_of(state, keys[j], room.participants.values()[j]@));
                }
                if participant_models(res@).contains(one) {
                    let j = choose|j: int|
                        0 <= j < i && one == participant_of(
                            state,
                            #[trigger] keys[j],
                            room.participants.values()[j]@,
                        );
                    assert(room.participants@.contains_key(keys[j]));
                    assert(room.participants@[keys[j]] == room.participants.values()[j]);
                }
            }
        }
        res
    }

    /// The participants of a room, with the topic they are in.
    pub fn roster(&self, room_id: &str) -> (roster: Roster)
        requires
            self.wf(),
        ensures
            roster.topic_id@ == room_id@,
            in_order(participant_models(roster.participants@)),
            forall|one: ParticipantModel| #[trigger]
                participant_models(roster.participants@).contains(one) <==> is_participant(
                    self@,
                    room_id@,
                    one,
                ),
    {
        Roster { topic_id: room_id.to_owned(), participants: self.participants(room_id) }
    }

    /// Seat a connection in a room under what it declares. Answers whether that changed
    /// anything.
    pub fn seat(
        &mut self,
        room_id: &str,
        origin: &str,
        name: &str,
        hue: Option<serde_json::Number>,
        account: Option<&str>,
    ) -> (changed: bool)
        requires
            old(self).wf(),
        ensures
            final(self).wf(),
            seat_taken(
                old(self)@,
                final(self)@,
                room_id@,
                origin@,
                declares(name, hue, account),
                changed,
            ),
    {
        let ghost before = *self;
        match self.rooms.get_mut(room_id) {
            Some(room) => {
                proof {
                    assert(room.wf());
                }
                let changed = seat_in(room, origin, name, &hue, account);
                proof {
                    assert(self@.rooms =~= before@.rooms.insert(
                        room_id@,
                        with_seat(before@.rooms[room_id@], origin@, declares(name, hue, account)),
                    ));
                }
                changed
            },
            None => false,
        }
    }

    /// Take a connection's seat in a room away.
    pub fn unseat(&mut self, room_id: &str, origin: &str)
        requires
            old(self).wf(),
        ensures
            final(self).wf(),
            final(self)@ == without_seat(old(self)@, room_id@, origin@),
    {
        let ghost before = *self;
        if let Some(room) = self.rooms.get_mut(room_id) {
            let ghost former = room@;
            let _ = room.participants.remove(origin);
            proof {
                assert(room@.seats =~= former.seats.remove(origin@));
                let now = RoomModel { seats: former.seats.remove(origin@), ..former };
                assert(self@.rooms =~= before@.rooms.insert(room_id@, now));
            }
        }
    }

    /// Whether a room is held.
    pub fn holds(&self, room_id: &str) -> (res: bool)
        requires
            self.wf(),
        ensures
            res == self@.rooms.contains_key(room_id@),
    {
        self.rooms.contains_key(room_id)
    }

    /// The topic of a room, where it is held.
    pub fn topic_of(&self, room_id: &str) -> (res: Option<TopicRef>)
        requires
            self.wf(),
        ensures
            match res {
                Some(topic) => self@.rooms.contains_key(room_id@) && topic@
                    == self@.rooms[room_id@].topic,
                None => !self@.rooms.contains_key(room_id@),
            },
    {
        match self.rooms.get(room_id) {
            Some(room) => Some(room.topic.copy()),
            None => None,
        }
    }

    /// The topic of the room that is open.
    pub fn topic(&self) -> (topic: TopicRef)
        requires
            self.wf(),
        ensures
            self@.rooms.contains_key(self@.current),
            topic@ == self@.rooms[self@.current].topic,
    {
        match self.rooms.get(self.current.as_str()) {
            Some(room) => room.topic.copy(),
            None => TopicRef { topic_id: String::new(), created_at: String::new() },
        }
    }

    fn open(&self, topic: TopicRef) -> (res: (Room, bool))
        ensures
            res.0.wf(),
            res.0@ == opened_room(self@, topic@),
            res.1 == (self@.local is Some),
    {
        let mut room = Room::new(topic);
        let mut seated: bool = false;
        if let Some(person) = &self.local {
            seated = seat_in(
                &mut room,
                self.local_origin.as_str(),
                person.name.as_str(),
                &person.hue,
                borrowed(&person.account),
            );
        }
        (room, seated)
    }

    /// Open a topic on the screen: its room is held from then on, and every other room
    /// stays as it was. Answers whether the person at the screen was seated by that.
    pub fn enter_topic(&mut self, topic: TopicRef) -> (seated: bool)
        requires
            old(self).wf(),
        ensures
            final(self).wf(),
            topic_opened(old(self)@, final(self)@, topic@, seated),
    {
        let ghost before = *self;
        let room_id = topic.topic_id.clone();
        let mut seated: bool = false;
        if !self.rooms.contains_key(room_id.as_str()) {
            let (room, own) = self.open(topic);
            seated = own;
            let _ = self.rooms.insert(room_id.clone(), room);
            proof {
                assert(self@.rooms =~= before@.rooms.insert(topic.topic_id@, room@));
            }
        }
        self.current = room_id;
        seated
    }

    /// Take a room away. When it is the one that is open, a fresh topic is opened in its
    /// place and handed back.
    pub fn remove_with(&mut self, room_id: &str, fresh: TopicRef) -> (moved: Option<TopicRef>)
        requires
            old(self).wf(),
        ensures
            final(self).wf(),
            room_taken(old(self)@, final(self)@, room_id@, fresh@, moved),
    {
        let ghost before = *self;
        let _ = self.rooms.remove(room_id);
        proof {
            assert(self@.rooms =~= before@.rooms.remove(room_id@));
        }
        if !same_text(self.current.as_str(), room_id) {
            return None;
        }
        let answer = fresh.copy();
        let id = fresh.topic_id.clone();
        let (room, _) = self.open(fresh);
        self.current = id.clone();
        let _ = self.rooms.insert(id, room);
        proof {
            assert(self@.rooms =~= before@.rooms.remove(room_id@).insert(
                fresh.topic_id@,
                opened_room(before@, fresh@),
            ));
        }
        Some(answer)
    }

    /// Take a room away. When it is the one that is open, a topic under a fresh id is
    /// opened in its place.
    pub fn remove(&mut self, room_id: &str) -> (moved: Option<TopicRef>)
        requires
            old(self).wf(),
        ensures
            final(self).wf(),
            moved is Some <==> old(self)@.current == room_id@,
            exists|fresh: RefModel|
                {
                    &&& is_hyphenated_id(fresh.topic_id)
                    &&& is_a_moment(fresh.created_at)
                    &&& final(self)@ == #[trigger] without_room(old(self)@, room_id@, fresh)
                    &&& moved is Some ==> moved->0@ == fresh
                },
    {
        let fresh = TopicRef::new(now_iso());
        assert(is_hyphenated_id(fresh@.topic_id));
        self.remove_with(room_id, fresh)
    }

    /// What the person at the screen declared besides their name.
    pub fn local_hue_and_account(&self) -> (res: (Option<serde_json::Number>, Option<String>))
        ensures
            match self@.local {
                Some(person) => res.0 == person.hue && opt_text(res.1) == person.account,
                None => res.0 is None && res.1 is None,
            },
    {
        match &self.local {
            Some(person) => (person.hue.clone(), person.account.clone()),
            None => (None, None),
        }
    }

    /// Seat the person at the screen, under what they declare, in every room. Answers the
    /// rooms in which that changed anything, in the order of their ids.
    pub fn declare_local(&mut self, name: &str, hue: Option<serde_json::Number>, account: Option<
        &str,
    >) -> (changed: Vec<String>)
        requires
            old(self).wf(),
        ensures
            final(self).wf(),
            ({
                let declared = declares(name, hue, account);
                &&& final(self)@ == declared_everywhere(old(self)@, declared)
                &&& crate::text::ascending(texts(changed@))
                &&& forall|id: Seq<char>| #[trigger]
                    texts(changed@).contains(id) <==> old(self)@.rooms.contains_key(id)
                        && seat_changes(old(self)@.rooms[id], old(self)@.local_origin, declared)
            }),
    {
        let ghost before = *self;
        let ghost declared = declares(name, hue, account);
        let ghost origin = self.local_origin@;
        self.local = Some(
            Declaration { name: name.to_owned(), hue: hue.clone(), account: owned(account) },
        );
        let own = self.local_origin.clone();
        let ghost keys = self.rooms.keys();
        let ghost former = self.rooms.values();
        let mut changed: Vec<String> = Vec::new();
        let mut i: usize = 0;
        proof {
            self.rooms.lemma_entries();
            assert(texts(changed@) =~= Seq::<Seq<char>>::empty());
        }
        while i < self.rooms.len()
            invariant
                i <= keys.len(),
                own@ == origin,
                declared == declares(name, hue, account),
                self.rooms.wf(),
                self.rooms.keys() == keys,
                self.rooms.values().len() == keys.len(),
                former.len() == keys.len(),
                self.port == before.port,
                self.current == before.current,
                self.token == before.token,
                self.local_origin == before.local_origin,
                self.local is Some && self.local->0@ == declared,
                forall|j: int| 0 <= j < keys.len() ==> (#[trigger] former[j]).wf(),
                forall|j: int| 0 <= j < keys.len() ==> (#[trigger] self.rooms.values()[j]).wf(),
                forall|j: int|
                    i <= j < keys.len() ==> #[trigger] self.rooms.values()[j] == former[j],
                forall|j: int|
                    0 <= j < i ==> (#[trigger] self.rooms.values()[j])@ == with_seat(
                        former[j]@,
                        origin,
                        declared,
                    ),
                crate::text::ascending(texts(changed@)),
                changed@.len() > 0 ==> i > 0 && (texts(changed@).last() == keys[i - 1]
                    || text_less(texts(changed@).last(), keys[i - 1])),
                forall|id: Seq<char>| #[trigger]
                    texts(changed@).contains(id) <==> exists|j: int|
                        0 <= j < i && #[trigger] keys[j] == id && seat_changes(
                            former[j]@,
                            origin,
                            declared,
                        ),
            decreases keys.len() - i,
        {
            let id: String = self.rooms.key_at(i).to_owned();
            let ghost listed = texts(changed@);
            let room = self.rooms.value_at_mut(i);
            proof {
                assert(*room == former[i as int]);
            }
            let moved = seat_in(room, own.as_str(), name, &hue, account);
            proof {
                self.rooms.lemma_entries();
                if listed.len() > 0 {
                    assert(text_less(keys[i - 1], keys[i as int]));
                    if listed.last() != keys[i - 1] {
                        lemma_less_transitive(listed.last(), keys[i - 1], keys[i as int]);
                    }
                }
            }
            if moved {
                changed.push(id);
                proof {
                    let now = texts(changed@);
                    assert(now =~= listed.push(keys[i as int]));
                    assert forall|a: int, b: int| 0 <= a < b < now.len() implies text_less(
                        #[trigger] now[a],
                        #[trigger] now[b],
                    ) by {
                        if b == listed.len() {
                            if a < listed.len() - 1 {
                                assert(text_less(listed[a], listed[listed.len() - 1]));
                                lemma_less_transitive(listed[a], listed.last(), keys[i as int]);
                            }
                        } else {
                            assert(text_less(listed[a], listed[b]));
                        }
                    }
                    assert forall|other: Seq<char>| #[trigger] now.contains(other) <==> exists|
                        j: int,
                    |
                        0 <= j < i + 1 && #[trigger] keys[j] == other && seat_changes(
                            former[j]@,
                            origin,
                            declared,
                        ) by {
                        if other == keys[i as int] {
                            assert(now[listed.len() as int] == other);
                        } else {
                            if now.contains(other) {
                                let k = now.index_of(other);
                                assert(listed[k] == other);
                                assert(listed.contains(other));
                            }
                            if listed.contains(other) {
                                let k = listed.index_of(other);
                                assert(now[k] == other);
                            }
                        }
                    }
                }
            } else {
                proof {
                    assert forall|other: Seq<char>| #[trigger] listed.contains(other) <==> exists|
                        j: int,
                    |
                        0 <= j < i + 1 && #[trigger] keys[j] == other && seat_changes(
                            former[j]@,
                            origin,
                            declared,
                        ) by {
                        assert(!seat_changes(former[i as int]@, origin, declared));
                    }
                }
            }
            i = i + 1;
        }
        proof {
            self.rooms.lemma_entries();
            before.rooms.lemma_entries();
            let now = declared_everywhere(before@, declared);
            assert forall|id: Seq<char>| #[trigger] self@.rooms.contains_key(id) implies self@.rooms[id]
                == now.rooms[id] && self.rooms@[id].wf() by {
                let j = keys.index_of(id);
                assert(self.rooms.keys().contains(id));
                assert(self.rooms.keys()[j] == id);
                assert(before.rooms.keys()[j] == id);
                assert(self.rooms@[id] == self.rooms.values()[j]);
                assert(before.rooms@[id] == former[j]);
            }
            assert(self@.rooms =~= now.rooms);
            assert forall|id: Seq<char>| #[trigger] texts(changed@).contains(id) <==> before@.rooms.contains_key(
                id,
            ) && seat_changes(before@.rooms[id], origin, declared) by {
                if before@.rooms.contains_key(id) {
                    let j = keys.index_of(id);
                    assert(before.rooms.keys().contains(id));
                    assert(before.rooms.keys()[j] == id);
                    assert(before.rooms@[id] == former[j]);
                }
                if texts(changed@).contains(id) {
                    let j = choose|j: int|
                        0 <= j < i && #[trigger] keys[j] == id && seat_changes(
                            former[j]@,
                            origin,
                            declared,
                        );
                    assert(before.rooms.keys()[j] == id);
                    assert(before.rooms@[id] == former[j]);
                }
            }
            assert(self@ == now);
        }
        changed
    }

    /// The hue a connection declared in a room, if it is seated there and declared one.
    pub fn hue_on(&self, room_id: &str, origin: &str) -> (res: Option<serde_json::Number>)
        requires
            self.wf(),
        ensures
            res == (if self@.rooms.contains_key(room_id@)
                && self@.rooms[room_id@].seats.contains_key(origin@) {
                self@.rooms[room_id@].seats[origin@].declared.hue
            } else {
                None
            }),
    {
        match self.rooms.get(room_id) {
            Some(room) => {
                proof {
                    assert(room.wf());
                }
                match room.participants.get(origin) {
                    Some(seat) => {
                        proof {
                            assert(room@.seats[origin@] == seat@);
                        }
                        seat.hue.clone()
                    },
                    None => None,
                }
            },
            None => None,
        }
    }

    /// Put a post on the floor of a room that is held, if its speaker has read everything
    /// there. A connection without a seat has read nothing unless it names a post.
    pub fn speak(
        &mut self,
        room_id: &str,
        origin: &str,
        last_seen: Option<&str>,
        post: Post,
    ) -> (res: Admission)
        requires
            old(self).wf(),
            old(self)@.rooms.contains_key(room_id@),
            old(self)@.rooms[room_id@].floor.seq < u64::MAX,
        ensures
            final(self).wf(),
            ({
                let room = old(self)@.rooms[room_id@];
                let since = if room.seats.contains_key(origin@) {
                    room.seats[origin@].since
                } else {
                    0
                };
                let unseen = room.floor.unseen(
                    origin@,
                    room.floor.mark(since, opt_str(last_seen)),
                );
                match res {
                    Admission::Unseen(missed) => {
                        &&& unseen.len() > 0
                        &&& missed@ == unseen.map_values(|post: Post| missed_of(post))
                        &&& final(self)@ == old(self)@
                    },
                    Admission::Admitted { seq } => {
                        &&& unseen.len() == 0
                        &&& seq == room.floor.seq + 1
                        &&& final(self)@ == old(self)@.with_room(
                            room_id@,
                            RoomModel { floor: room.floor.with(origin@, post), ..room },
                        )
                    },
                }
            }),
    {
        let ghost before = *self;
        match self.rooms.get_mut(room_id) {
            Some(room) => {
                let ghost former = *room;
                proof {
                    assert(room.wf());
                }
                let since: u64 = match room.participants.get(origin) {
                    Some(seat) => {
                        proof {
                            assert(former@.seats[origin@] == seat@);
                        }
                        seat.since
                    },
                    None => 0,
                };
                let res = room.floor.admit_post(origin, since, last_seen, post);
                proof {
                    assert(self@.rooms =~= before@.rooms.insert(room_id@, room@));
                    if res is Unseen {
                        assert(self@.rooms =~= before@.rooms);
                    }
                }
                res
            },
            None => Admission::Admitted { seq: 0 },
        }
    }

    /// Whether one more post fits the numbering of a room's floor.
    pub fn has_room_for_a_post(&self, room_id: &str) -> (res: bool)
        requires
            self.wf(),
        ensures
            res == (self@.rooms.contains_key(room_id@) ==> self@.rooms[room_id@].floor.seq
                < u64::MAX),
    {
        match self.rooms.get(room_id) {
            Some(room) => room.floor.seq() < u64::MAX,
            None => true,
        }
    }

    /// The name a connection is seated under, in the first room that seats it.
    pub fn name_on(&self, origin: &str) -> (res: Option<String>)
        requires
            self.wf(),
        ensures
            match res {
                Some(name) => exists|id: Seq<char>|
                    {
                        &&& #[trigger] self@.rooms.contains_key(id)
                        &&& self@.rooms[id].seats.contains_key(origin@)
                        &&& self@.rooms[id].seats[origin@].declared.name == name@
                        &&& forall|other: Seq<char>| #[trigger]
                            self@.rooms.contains_key(other) && text_less(other, id)
                                ==> !self@.rooms[other].seats.contains_key(origin@)
                    },
                None => forall|id: Seq<char>| #[trigger]
                    self@.rooms.contains_key(id) ==> !self@.rooms[id].seats.contains_key(origin@),
            },
    {
        let mut i: usize = 0;
        proof {
            self.rooms.lemma_entries();
        }
        let ghost keys = self.rooms.keys();
        while i < self.rooms.len()
            invariant
                self.wf(),
                i <= keys.len(),
                keys == self.rooms.keys(),
                self.rooms.keys().len() == self.rooms.values().len(),
                forall|j: int|
                    0 <= j < i ==> !(#[trigger] self.rooms.values()[j])@.seats.contains_key(origin@),
            decreases keys.len() - i,
        {
            let room = self.rooms.value_at(i);
            proof {
                self.rooms.lemma_entries();
                assert(self.rooms@[keys[i as int]] == *room);
                assert(self.rooms@.contains_key(keys[i as int]));
                assert(room.wf());
            }
            if let Some(seat) = room.participants.get(origin) {
                proof {
                    let id = keys[i as int];
                    assert(self@.rooms.contains_key(id));
                    assert(self@.rooms[id] == room@);
                    assert(room@.seats[origin@] == seat@);
                    assert forall|other: Seq<char>| #[trigger]
                        self@.rooms.contains_key(other) && text_less(other, id) implies !self@.rooms[other].seats.contains_key(
                    origin@) by {
                        let j = keys.index_of(other);
                        assert(keys.contains(other));
                        assert(keys[j] == other);
                        assert(self.rooms@[other] == self.rooms.values()[j]);
                        if j > i {
                            assert(text_less(keys[i as int], keys[j]));
                            lemma_less_transitive(id, other, id);
                        }
                        lemma_less_irreflexive(id);
                        assert(j < i);
                    }
                }
                return Some(seat.name.clone());
            }
            i = i + 1;
        }
        proof {
            self.rooms.lemma_entries();
            assert forall|id: Seq<char>| #[trigger] self@.rooms.contains_key(id) implies !self@.rooms[id].seats.contains_key(
            origin@) by {
                let j = keys.index_of(id);
                assert(keys.contains(id));
                assert(keys[j] == id);
                assert(self.rooms@[id] == self.rooms.values()[j]);
            }
        }
        None
    }
}

/// Open a topic that nothing was said in, under a fresh id.
pub fn new_topic(state: &mut RoomState) -> (res: (TopicRef, bool))
    requires
        old(state).wf(),
    ensures
        final(state).wf(),
        is_hyphenated_id(res.0.topic_id@),
        is_a_moment(res.0.created_at@),
        final(state)@ == entered(old(state)@, res.0@),
        res.1 == (!old(state)@.rooms.contains_key(res.0.topic_id@) && old(state)@.local is Some),
{
    let topic = TopicRef::new(now_iso());
    let answer = topic.copy();
    let seated = state.enter_topic(topic);
    (answer, seated)
}

/// Open a topic from the list: one whose room is held, or one that the index names.
/// Answers whether the person at the screen was seated by that.
pub fn select_topic(state: &mut RoomState, topic_id: &str, created_at: &str, exists: bool) -> (res:
    Result<bool, String>)
    requires
        old(state).wf(),
    ensures
        final(state).wf(),
        selection(old(state)@, final(state)@, topic_id@, created_at@, exists, res),
{
    let topic = match state.topic_of(topic_id) {
        Some(topic) => topic,
        None => {
            if !exists {
                return Err(no_such_topic_text(topic_id));
            }
            TopicRef { topic_id: topic_id.to_owned(), created_at: created_at.to_owned() }
        },
    };
    Ok(state.enter_topic(topic))
}

// ---------------------------------------------------------------------------
// Laws
// ---------------------------------------------------------------------------

/// In every state that the rooms can be in, the room that is open is held, every floor is
/// well formed, and no seat was taken ahead of its floor.
pub proof fn law_the_open_room_is_held(state: RoomState)
    requires
        state.wf(),
    ensures
        state@.wf(),
        state@.rooms.contains_key(state@.current),
{
}

/// Opening a topic leaves every room that is held as it was, and opens that topic's.
pub proof fn law_opening_a_topic_leaves_the_other_rooms(
    state: StateModel,
    topic: RefModel,
    other: Seq<char>,
)
    requires
        state.wf(),
    ensures
        entered(state, topic).wf(),
        entered(state, topic).current == topic.topic_id,
        state.rooms.contains_key(other) ==> entered(state, topic).rooms.contains_key(other)
            && entered(state, topic).rooms[other] == state.rooms[other],
{
}

/// Taking a room away leaves every other room as it was, and some room is open
/// afterwards.
pub proof fn law_taking_a_room_away_leaves_the_others(
    state: StateModel,
    room_id: Seq<char>,
    fresh: RefModel,
    other: Seq<char>,
)
    requires
        state.wf(),
        other != room_id,
        other != fresh.topic_id,
    ensures
        without_room(state, room_id, fresh).wf(),
        without_room(state, room_id, fresh).rooms.contains_key(other)
            == state.rooms.contains_key(other),
        state.rooms.contains_key(other) ==> without_room(state, room_id, fresh).rooms[other]
            == state.rooms[other],
        fresh.topic_id != room_id ==> !without_room(state, room_id, fresh).rooms.contains_key(
            room_id,
        ),
{
}

/// A participant who declares something else keeps the position their seat was taken at,
/// and declaring the same again changes nothing.
pub proof fn law_a_seat_keeps_its_position(
    room: RoomModel,
    origin: Seq<char>,
    first: Declared,
    second: Declared,
)
    requires
        room.wf(),
    ensures
        with_seat(room, origin, first).wf(),
        with_seat(with_seat(room, origin, first), origin, second).seats[origin].since == with_seat(
            room,
            origin,
            first,
        ).seats[origin].since,
        !seat_changes(with_seat(room, origin, first), origin, first),
        with_seat(with_seat(room, origin, first), origin, first) == with_seat(room, origin, first),
{
}

/// The rooms with the person at the screen seated in every one of them.
pub open spec fn declared_everywhere(state: StateModel, declared: Declared) -> StateModel {
    StateModel {
        local: Some(declared),
        rooms: state.rooms.map_values(
            |room: RoomModel| with_seat(room, state.local_origin, declared),
        ),
        ..state
    }
}

/// The list of a room has every seat of it and no other, each under its connection with what
/// its holder declared, and marked as the person at this screen's where it is; by name, and
/// by connection where names are the same; and so does the roster, under the room's id. A
/// room that is not held has nobody in it.
pub proof fn law_the_list_of_a_room_is_its_seats(
    state: RoomState,
    room_id: &str,
    list: Vec<Participant>,
    roster: Roster,
    i: int,
    j: int,
    origin: Seq<char>,
)
    requires
        RoomState::participants.ensures((&state, room_id), list),
        RoomState::roster.ensures((&state, room_id), roster),
    ensures
        ({
            let held = state@.rooms.contains_key(room_id@);
            let seats = state@.rooms[room_id@].seats;
            &&& 0 <= i < list@.len() ==> {
                &&& held
                &&& seats.contains_key(list@[i].id@)
                &&& list@[i].name@ == seats[list@[i].id@].declared.name
                &&& list@[i].hue == seats[list@[i].id@].declared.hue
                &&& opt_text(list@[i].account) == seats[list@[i].id@].declared.account
                &&& list@[i].own <==> list@[i].id@ == state@.local_origin
            }
            &&& held && seats.contains_key(origin) ==> exists|k: int|
                0 <= k < list@.len() && (#[trigger] list@[k]).id@ == origin
            &&& 0 <= i < j < list@.len() ==> text_less(list@[i].name@, list@[j].name@) || (
            list@[i].name@ == list@[j].name@ && text_less(list@[i].id@, list@[j].id@))
            &&& roster.topic_id@ == room_id@
            &&& 0 <= i < roster.participants@.len() ==> held && seats.contains_key(
                roster.participants@[i].id@,
            )
            &&& held && seats.contains_key(origin) ==> exists|k: int|
                0 <= k < roster.participants@.len() && (
                #[trigger] roster.participants@[k]).id@ == origin
        }),
{
    let models = participant_models(list@);
    let listed = participant_models(roster.participants@);
    assert(models.len() == list@.len());
    assert(listed.len() == roster.participants@.len());
    if 0 <= i < list@.len() {
        assert(models[i] == list@[i]@);
        assert(models.contains(models[i]));
        assert(is_participant(state@, room_id@, models[i]));
    }
    if 0 <= i < j < list@.len() {
        assert(models[j] == list@[j]@);
        assert(listed_before(models[i], models[j]));
    }
    if 0 <= i < roster.participants@.len() {
        assert(listed[i] == roster.participants@[i]@);
        assert(listed.contains(listed[i]));
        assert(is_participant(state@, room_id@, listed[i]));
    }
    if state@.rooms.contains_key(room_id@) && state@.rooms[room_id@].seats.contains_key(origin) {
        let one = participant_of(state@, origin, state@.rooms[room_id@].seats[origin]);
        assert(is_participant(state@, room_id@, one));
        assert(models.contains(one));
        let k = models.index_of(one);
        assert(models[k] == list@[k]@);
        assert(listed.contains(one));
        let n = listed.index_of(one);
        assert(listed[n] == roster.participants@[n]@);
    }
}

/// A connection that takes a seat in a room that is held sits there under what it declares,
/// from where it sat before or, where it did not, from the floor as it stands. That changed
/// something exactly where it did not sit there or declared something else. Nothing else
/// changes, and nothing at all for a room that is not held.
pub proof fn law_a_seat_is_taken_under_what_is_declared(
    before: StateModel,
    after: StateModel,
    room_id: Seq<char>,
    origin: Seq<char>,
    declared: Declared,
    changed: bool,
    other: Seq<char>,
    other_room: Seq<char>,
)
    requires
        seat_taken(before, after, room_id, origin, declared, changed),
        other != origin,
        other_room != room_id,
    ensures
        before.rooms.contains_key(room_id) ==> {
            let was = before.rooms[room_id];
            let now = after.rooms[room_id];
            let had = was.seats.contains_key(origin);
            let old_seat = was.seats[origin];
            &&& after.rooms.contains_key(room_id)
            &&& now.seats.contains_key(origin)
            &&& now.seats[origin].declared.name == declared.name
            &&& same_hue(now.seats[origin].declared.hue, declared.hue)
            &&& now.seats[origin].declared.account == declared.account
            &&& now.seats[origin].since == if had {
                old_seat.since
            } else {
                was.floor.seq
            }
            &&& changed <==> !had || old_seat.declared.name != declared.name || !same_hue(
                old_seat.declared.hue,
                declared.hue,
            ) || old_seat.declared.account != declared.account
            &&& now.floor == was.floor
            &&& now.topic == was.topic
            &&& now.seats.contains_key(other) == was.seats.contains_key(other)
            &&& now.seats.contains_key(other) ==> now.seats[other] == was.seats[other]
            &&& after.rooms.contains_key(other_room) == before.rooms.contains_key(other_room)
            &&& after.rooms.contains_key(other_room) ==> after.rooms[other_room]
                == before.rooms[other_room]
        },
        !before.rooms.contains_key(room_id) ==> !changed && after == before,
        after.current == before.current,
        after.local == before.local,
        after.port == before.port,
        after.token == before.token,
        after.local_origin == before.local_origin,
{
}

/// A hue is the same as another where both are absent, or both are there and are the same
/// number; the two zeros are one.
pub proof fn law_which_hues_are_the_same(a: Option<serde_json::Number>, b: Option<serde_json::Number>)
    ensures
        same_hue(a, b) ==> (a is Some <==> b is Some),
        a is None && b is None ==> same_hue(a, b),
        a is Some && b is Some && number_text(a->0) == number_text(b->0) ==> same_hue(a, b),
        a is Some && b is Some && same_hue(a, b) ==> number_text(a->0) == number_text(b->0) || ((
        number_text(a->0) == "0.0"@ || number_text(a->0) == "-0.0"@) && (number_text(b->0) == "0.0"@
            || number_text(b->0) == "-0.0"@)),
        same_hue(a, b) == same_hue(b, a),
{
}

/// A room that is opened for a topic holds nothing that was said and nobody but the person at
/// the screen, where they declared themselves: under what they declared, with nothing behind
/// them. A room that is held stays as it is. The topic is then the one that is open.
pub proof fn law_a_topic_that_is_opened_begins_empty(
    before: StateModel,
    after: StateModel,
    topic: RefModel,
    seated: bool,
    origin: Seq<char>,
)
    requires
        topic_opened(before, after, topic, seated),
    ensures
        after.current == topic.topic_id,
        after.rooms.contains_key(topic.topic_id),
        after.local == before.local,
        after.port == before.port,
        after.token == before.token,
        after.local_origin == before.local_origin,
        before.rooms.contains_key(topic.topic_id) ==> !seated && after.rooms == before.rooms,
        !before.rooms.contains_key(topic.topic_id) ==> {
            let room = after.rooms[topic.topic_id];
            &&& room.topic.topic_id == topic.topic_id
            &&& room.topic.created_at == topic.created_at
            &&& room.floor.log.len() == 0
            &&& room.floor.seq == 0
            &&& room.floor.capacity == 512
            &&& seated <==> before.local is Some
            &&& room.seats.contains_key(origin) <==> before.local is Some && origin
                == before.local_origin
            &&& room.seats.contains_key(origin) ==> room.seats[origin].declared == before.local->0
                && room.seats[origin].since == 0
        },
{
}

/// A room that is taken away is held no more. Where it was the one that is open, a fresh topic
/// is opened in its place, begins empty and is handed back; otherwise the same topic stays
/// open.
pub proof fn law_a_room_that_is_taken_away_is_gone(
    before: StateModel,
    after: StateModel,
    room_id: Seq<char>,
    fresh: RefModel,
    moved: Option<TopicRef>,
    origin: Seq<char>,
)
    requires
        room_taken(before, after, room_id, fresh, moved),
        fresh.topic_id != room_id,
    ensures
        !after.rooms.contains_key(room_id),
        after.local == before.local,
        after.port == before.port,
        before.current != room_id ==> moved is None && after.current == before.current,
        before.current == room_id ==> {
            let room = after.rooms[fresh.topic_id];
            &&& moved is Some
            &&& moved->0.topic_id@ == fresh.topic_id
            &&& moved->0.created_at@ == fresh.created_at
            &&& after.current == fresh.topic_id
            &&& after.rooms.contains_key(fresh.topic_id)
            &&& room.topic == fresh
            &&& room.floor.log.len() == 0
            &&& room.seats.contains_key(origin) <==> before.local is Some && origin
                == before.local_origin
        },
{
}

/// A topic is opened from the list exactly where its room is held or the index names it; a
/// room that is held is opened as it is, and one that is not is opened with the date of the
/// list.
pub proof fn law_which_topics_can_be_opened(
    before: StateModel,
    after: StateModel,
    topic_id: Seq<char>,
    created_at: Seq<char>,
    listed: bool,
    res: Result<bool, String>,
)
    requires
        selection(before, after, topic_id, created_at, listed, res),
    ensures
        res is Ok <==> before.rooms.contains_key(topic_id) || listed,
        res is Err ==> after == before,
        res is Err ==> res->Err_0@ == "トピック "@ + topic_id + " は見つかりません。"@,
        res is Ok && !before.rooms.contains_key(topic_id) ==> {
            &&& after.current == topic_id
            &&& after.rooms.contains_key(topic_id)
            &&& after.rooms[topic_id].topic.topic_id == topic_id
            &&& after.rooms[topic_id].topic.created_at == created_at
            &&& after.rooms[topic_id].floor.log.len() == 0
            &&& res->Ok_0 <==> before.local is Some
        },
        res is Ok && before.rooms.contains_key(topic_id) && before.rooms[topic_id].topic.topic_id
            == topic_id ==> {
            &&& after.current == topic_id
            &&& after.rooms == before.rooms
            &&& !res->Ok_0
        },
{
}

/// A run begins with one room, the one that is open: its topic's, with nobody in it and
/// nothing said in it; with the token and the connection it was given, no port, and nobody
/// declared at the screen.
pub proof fn law_a_run_begins_with_one_topic(
    topic: TopicRef,
    token: String,
    local_origin: String,
    state: RoomState,
    id: Seq<char>,
)
    requires
        RoomState::with_topic.ensures((topic, token, local_origin), state),
    ensures
        state@.port is None,
        state@.local is None,
        state@.current == topic.topic_id@,
        state@.token == token@,
        state@.local_origin == local_origin@,
        state@.rooms.contains_key(id) <==> id == topic.topic_id@,
        state@.rooms[topic.topic_id@].topic.topic_id == topic.topic_id@,
        state@.rooms[topic.topic_id@].topic.created_at == topic.created_at@,
        state@.rooms[topic.topic_id@].floor.log.len() == 0,
        state@.rooms[topic.topic_id@].floor.seq == 0,
        state@.rooms[topic.topic_id@].floor.capacity == 512,
        forall|origin: Seq<char>| !state@.rooms[topic.topic_id@].seats.contains_key(origin),
{
}

/// The state answers for its rooms: whether one is held, its topic, the topic of the one that
/// is open, the hue of a seat, and the name a connection sits under in the first room, by its
/// id, that it sits in.
pub proof fn law_the_state_answers_for_its_rooms(
    state: RoomState,
    room_id: &str,
    origin: &str,
    held: bool,
    topic: Option<TopicRef>,
    current: TopicRef,
    hue: Option<serde_json::Number>,
    name: Option<String>,
    token: String,
    own: String,
    port: Option<u16>,
)
    requires
        RoomState::holds.ensures((&state, room_id), held),
        RoomState::topic_of.ensures((&state, room_id), topic),
        RoomState::topic.ensures((&state,), current),
        RoomState::hue_on.ensures((&state, room_id, origin), hue),
        RoomState::name_on.ensures((&state, origin), name),
        RoomState::token.ensures((&state,), token),
        RoomState::local_origin.ensures((&state,), own),
        RoomState::port.ensures((&state,), port),
    ensures
        held <==> state@.rooms.contains_key(room_id@),
        topic is Some <==> held,
        topic is Some ==> topic->0.topic_id@ == state@.rooms[room_id@].topic.topic_id
            && topic->0.created_at@ == state@.rooms[room_id@].topic.created_at,
        current.topic_id@ == state@.rooms[state@.current].topic.topic_id,
        current.created_at@ == state@.rooms[state@.current].topic.created_at,
        held && state@.rooms[room_id@].seats.contains_key(origin@) ==> hue
            == state@.rooms[room_id@].seats[origin@].declared.hue,
        !held || !state@.rooms[room_id@].seats.contains_key(origin@) ==> hue is None,
        held && state@.rooms[room_id@].seats.contains_key(origin@) ==> name is Some,
        name is Some ==> exists|id: Seq<char>|
            {
                &&& #[trigger] state@.rooms.contains_key(id)
                &&& state@.rooms[id].seats.contains_key(origin@)
                &&& state@.rooms[id].seats[origin@].declared.name == name->0@
                &&& held && text_less(room_id@, id)
                    ==> !state@.rooms[room_id@].seats.contains_key(origin@)
            },
        token@ == state@.token,
        own@ == state@.local_origin,
        port == state@.port,
{
}

/// A frame, a participant and a topic are told by their fields.
pub proof fn law_what_is_sent_is_told_by_its_fields(
    fanout: Fanout,
    one: Participant,
    topic: TopicRef,
)
    ensures
        fanout@.origin == fanout.origin@,
        fanout@.room == fanout.room@,
        fanout@.target == opt_text(fanout.target),
        fanout@.frame == fanout.frame@,
        one@.id == one.id@,
        one@.declared.name == one.name@,
        one@.declared.hue == one.hue,
        one@.declared.account == opt_text(one.account),
        one@.own == one.own,
        topic@.topic_id == topic.topic_id@,
        topic@.created_at == topic.created_at@,
{
}

/// A seat that is taken away is that connection's in that room and no other, and a room that
/// is not held has none to take. A port that is noted changes nothing else.
pub proof fn law_a_seat_that_is_taken_away_is_one(
    state: StateModel,
    room_id: Seq<char>,
    origin: Seq<char>,
    other: Seq<char>,
    other_room: Seq<char>,
    port: u16,
)
    requires
        other != origin,
        other_room != room_id,
    ensures
        ({
            let after = without_seat(state, room_id, origin);
            let was = state.rooms[room_id];
            let now = after.rooms[room_id];
            &&& !state.rooms.contains_key(room_id) ==> after == state
            &&& state.rooms.contains_key(room_id) ==> {
                &&& after.rooms.contains_key(room_id)
                &&& !now.seats.contains_key(origin)
                &&& now.seats.contains_key(other) == was.seats.contains_key(other)
                &&& now.seats.contains_key(other) ==> now.seats[other] == was.seats[other]
                &&& now.floor == was.floor
                &&& now.topic == was.topic
            }
            &&& after.rooms.contains_key(other_room) == state.rooms.contains_key(other_room)
            &&& state.rooms.contains_key(other_room) ==> after.rooms[other_room]
                == state.rooms[other_room]
            &&& after.current == state.current
        }),
        listening(state, port).port == Some(port),
        listening(state, port).rooms == state.rooms,
        listening(state, port).current == state.current,
        listening(state, port).local == state.local,
        listening(state, port).token == state.token,
        listening(state, port).local_origin == state.local_origin,
{
}

/// What the person at the screen declared besides their name is kept for the next time they
/// speak, and a floor takes one more post unless its numbering is at its end.
pub proof fn law_what_is_kept_of_the_person_at_the_screen(
    state: RoomState,
    res: (Option<serde_json::Number>, Option<String>),
    room_id: &str,
    fits: bool,
)
    requires
        RoomState::local_hue_and_account.ensures((&state,), res),
        RoomState::has_room_for_a_post.ensures((&state, room_id), fits),
    ensures
        state@.local is Some ==> res.0 == state@.local->0.hue && opt_text(res.1)
            == state@.local->0.account,
        state@.local is None ==> res.0 is None && res.1 is None,
        !fits <==> state@.rooms.contains_key(room_id@) && state@.rooms[room_id@].floor.seq
            >= 0xffff_ffff_ffff_ffff,
{
}

/// A connection is seated in the room, under the connection and with the name, the hue and the
/// account that are given.
pub proof fn law_a_seat_is_taken_as_it_is_given(
    state: &mut RoomState,
    room_id: &str,
    origin: &str,
    name: &str,
    hue: Option<serde_json::Number>,
    account: Option<&str>,
    changed: bool,
)
    requires
        RoomState::seat.ensures((state, room_id, origin, name, hue, account), changed),
    ensures
        seat_taken(
            old(state)@,
            final(state)@,
            room_id@,
            origin@,
            Declared { name: name@, hue, account: opt_str(account) },
            changed,
        ),
{
}

/// The person at the screen is seated in every room with the name, the hue and the account
/// that are given, and the rooms where that changed anything are told.
pub proof fn law_the_person_at_the_screen_is_declared_as_given(
    state: &mut RoomState,
    name: &str,
    hue: Option<serde_json::Number>,
    account: Option<&str>,
    changed: Vec<String>,
    id: Seq<char>,
)
    requires
        RoomState::declare_local.ensures((state, name, hue, account), changed),
    ensures
        final(state)@ == declared_everywhere(
            old(state)@,
            Declared { name: name@, hue, account: opt_str(account) },
        ),
        texts(changed@).contains(id) <==> old(state)@.rooms.contains_key(id) && seat_changes(
            old(state)@.rooms[id],
            old(state)@.local_origin,
            Declared { name: name@, hue, account: opt_str(account) },
        ),
{
}

/// A seat is taken away from the connection in the room that are given, and the port that is
/// noted is the one that is given.
pub proof fn law_a_seat_is_taken_away_as_it_is_given(
    state: &mut RoomState,
    room_id: &str,
    origin: &str,
)
    requires
        RoomState::unseat.ensures((state, room_id, origin), ()),
    ensures
        final(state)@ == without_seat(old(state)@, room_id@, origin@),
{
}

/// The port that is noted is the one that is given, and nothing else changes.
pub proof fn law_the_port_is_noted(state: &mut RoomState, port: u16)
    requires
        RoomState::set_port.ensures((state, port), ()),
    ensures
        final(state)@.port == Some(port),
        final(state)@.rooms == old(state)@.rooms,
        final(state)@.current == old(state)@.current,
        final(state)@.local == old(state)@.local,
        final(state)@.token == old(state)@.token,
        final(state)@.local_origin == old(state)@.local_origin,
{
}

/// The topic that is opened on the screen is the one that is given.
pub proof fn law_a_topic_is_opened_as_it_is_given(state: &mut RoomState, topic: TopicRef, seated: bool)
    requires
        RoomState::enter_topic.ensures((state, topic), seated),
    ensures
        topic_opened(
            old(state)@,
            final(state)@,
            RefModel { topic_id: topic.topic_id@, created_at: topic.created_at@ },
            seated,
        ),
{
}

/// The room that is taken away is the one that is given, and where it was open the topic that
/// is given stands in its place.
pub proof fn law_a_room_is_taken_away_as_it_is_given(
    state: &mut RoomState,
    room_id: &str,
    fresh: TopicRef,
    moved: Option<TopicRef>,
)
    requires
        RoomState::remove_with.ensures((state, room_id, fresh), moved),
    ensures
        room_taken(
            old(state)@,
            final(state)@,
            room_id@,
            RefModel { topic_id: fresh.topic_id@, created_at: fresh.created_at@ },
            moved,
        ),
{
}

/// Where the room that is open is taken away, the topic that stands in its place is one that
/// this run minted, at a moment of the clock; another room goes without one.
pub proof fn law_a_minted_topic_stands_in_for_the_open_one(
    state: &mut RoomState,
    room_id: &str,
    moved: Option<TopicRef>,
)
    requires
        RoomState::remove.ensures((state, room_id), moved),
        !is_hyphenated_id(room_id@),
    ensures
        moved is Some <==> old(state)@.current == room_id@,
        !final(state)@.rooms.contains_key(room_id@),
        moved is Some ==> {
            &&& is_hyphenated_id(moved->0.topic_id@)
            &&& is_a_moment(moved->0.created_at@)
            &&& final(state)@.current == moved->0.topic_id@
            &&& final(state)@.rooms[moved->0.topic_id@].floor.log.len() == 0
        },
        moved is None ==> final(state)@.current == old(state)@.current,
{
}

/// A new topic is one that this run minted, at a moment of the clock, and it is the one that
/// is open then.
pub proof fn law_a_new_topic_is_open(state: &mut RoomState, res: (TopicRef, bool))
    requires
        new_topic.ensures((state,), res),
    ensures
        is_hyphenated_id(res.0.topic_id@),
        is_a_moment(res.0.created_at@),
        final(state)@.current == res.0.topic_id@,
        final(state)@.rooms.contains_key(res.0.topic_id@),
        topic_opened(
            old(state)@,
            final(state)@,
            RefModel { topic_id: res.0.topic_id@, created_at: res.0.created_at@ },
            res.1,
        ),
{
}

/// The topic that is opened from the list is the one that is named, with the date of the list
/// where it is not held.
pub proof fn law_a_topic_is_selected_as_it_is_given(
    state: &mut RoomState,
    topic_id: &str,
    created_at: &str,
    listed: bool,
    res: Result<bool, String>,
)
    requires
        select_topic.ensures((state, topic_id, created_at, listed), res),
    ensures
        selection(old(state)@, final(state)@, topic_id@, created_at@, listed, res),
{
}

/// A new run has a token, a connection of its own and one topic, each under an id that it
/// minted; nobody is in its room, nothing was said there, and it does not listen yet.
pub proof fn law_a_new_run_is_minted(state: RoomState, id: Seq<char>)
    requires
        RoomState::new.ensures((), state),
    ensures
        state@.port is None,
        state@.local is None,
        is_hyphenated_id(state@.token),
        is_hyphenated_id(state@.local_origin),
        is_hyphenated_id(state@.current),
        state@.rooms.contains_key(id) <==> id == state@.current,
        state@.rooms[state@.current].topic.topic_id == state@.current,
        is_a_moment(state@.rooms[state@.current].topic.created_at),
        state@.rooms[state@.current].floor.log.len() == 0,
        state@.rooms[state@.current].seats.dom() == Set::<Seq<char>>::empty(),
{
    assert(state@.rooms[state@.current].seats.dom() =~= Set::<Seq<char>>::empty());
}

} // verus!
