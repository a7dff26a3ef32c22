//! Which seat each account is holding, in which room: one account, one seat per room.

use vstd::prelude::*;
use vstd::string::*;

use crate::text::{ascending, holds_text, text_less, texts};
use crate::text_map::TextMap;

verus! {

/// What is running under a held seat.
#[derive(Debug, Clone)]
pub struct RunningSession {
    pub pty_id: String,
    /// When the session was spawned.
    pub started_at: String,
    /// The command this session was launched from.
    pub command: String,
    /// The working directory it was launched in.
    pub cwd: String,
    /// The topic this session was started into.
    pub topic_id: String,
    /// The session id this launch went back into, or `None` when it started fresh.
    pub resumed_from: Option<String>,
}

/// One account's seat, as the screen reads it.
#[derive(Debug, Clone)]
pub struct SeatedAccount {
    pub account_id: String,
    /// The topic the seat is in.
    pub topic_id: String,
    /// What is running under the seat, or `None` while a launch is in flight.
    pub session: Option<RunningSession>,
}

/// One account's seat, from the launch being decided to the session ending.
#[derive(Debug)]
pub enum Seat {
    /// A launch is in flight.
    Starting,
    /// A session is running.
    Running(RunningSession),
}

/// The seats of every room, by topic and then by account.
#[derive(Debug)]
pub struct RoomSeats {
    rooms: TextMap<TextMap<Seat>>,
}

// ---------------------------------------------------------------------------
// The model
// ---------------------------------------------------------------------------

/// Whether a seat is still held: its launch is in flight, or its session runs.
pub open spec fn is_live(seat: Seat, running: Seq<Seq<char>>) -> bool {
    match seat {
        Seat::Starting => true,
        Seat::Running(session) => running.contains(session.pty_id@),
    }
}

/// What runs under a seat.
pub open spec fn session_under(seat: Seat) -> Option<RunningSession> {
    match seat {
        Seat::Starting => None,
        Seat::Running(session) => Some(session),
    }
}

/// A seat as it is listed.
pub struct Listed {
    pub topic_id: Seq<char>,
    pub account_id: Seq<char>,
    pub session: Option<RunningSession>,
}

impl View for SeatedAccount {
    type V = Listed;

    open spec fn view(&self) -> Listed {
        Listed {
            topic_id: self.topic_id@,
            account_id: self.account_id@,
            session: self.session,
        }
    }
}

/// The seats of one room as they are listed, by account.
pub open spec fn room_listing(topic: Seq<char>, accounts: Seq<Seq<char>>, seats: Seq<Seat>) -> Seq<
    Listed,
> {
    Seq::new(
        accounts.len(),
        |i: int|
            Listed {
                topic_id: topic,
                account_id: accounts[i],
                session: session_under(seats[i]),
            },
    )
}

/// The seats of some rooms as they are listed, by topic and then by account.
pub open spec fn listing(topics: Seq<Seq<char>>, rooms: Seq<TextMap<Seat>>) -> Seq<Listed>
    decreases topics.len(),
{
    if topics.len() == 0 {
        Seq::empty()
    } else {
        let room = rooms[topics.len() - 1];
        listing(topics.drop_last(), rooms) + room_listing(
            topics.last(),
            room.keys(),
            room.values(),
        )
    }
}

/// The PTYs of the sessions among some seats.
pub open spec fn ptys_of(seats: Seq<Seat>) -> Seq<Seq<char>>
    decreases seats.len(),
{
    if seats.len() == 0 {
        Seq::empty()
    } else {
        match seats.last() {
            Seat::Starting => ptys_of(seats.drop_last()),
            Seat::Running(session) => ptys_of(seats.drop_last()).push(session.pty_id@),
        }
    }
}

impl RoomSeats {
    /// The topics that have held a seat, in ascending order.
    pub closed spec fn topics(&self) -> Seq<Seq<char>> {
        self.rooms.keys()
    }

    /// The seats of each of those topics, by account.
    pub closed spec fn rooms(&self) -> Seq<TextMap<Seat>> {
        self.rooms.values()
    }

    /// The seats of one topic, by account.
    pub closed spec fn room(&self, topic: Seq<char>) -> Option<TextMap<Seat>> {
        if self.rooms@.contains_key(topic) {
            Some(self.rooms@[topic])
        } else {
            None
        }
    }

    /// The seat of an account in a topic.
    pub open spec fn held(&self, topic: Seq<char>, account: Seq<char>) -> Option<Seat> {
        match self.room(topic) {
            Some(room) => if room@.contains_key(account) {
                Some(room@[account])
            } else {
                None
            },
            None => None,
        }
    }

    /// Every topic stands once, and every account once in it.
    pub closed spec fn wf(&self) -> bool {
        &&& self.rooms.wf()
        &&& forall|i: int| 0 <= i < self.rooms.keys().len() ==> (#[trigger] self.rooms.values()[i]).wf()
    }

    proof fn lemma_room(&self, topic: Seq<char>)
        requires
            self.wf(),
        ensures
            self.rooms.keys().len() == self.rooms.values().len(),
            self.room(topic) is Some ==> self.room(topic)->0.wf(),
    {
        self.rooms.lemma_entries();
        if self.rooms@.contains_key(topic) {
            let i = self.rooms.keys().index_of(topic);
            assert(self.rooms.keys()[i] == topic);
            assert(self.rooms.values()[i] == self.rooms@[topic]);
        }
    }
}

/// Whether the seats of one account in one topic became this, and every other stayed.
pub open spec fn seated_as(
    before: RoomSeats,
    after: RoomSeats,
    topic: Seq<char>,
    account: Seq<char>,
    seat: Option<Seat>,
) -> bool {
    forall|t: Seq<char>, a: Seq<char>| #[trigger]
        after.held(t, a) == (if t == topic && a == account {
            seat
        } else {
            before.held(t, a)
        })
}

/// Whether the seats whose session ended were taken out.
pub open spec fn swept(before: RoomSeats, after: RoomSeats, running: Seq<Seq<char>>) -> bool {
    forall|topic: Seq<char>, account: Seq<char>| #[trigger]
        after.held(topic, account) == (match before.held(topic, account) {
            Some(seat) => if is_live(seat, running) {
                Some(seat)
            } else {
                None
            },
            None => None,
        })
}

/// What comes of claiming a seat.
pub open spec fn claimed(
    before: RoomSeats,
    after: RoomSeats,
    topic: Seq<char>,
    account: Seq<char>,
    running: Seq<Seq<char>>,
    res: Result<(), ()>,
) -> bool {
    let taken = match before.held(topic, account) {
        Some(seat) => is_live(seat, running),
        None => false,
    };
    &&& res is Err <==> taken
    &&& taken ==> after == before
    &&& !taken ==> seated_as(before, after, topic, account, Some(Seat::Starting))
}

// ---------------------------------------------------------------------------
// The seats
// ---------------------------------------------------------------------------

fn still_held(seat: &Seat, running: &[String]) -> (res: bool)
    ensures
        res == is_live(*seat, texts(running@)),
{
    match seat {
        Seat::Starting => true,
        Seat::Running(session) => holds_text(running, session.pty_id.as_str()),
    }
}

fn copy_session(session: &RunningSession) -> (res: RunningSession)
    ensures
        res == *session,
{
    RunningSession {
        pty_id: session.pty_id.clone(),
        started_at: session.started_at.clone(),
        command: session.command.clone(),
        cwd: session.cwd.clone(),
        topic_id: session.topic_id.clone(),
        resumed_from: session.resumed_from.clone(),
    }
}

/// What is left of a room's seats when the ones whose session ended are taken out.
pub open spec fn is_swept(
    before: Map<Seq<char>, Seat>,
    now: Map<Seq<char>, Seat>,
    running: Seq<Seq<char>>,
) -> bool {
    forall|account: Seq<char>|
        #![trigger now.contains_key(account)]
        #![trigger now[account]]
        {
            &&& now.contains_key(account) <==> before.contains_key(account) && is_live(
                before[account],
                running,
            )
            &&& now.contains_key(account) ==> now[account] == before[account]
        }
}

fn sweep_room(room: &mut TextMap<Seat>, running: &[String])
    requires
        old(room).wf(),
    ensures
        final(room).wf(),
        is_swept(old(room)@, final(room)@, texts(running@)),
{
    let ghost before = room@;
    let ghost live = texts(running@);
    let mut i: usize = 0;
    while i < room.len()
        invariant
            room.wf(),
            i <= room.keys().len(),
            live == texts(running@),
            forall|account: Seq<char>| #[trigger]
                room@.contains_key(account) ==> before.contains_key(account) && room@[account]
                    == before[account],
            forall|account: Seq<char>| #[trigger]
                before.contains_key(account) && !room@.contains_key(account) ==> !is_live(
                    before[account],
                    live,
                ),
            forall|j: int| 0 <= j < i ==> is_live(#[trigger] room.values()[j], live),
        decreases room.keys().len() - i,
    {
        proof {
            room.lemma_entries();
        }
        if still_held(room.value_at(i), running) {
            i = i + 1;
        } else {
            let ghost keys = room.keys();
            let ghost values = room.values();
            let ghost former = room@;
            let _ = room.remove_at(i);
            proof {
                let now = room.keys();
                room.lemma_entries();
                assert forall|account: Seq<char>| #[trigger]
                    room@.contains_key(account) implies former.contains_key(account)
                    && room@[account] == former[account] by {
                    let k = now.index_of(account);
                    assert(now[k] == account);
                    assert(room@[account] == room.values()[k]);
                    let c = if k < i {
                        k
                    } else {
                        k + 1
                    };
                    assert(keys[c] == account);
                    assert(values[c] == former[keys[c]]);
                }
                assert forall|account: Seq<char>| #[trigger]
                    before.contains_key(account) && !room@.contains_key(account) implies !is_live(
                    before[account],
                    live,
                ) by {
                    if former.contains_key(account) {
                        let k = keys.index_of(account);
                        assert(keys[k] == account);
                        if k < i {
                            assert(now[k] == account);
                        } else if k > i {
                            assert(now[k - 1] == account);
                        } else {
                            assert(values[k] == former[account]);
                        }
                    }
                }
                assert forall|j: int| 0 <= j < i implies is_live(#[trigger] room.values()[j], live) by {
                    assert(room.values()[j] == values[j]);
                }
            }
        }
    }
    proof {
        room.lemma_entries();
        assert forall|account: Seq<char>| room@.contains_key(account) implies is_live(
            before[account],
            live,
        ) by {
            let k = room.keys().index_of(account);
            assert(room.keys()[k] == account);
            assert(is_live(room.values()[k], live));
        }
    }
}

impl RoomSeats {
    /// No seats.
    pub fn new() -> (seats: Self)
        ensures
            seats.wf(),
            seats.topics() == Seq::<Seq<char>>::empty(),
            forall|topic: Seq<char>, account: Seq<char>| seats.held(topic, account) is None,
    {
        let seats = RoomSeats { rooms: TextMap::new() };
        proof {
            seats.rooms.lemma_entries();
        }
        seats
    }

    /// Take out the seats whose session has ended.
    fn sweep(&mut self, running: &[String])
        requires
            old(self).wf(),
        ensures
            final(self).wf(),
            final(self).topics() == old(self).topics(),
            swept(*old(self), *final(self), texts(running@)),
    {
        let ghost live = texts(running@);
        let ghost before = *self;
        let ghost topics = self.rooms.keys();
        let ghost rooms = self.rooms.values();
        let mut i: usize = 0;
        proof {
            self.rooms.lemma_entries();
        }
        while i < self.rooms.len()
            invariant
                i <= topics.len(),
                live == texts(running@),
                self.rooms.wf(),
                self.rooms.keys() == topics,
                self.rooms.values().len() == topics.len(),
                rooms.len() == topics.len(),
                forall|j: int| 0 <= j < topics.len() ==> (#[trigger] rooms[j]).wf(),
                forall|j: int| 0 <= j < topics.len() ==> (#[trigger] self.rooms.values()[j]).wf(),
                forall|j: int|
                    i <= j < topics.len() ==> #[trigger] self.rooms.values()[j] == rooms[j],
                forall|j: int|
                    0 <= j < i ==> is_swept(
                        rooms[j]@,
                        (#[trigger] self.rooms.values()[j])@,
                        live,
                    ),
            decreases topics.len() - i,
        {
            let ghost former = self.rooms.values();
            let room = self.rooms.value_at_mut(i);
            proof {
                assert(former[i as int] == rooms[i as int]);
            }
            sweep_room(room, running);
            i = i + 1;
        }
        proof {
            self.rooms.lemma_entries();
            before.rooms.lemma_entries();
            assert forall|topic: Seq<char>, account: Seq<char>| #[trigger]
                self.held(topic, account) == (match before.held(topic, account) {
                    Some(seat) => if is_live(seat, live) {
                        Some(seat)
                    } else {
                        None
                    },
                    None => None,
                }) by {
                if topics.contains(topic) {
                    let k = topics.index_of(topic);
                    assert(topics[k] == topic);
                    assert(before.rooms.keys()[k] == topic);
                    assert(self.rooms.keys()[k] == topic);
                    assert(before.rooms@[topic] == rooms[k]);
                    assert(self.rooms@[topic] == self.rooms.values()[k]);
                    assert(is_swept(rooms[k]@, self.rooms.values()[k]@, live));
                    let now = self.rooms.values()[k]@;
                    assert(now.contains_key(account) == now.contains_key(account));
                }
            }
        }
    }

    /// The accounts holding a seat right now, with what runs under each, by topic and
    /// then by account. A seat whose session has exited is a free seat.
    pub fn seated(&mut self, running: &[String]) -> (res: Vec<SeatedAccount>)
        requires
            old(self).wf(),
        ensures
            final(self).wf(),
            final(self).topics() == old(self).topics(),
            swept(*old(self), *final(self), texts(running@)),
            res@.map_values(|seat: SeatedAccount| seat@) == listing(
                final(self).topics(),
                final(self).rooms(),
            ),
            ascending(final(self).topics()),
            final(self).rooms().len() == final(self).topics().len(),
            forall|i: int|
                0 <= i < final(self).rooms().len() ==> (#[trigger] final(self).rooms()[i]).wf(),
    {
        self.sweep(running);
        let ghost topics = self.rooms.keys();
        let ghost rooms = self.rooms.values();
        let mut res: Vec<SeatedAccount> = Vec::new();
        let mut i: usize = 0;
        proof {
            self.rooms.lemma_entries();
            assert(res@.map_values(|seat: SeatedAccount| seat@) =~= listing(
                topics.take(0),
                rooms,
            ));
        }
        while i < self.rooms.len()
            invariant
                i <= topics.len(),
                topics == self.rooms.keys(),
                rooms == self.rooms.values(),
                rooms.len() == topics.len(),
                res@.map_values(|seat: SeatedAccount| seat@) == listing(
                    topics.take(i as int),
                    rooms,
                ),
            decreases topics.len() - i,
        {
            let topic: &str = self.rooms.key_at(i);
            let room = self.rooms.value_at(i);
            let ghost done = res@.map_values(|seat: SeatedAccount| seat@);
            let ghost here = room_listing(topic@, room.keys(), room.values());
            let mut j: usize = 0;
            proof {
                assert(done + here.take(0) =~= done);
            }
            while j < room.len()
                invariant
                    j <= room.keys().len(),
                    here == room_listing(topic@, room.keys(), room.values()),
                    res@.map_values(|seat: SeatedAccount| seat@) == done + here.take(j as int),
                decreases room.keys().len() - j,
            {
                let session = match room.value_at(j) {
                    Seat::Starting => None,
                    Seat::Running(session) => Some(copy_session(session)),
                };
                let ghost former = res@.map_values(|seat: SeatedAccount| seat@);
                res.push(
                    SeatedAccount {
                        account_id: room.key_at(j).to_owned(),
                        topic_id: topic.to_owned(),
                        session,
                    },
                );
                proof {
                    assert(res@.last()@ == here[j as int]);
                    assert(res@.map_values(|seat: SeatedAccount| seat@) =~= former.push(
                        here[j as int],
                    ));
                    assert(done + here.take(j + 1) =~= former.push(here[j as int]));
                }
                j = j + 1;
            }
            proof {
                assert(here.take(here.len() as int) =~= here);
                assert(topics.take(i + 1).drop_last() =~= topics.take(i as int));
            }
            i = i + 1;
        }
        proof {
            assert(topics.take(topics.len() as int) =~= topics);
        }
        res
    }

    fn put(&mut self, topic_id: &str, account_id: &str, seat: Seat)
        requires
            old(self).wf(),
        ensures
            final(self).wf(),
            seated_as(*old(self), *final(self), topic_id@, account_id@, Some(seat)),
    {
        let ghost before = *self;
        proof {
            before.lemma_room(topic_id@);
        }
        let mut room = match self.rooms.remove(topic_id) {
            Some(room) => room,
            None => TextMap::new(),
        };
        let _ = room.insert(account_id.to_owned(), seat);
        let _ = self.rooms.insert(topic_id.to_owned(), room);
        proof {
            self.lemma_wf_after(before, topic_id@, room);
        }
    }

    proof fn lemma_wf_after(&self, before: RoomSeats, topic: Seq<char>, room: TextMap<Seat>)
        requires
            before.wf(),
            self.rooms.wf(),
            room.wf(),
            self.rooms@ == before.rooms@.remove(topic).insert(topic, room),
        ensures
            self.wf(),
    {
        self.rooms.lemma_entries();
        before.rooms.lemma_entries();
        assert forall|i: int| 0 <= i < self.rooms.keys().len() implies (
        #[trigger] self.rooms.values()[i]).wf() by {
            let key = self.rooms.keys()[i];
            assert(self.rooms@[key] == self.rooms.values()[i]);
            if key != topic {
                before.lemma_room(key);
                assert(before.rooms@.contains_key(key));
            }
        }
    }

    /// Claim the seat for `account_id` in `topic_id`, or fail because it is taken.
    pub fn claim(&mut self, topic_id: &str, account_id: &str, running: &[String]) -> (res: Result<
        (),
        (),
    >)
        requires
            old(self).wf(),
        ensures
            final(self).wf(),
            claimed(
                *old(self),
                *final(self),
                topic_id@,
                account_id@,
                texts(running@),
                res,
            ),
    {
        proof {
            self.lemma_room(topic_id@);
        }
        let taken = match self.rooms.get(topic_id) {
            Some(room) => match room.get(account_id) {
                Some(seat) => still_held(seat, running),
                None => false,
            },
            None => false,
        };
        if taken {
            return Err(());
        }
        self.put(topic_id, account_id, Seat::Starting);
        Ok(())
    }

    /// The PTY of every seat running in one topic, by account.
    pub fn running_in_topic(&mut self, topic_id: &str, running: &[String]) -> (res: Vec<String>)
        requires
            old(self).wf(),
        ensures
            final(self).wf(),
            final(self).topics() == old(self).topics(),
            swept(*old(self), *final(self), texts(running@)),
            texts(res@) == (match final(self).room(topic_id@) {
                Some(room) => ptys_of(room.values()),
                None => Seq::empty(),
            }),
            final(self).room(topic_id@) is Some ==> final(self).room(topic_id@)->0.wf(),
    {
        self.sweep(running);
        proof {
            self.lemma_room(topic_id@);
        }
        let mut res: Vec<String> = Vec::new();
        if let Some(room) = self.rooms.get(topic_id) {
            let ghost seats = room.values();
            let mut i: usize = 0;
            proof {
                room.lemma_entries();
                assert(texts(res@) =~= ptys_of(seats.take(0)));
            }
            while i < room.len()
                invariant
                    i <= room.keys().len(),
                    seats == room.values(),
                    seats.len() == room.keys().len(),
                    texts(res@) == ptys_of(seats.take(i as int)),
                decreases room.keys().len() - i,
            {
                let ghost done = texts(res@);
                proof {
                    assert(seats.take(i + 1).drop_last() =~= seats.take(i as int));
                }
                if let Seat::Running(session) = room.value_at(i) {
                    res.push(session.pty_id.clone());
                    proof {
                        assert(texts(res@) =~= done.push(session.pty_id@));
                    }
                }
                i = i + 1;
            }
            proof {
                assert(seats.take(seats.len() as int) =~= seats);
            }
        } else {
            proof {
                assert(texts(res@) =~= Seq::<Seq<char>>::empty());
            }
        }
        res
    }

    /// The launch got a session up; the seat is now held by that session.
    pub fn hold(&mut self, account_id: &str, session: RunningSession)
        requires
            old(self).wf(),
        ensures
            final(self).wf(),
            seated_as(
                *old(self),
                *final(self),
                session.topic_id@,
                account_id@,
                Some(Seat::Running(session)),
            ),
    {
        let topic = session.topic_id.clone();
        self.put(topic.as_str(), account_id, Seat::Running(session));
    }

    /// The launch failed. Nothing is running, so nothing holds the seat.
    pub fn release(&mut self, topic_id: &str, account_id: &str)
        requires
            old(self).wf(),
        ensures
            final(self).wf(),
            seated_as(*old(self), *final(self), topic_id@, account_id@, None),
    {
        let ghost before = *self;
        proof {
            before.lemma_room(topic_id@);
        }
        if let Some(mut room) = self.rooms.remove(topic_id) {
            let _ = room.remove(account_id);
            let _ = self.rooms.insert(topic_id.to_owned(), room);
            proof {
                self.lemma_wf_after(before, topic_id@, room);
            }
        } else {
            proof {
                assert(self.rooms@ =~= before.rooms@);
                self.rooms.lemma_order(&before.rooms);
                self.lemma_same(before);
            }
        }
    }

    proof fn lemma_same(&self, before: RoomSeats)
        requires
            before.wf(),
            self.rooms.wf(),
            self.rooms@ == before.rooms@,
        ensures
            self.wf(),
    {
        self.rooms.lemma_entries();
        before.rooms.lemma_entries();
        assert forall|i: int| 0 <= i < self.rooms.keys().len() implies (
        #[trigger] self.rooms.values()[i]).wf() by {
            let key = self.rooms.keys()[i];
            assert(self.rooms@[key] == self.rooms.values()[i]);
            before.lemma_room(key);
        }
    }
}

// ---------------------------------------------------------------------------
// Laws
// ---------------------------------------------------------------------------

/// A seat that a launch has claimed is refused to a second launch of the same account in
/// the same topic, and neither another account nor another topic is held up by it.
pub proof fn law_one_account_holds_one_seat_per_topic(
    before: RoomSeats,
    after: RoomSeats,
    topic: Seq<char>,
    account: Seq<char>,
    other_topic: Seq<char>,
    other_account: Seq<char>,
    running: Seq<Seq<char>>,
)
    requires
        forall|t: Seq<char>, a: Seq<char>| #[trigger]
            after.held(t, a) == (if t == topic && a == account {
                Some(Seat::Starting)
            } else {
                before.held(t, a)
            }),
        other_topic != topic || other_account != account,
    ensures
        after.held(topic, account) is Some,
        is_live(after.held(topic, account)->0, running),
        after.held(other_topic, other_account) == before.held(other_topic, other_account),
{
}

/// Seats are kept by topic and then by account, both in ascending order.
pub proof fn law_seats_are_kept_in_order(seats: RoomSeats)
    requires
        seats.wf(),
    ensures
        ascending(seats.topics()),
        seats.rooms().len() == seats.topics().len(),
        forall|i: int| 0 <= i < seats.rooms().len() ==> ascending((#[trigger] seats.rooms()[i]).keys()),
        forall|topic: Seq<char>| #[trigger]
            seats.room(topic) is Some ==> ascending(seats.room(topic)->0.keys()),
{
    seats.rooms.lemma_entries();
    assert forall|topic: Seq<char>| #[trigger] seats.room(topic) is Some implies ascending(
        seats.room(topic)->0.keys(),
    ) by {
        seats.lemma_room(topic);
    }
}

/// Every listed seat is held by its account in its topic.
pub proof fn law_every_listed_seat_is_held(seats: RoomSeats, i: int)
    requires
        seats.wf(),
        0 <= i < listing(seats.topics(), seats.rooms()).len(),
    ensures
        ({
            let listed = listing(seats.topics(), seats.rooms())[i];
            &&& seats.held(listed.topic_id, listed.account_id) is Some
            &&& session_under(seats.held(listed.topic_id, listed.account_id)->0) == listed.session
        }),
{
    assert(seats.topics().take(seats.topics().len() as int) =~= seats.topics());
    lemma_listed(seats, seats.topics().len() as int, i);
}

proof fn lemma_listed(seats: RoomSeats, n: int, i: int)
    requires
        seats.wf(),
        0 <= n <= seats.topics().len(),
        0 <= i < listing(seats.topics().take(n), seats.rooms()).len(),
    ensures
        ({
            let listed = listing(seats.topics().take(n), seats.rooms())[i];
            &&& seats.held(listed.topic_id, listed.account_id) is Some
            &&& session_under(seats.held(listed.topic_id, listed.account_id)->0) == listed.session
        }),
    decreases n,
{
    if n > 0 {
        let topics = seats.topics().take(n);
        assert(topics.drop_last() =~= seats.topics().take(n - 1));
        let before = listing(seats.topics().take(n - 1), seats.rooms());
        if i < before.len() {
            lemma_listed(seats, n - 1, i);
        } else {
            let topic = seats.topics()[n - 1];
            let room = seats.rooms()[n - 1];
            let k = i - before.len();
            seats.rooms.lemma_entries();
            assert(seats.rooms.keys()[n - 1] == topic);
            assert(seats.rooms@[topic] == room);
            assert(room.wf());
            room.lemma_entries();
            assert(room@[room.keys()[k]] == room.values()[k]);
            assert(seats.room(topic) == Some(room));
        }
    }
}

/// Every seat that is held is listed.
pub proof fn law_every_held_seat_is_listed(seats: RoomSeats, topic: Seq<char>, account: Seq<char>)
    requires
        seats.wf(),
        seats.held(topic, account) is Some,
    ensures
        listing(seats.topics(), seats.rooms()).contains(
            Listed {
                topic_id: topic,
                account_id: account,
                session: session_under(seats.held(topic, account)->0),
            },
        ),
{
    seats.rooms.lemma_entries();
    let k = seats.rooms.keys().index_of(topic);
    assert(seats.rooms.keys()[k] == topic);
    let room = seats.rooms.values()[k];
    assert(seats.rooms@[topic] == room);
    assert(room.wf());
    room.lemma_entries();
    let j = room.keys().index_of(account);
    assert(room.keys()[j] == account);
    assert(room@[account] == room.values()[j]);
    assert(seats.topics().take(seats.topics().len() as int) =~= seats.topics());
    lemma_listed_room(seats, seats.topics().len() as int, k, j);
}

proof fn lemma_listed_room(seats: RoomSeats, n: int, k: int, j: int)
    requires
        seats.wf(),
        0 <= k < n <= seats.topics().len(),
        0 <= j < seats.rooms()[k].keys().len(),
    ensures
        listing(seats.topics().take(n), seats.rooms()).contains(
            Listed {
                topic_id: seats.topics()[k],
                account_id: seats.rooms()[k].keys()[j],
                session: session_under(seats.rooms()[k].values()[j]),
            },
        ),
    decreases n,
{
    let topics = seats.topics().take(n);
    assert(topics.drop_last() =~= seats.topics().take(n - 1));
    let before = listing(seats.topics().take(n - 1), seats.rooms());
    let all = listing(topics, seats.rooms());
    let wanted = Listed {
        topic_id: seats.topics()[k],
        account_id: seats.rooms()[k].keys()[j],
        session: session_under(seats.rooms()[k].values()[j]),
    };
    if k == n - 1 {
        assert(all[before.len() as int + j] == wanted);
    } else {
        lemma_listed_room(seats, n - 1, k, j);
        let i = choose|i: int| 0 <= i < before.len() && before[i] == wanted;
        assert(all[i] == wanted);
    }
}

/// A seat is claimed exactly where it is free: nobody holds it, or its session no longer
/// runs. A launch in flight holds it. A claim that is refused changes nothing, and no claim
/// touches another seat.
pub proof fn law_who_may_claim_a_seat(
    before: RoomSeats,
    after: RoomSeats,
    topic: Seq<char>,
    account: Seq<char>,
    running: Seq<Seq<char>>,
    res: Result<(), ()>,
    other_topic: Seq<char>,
    other_account: Seq<char>,
)
    requires
        claimed(before, after, topic, account, running, res),
        other_topic != topic || other_account != account,
    ensures
        before.held(topic, account) is None ==> res is Ok,
        before.held(topic, account) == Some(Seat::Starting) ==> res is Err,
        before.held(topic, account) is Some && before.held(topic, account)->0 is Running ==> (
        res is Err <==> running.contains(before.held(topic, account)->0->Running_0.pty_id@)),
        res is Ok ==> after.held(topic, account) == Some(Seat::Starting),
        res is Err ==> after == before,
        after.held(other_topic, other_account) == before.held(other_topic, other_account),
{
}

/// A seat that was claimed is refused to the next claim. Once its session is up, it is refused
/// as long as that session runs, and given again when it does not; and it is given again at
/// once where the launch failed.
pub proof fn law_a_seat_is_held_until_its_session_ends(
    before: RoomSeats,
    mine: RoomSeats,
    up: RoomSeats,
    freed: RoomSeats,
    topic: Seq<char>,
    account: Seq<char>,
    session: RunningSession,
    running: Seq<Seq<char>>,
    again: Result<(), ()>,
    later: Result<(), ()>,
    anew: Result<(), ()>,
    after_again: RoomSeats,
    after_later: RoomSeats,
    after_anew: RoomSeats,
)
    requires
        claimed(before, mine, topic, account, running, Ok(())),
        claimed(mine, after_again, topic, account, running, again),
        session.topic_id@ == topic,
        seated_as(mine, up, session.topic_id@, account, Some(Seat::Running(session))),
        claimed(up, after_later, topic, account, running, later),
        seated_as(mine, freed, topic, account, None),
        claimed(freed, after_anew, topic, account, running, anew),
    ensures
        again is Err,
        later is Err <==> running.contains(session.pty_id@),
        anew is Ok,
{
}

/// Sweeping takes out the seats whose session no longer runs, and leaves the others as they
/// are: those of a launch in flight, and those of a session that runs.
pub proof fn law_sweeping_frees_the_ended_alone(
    before: RoomSeats,
    after: RoomSeats,
    running: Seq<Seq<char>>,
    topic: Seq<char>,
    account: Seq<char>,
)
    requires
        swept(before, after, running),
    ensures
        before.held(topic, account) is None ==> after.held(topic, account) is None,
        before.held(topic, account) == Some(Seat::Starting) ==> after.held(topic, account) == Some(
            Seat::Starting,
        ),
        before.held(topic, account) is Some && before.held(topic, account)->0 is Running ==> {
            let session = before.held(topic, account)->0->Running_0;
            after.held(topic, account) == if running.contains(session.pty_id@) {
                Some(Seat::Running(session))
            } else {
                None
            }
        },
{
}

/// A seat is listed under its account and its topic, with the session that runs under it, and
/// with none while a launch is in flight; and every seat that is listed is held.
pub proof fn law_the_list_tells_who_sits_where(
    seats: RoomSeats,
    list: Seq<SeatedAccount>,
    topic: Seq<char>,
    account: Seq<char>,
    i: int,
)
    requires
        seats.wf(),
        list.map_values(|seat: SeatedAccount| seat@) == listing(seats.topics(), seats.rooms()),
        0 <= i < list.len(),
    ensures
        match list[i].session {
            Some(session) => seats.held(list[i].topic_id@, list[i].account_id@) == Some(
                Seat::Running(session),
            ),
            None => seats.held(list[i].topic_id@, list[i].account_id@) == Some(Seat::Starting),
        },
        seats.held(topic, account) is Some ==> exists|j: int|
            0 <= j < list.len() && (#[trigger] list[j]).topic_id@ == topic && list[j].account_id@
                == account,
{
    let all = list.map_values(|seat: SeatedAccount| seat@);
    assert(all[i] == list[i]@);
    law_every_listed_seat_is_held(seats, i);
    if seats.held(topic, account) is Some {
        law_every_held_seat_is_listed(seats, topic, account);
        let wanted = Listed {
            topic_id: topic,
            account_id: account,
            session: session_under(seats.held(topic, account)->0),
        };
        let j = all.index_of(wanted);
        assert(all[j] == list[j]@);
    }
}

/// The list goes by topic and then by account, both in ascending order, so that nothing is
/// listed twice.
pub proof fn law_the_list_is_in_order(seats: RoomSeats, i: int, j: int)
    requires
        seats.wf(),
        0 <= i < j < listing(seats.topics(), seats.rooms()).len(),
    ensures
        ({
            let a = listing(seats.topics(), seats.rooms())[i];
            let b = listing(seats.topics(), seats.rooms())[j];
            text_less(a.topic_id, b.topic_id) || (a.topic_id == b.topic_id && text_less(
                a.account_id,
                b.account_id,
            ))
        }),
{
    assert(seats.topics().take(seats.topics().len() as int) =~= seats.topics());
    lemma_listing_order(seats, seats.topics().len() as int, i, j);
}

proof fn lemma_listing_topics(seats: RoomSeats, n: int, i: int)
    requires
        seats.wf(),
        0 <= n <= seats.topics().len(),
        0 <= i < listing(seats.topics().take(n), seats.rooms()).len(),
    ensures
        exists|k: int|
            0 <= k < n && #[trigger] seats.topics()[k] == listing(
                seats.topics().take(n),
                seats.rooms(),
            )[i].topic_id,
    decreases n,
{
    if n > 0 {
        let topics = seats.topics().take(n);
        assert(topics.drop_last() =~= seats.topics().take(n - 1));
        let before = listing(seats.topics().take(n - 1), seats.rooms());
        if i < before.len() {
            lemma_listing_topics(seats, n - 1, i);
        } else {
            assert(seats.topics()[n - 1] == topics.last());
        }
    }
}

proof fn lemma_listing_order(seats: RoomSeats, n: int, i: int, j: int)
    requires
        seats.wf(),
        0 <= n <= seats.topics().len(),
        0 <= i < j < listing(seats.topics().take(n), seats.rooms()).len(),
    ensures
        ({
            let a = listing(seats.topics().take(n), seats.rooms())[i];
            let b = listing(seats.topics().take(n), seats.rooms())[j];
            text_less(a.topic_id, b.topic_id) || (a.topic_id == b.topic_id && text_less(
                a.account_id,
                b.account_id,
            ))
        }),
    decreases n,
{
    if n > 0 {
        let topics = seats.topics().take(n);
        assert(topics.drop_last() =~= seats.topics().take(n - 1));
        let before = listing(seats.topics().take(n - 1), seats.rooms());
        law_seats_are_kept_in_order(seats);
        if j < before.len() {
            lemma_listing_order(seats, n - 1, i, j);
        } else if i < before.len() {
            lemma_listing_topics(seats, n - 1, i);
            let k = choose|k: int|
                0 <= k < n - 1 && #[trigger] seats.topics()[k] == before[i].topic_id;
            assert(text_less(seats.topics()[k], seats.topics()[n - 1]));
        } else {
            let keys = seats.rooms()[n - 1].keys();
            assert(text_less(keys[i - before.len()], keys[j - before.len()]));
        }
    }
}

/// What runs in a topic are the sessions of its seats, in the order of the seats, and not the
/// launches in flight.
pub proof fn law_what_runs_are_the_sessions(seats: Seq<Seat>)
    ensures
        ptys_of(seats) == seats.filter(|seat: Seat| seat is Running).map_values(
            |seat: Seat| seat->Running_0.pty_id@,
        ),
    decreases seats.len(),
{
    reveal(Seq::filter);
    let runs = |seat: Seat| seat is Running;
    let pty = |seat: Seat| seat->Running_0.pty_id@;
    if seats.len() > 0 {
        law_what_runs_are_the_sessions(seats.drop_last());
        let before = seats.drop_last().filter(runs);
        if seats.last() is Running {
            assert(before.push(seats.last()).map_values(pty) =~= before.map_values(pty).push(
                seats.last()->Running_0.pty_id@,
            ));
        }
    } else {
        assert(seats.filter(runs).map_values(pty) =~= Seq::<Seq<char>>::empty());
    }
}

/// Every session that is held in a topic is among what runs in it, and what runs in it is
/// held in it.
pub proof fn law_what_runs_in_a_topic_is_held_in_it(
    seats: RoomSeats,
    topic: Seq<char>,
    account: Seq<char>,
    i: int,
)
    requires
        seats.wf(),
        seats.room(topic) is Some,
    ensures
        ({
            let ptys = ptys_of(seats.room(topic)->0.values());
            let seat = seats.held(topic, account);
            &&& seat is Some && seat->0 is Running ==> ptys.contains(seat->0->Running_0.pty_id@)
            &&& 0 <= i < ptys.len() ==> exists|holder: Seq<char>|
                {
                    &&& (#[trigger] seats.held(topic, holder)) is Some
                    &&& seats.held(topic, holder)->0 is Running
                    &&& seats.held(topic, holder)->0->Running_0.pty_id@ == ptys[i]
                }
        }),
{
    seats.lemma_room(topic);
    let room = seats.room(topic)->0;
    room.lemma_entries();
    let values = room.values();
    let ptys = ptys_of(values);
    let seat = seats.held(topic, account);
    if seat is Some && seat->0 is Running {
        let k = room.keys().index_of(account);
        assert(room.keys()[k] == account);
        assert(values[k] == seat->0);
        lemma_pty_of(values, k);
    }
    if 0 <= i < ptys.len() {
        let k = lemma_seat_of_pty(values, i);
        let holder = room.keys()[k];
        assert(room@[holder] == values[k]);
        assert(seats.held(topic, holder) == Some(values[k]));
    }
}

proof fn lemma_pty_of(seats: Seq<Seat>, k: int)
    requires
        0 <= k < seats.len(),
        seats[k] is Running,
    ensures
        ptys_of(seats).contains(seats[k]->Running_0.pty_id@),
    decreases seats.len(),
{
    let pty = seats[k]->Running_0.pty_id@;
    let before = ptys_of(seats.drop_last());
    let all = ptys_of(seats);
    if k == seats.len() - 1 {
        assert(all[before.len() as int] == pty);
    } else {
        assert(seats.drop_last()[k] == seats[k]);
        lemma_pty_of(seats.drop_last(), k);
        let i = before.index_of(pty);
        assert(all[i] == pty);
    }
}

proof fn lemma_seat_of_pty(seats: Seq<Seat>, i: int) -> (k: int)
    requires
        0 <= i < ptys_of(seats).len(),
    ensures
        0 <= k < seats.len(),
        seats[k] is Running,
        seats[k]->Running_0.pty_id@ == ptys_of(seats)[i],
    decreases seats.len(),
{
    let shorter = seats.drop_last();
    if i < ptys_of(shorter).len() {
        let k = lemma_seat_of_pty(shorter, i);
        assert(shorter[k] == seats[k]);
        k
    } else {
        seats.len() - 1
    }
}

/// A launch that got its session up holds the seat of its account in the session's topic with
/// that session, and one that failed holds none; no other seat is touched by either.
pub proof fn law_a_launch_holds_or_gives_up_its_seat(
    seats: &mut RoomSeats,
    account_id: &str,
    session: RunningSession,
    topic: Seq<char>,
    account: Seq<char>,
)
    requires
        RoomSeats::hold.ensures((seats, account_id, session), ()),
    ensures
        final(seats).held(session.topic_id@, account_id@) == Some(Seat::Running(session)),
        topic != session.topic_id@ || account != account_id@ ==> final(seats).held(topic, account)
            == old(seats).held(topic, account),
{
}

/// A launch that failed holds its seat no more, whatever was in it, and no other is touched.
pub proof fn law_a_failed_launch_gives_up_its_seat(
    seats: &mut RoomSeats,
    topic_id: &str,
    account_id: &str,
    topic: Seq<char>,
    account: Seq<char>,
)
    requires
        RoomSeats::release.ensures((seats, topic_id, account_id), ()),
    ensures
        final(seats).held(topic_id@, account_id@) is None,
        topic != topic_id@ || account != account_id@ ==> final(seats).held(topic, account)
            == old(seats).held(topic, account),
{
}

/// A seat is claimed for the account in the topic that are given, exactly where nobody holds
/// it: no launch is in flight there, and no session that still runs.
pub proof fn law_a_seat_is_claimed_where_it_is_free(
    seats: &mut RoomSeats,
    topic_id: &str,
    account_id: &str,
    running: &[String],
    res: Result<(), ()>,
    topic: Seq<char>,
    account: Seq<char>,
)
    requires
        RoomSeats::claim.ensures((seats, topic_id, account_id, running), res),
    ensures
        ({
            let was = old(seats).held(topic_id@, account_id@);
            let runs = was is Some && was->0 is Running && exists|i: int|
                0 <= i < running@.len() && (#[trigger] running@[i])@
                    == was->0->Running_0.pty_id@;
            &&& res is Err <==> was == Some(Seat::Starting) || runs
            &&& res is Err ==> *final(seats) == *old(seats)
            &&& res is Ok ==> final(seats).held(topic_id@, account_id@) == Some(Seat::Starting)
            &&& topic != topic_id@ || account != account_id@ ==> final(seats).held(topic, account)
                == old(seats).held(topic, account)
        }),
{
    let live = texts(running@);
    let was = old(seats).held(topic_id@, account_id@);
    assert(live.len() == running@.len());
    if was is Some && was->0 is Running {
        let pty = was->0->Running_0.pty_id@;
        if live.contains(pty) {
            let i = live.index_of(pty);
            assert(live[i] == running@[i]@);
        }
        if exists|i: int| 0 <= i < running@.len() && (#[trigger] running@[i])@ == pty {
            let i = choose|i: int| 0 <= i < running@.len() && (#[trigger] running@[i])@ == pty;
            assert(live[i] == pty);
        }
    }
}

/// The list of who sits where frees the seats whose session ended, tells of every seat that is
/// held then, and of no other.
pub proof fn law_who_is_seated_is_listed(
    seats: &mut RoomSeats,
    running: &[String],
    res: Vec<SeatedAccount>,
    topic: Seq<char>,
    account: Seq<char>,
    i: int,
)
    requires
        RoomSeats::seated.ensures((seats, running), res),
        0 <= i < res@.len(),
    ensures
        swept(*old(seats), *final(seats), texts(running@)),
        match res@[i].session {
            Some(session) => old(seats).held(res@[i].topic_id@, res@[i].account_id@) == Some(
                Seat::Running(session),
            ) && texts(running@).contains(session.pty_id@),
            None => old(seats).held(res@[i].topic_id@, res@[i].account_id@) == Some(
                Seat::Starting,
            ),
        },
        final(seats).held(topic, account) is Some ==> exists|j: int|
            0 <= j < res@.len() && (#[trigger] res@[j]).topic_id@ == topic && res@[j].account_id@
                == account,
{
    law_the_list_tells_who_sits_where(*final(seats), res@, topic, account, i);
    let t = res@[i].topic_id@;
    let a = res@[i].account_id@;
    assert(final(seats).held(t, a) is Some);
    assert(old(seats).held(t, a) == final(seats).held(t, a));
}

/// What runs in a topic are the sessions that are held in it and still run, and the seats of
/// the others are freed.
pub proof fn law_what_runs_in_a_topic(
    seats: &mut RoomSeats,
    topic_id: &str,
    running: &[String],
    res: Vec<String>,
    account: Seq<char>,
    i: int,
)
    requires
        RoomSeats::running_in_topic.ensures((seats, topic_id, running), res),
    ensures
        swept(*old(seats), *final(seats), texts(running@)),
        ({
            let seat = old(seats).held(topic_id@, account);
            &&& seat is Some && seat->0 is Running && texts(running@).contains(
                seat->0->Running_0.pty_id@,
            ) ==> texts(res@).contains(seat->0->Running_0.pty_id@)
            &&& 0 <= i < res@.len() ==> exists|holder: Seq<char>|
                {
                    &&& (#[trigger] old(seats).held(topic_id@, holder)) is Some
                    &&& old(seats).held(topic_id@, holder)->0 is Running
                    &&& old(seats).held(topic_id@, holder)->0->Running_0.pty_id@ == res@[i]@
                    &&& texts(running@).contains(res@[i]@)
                }
        }),
{
    let seat = old(seats).held(topic_id@, account);
    let now = *final(seats);
    assert(now.held(topic_id@, account) == now.held(topic_id@, account));
    assert(texts(res@).len() == res@.len());
    if now.room(topic_id@) is Some {
        law_what_runs_in_a_topic_is_held_in_it(now, topic_id@, account, i);
        if 0 <= i < res@.len() {
            let ptys = ptys_of(now.room(topic_id@)->0.values());
            assert(ptys[i] == res@[i]@);
            let holder = choose|holder: Seq<char>|
                {
                    &&& (#[trigger] now.held(topic_id@, holder)) is Some
                    &&& now.held(topic_id@, holder)->0 is Running
                    &&& now.held(topic_id@, holder)->0->Running_0.pty_id@ == ptys[i]
                };
            assert(now.held(topic_id@, holder) == old(seats).held(topic_id@, holder));
        }
    }
}

} // verus!
