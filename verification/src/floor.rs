//! The room's ordering authority: who may speak, and what they have to read first.
//!
//! A post goes onto the floor only when its speaker has seen everything the others
//! said before it. A speaker who has not is handed what they missed, and nothing is
//! delivered in its place.

use std::collections::VecDeque;
use vstd::prelude::*;

use crate::text::{opt_str, same_text};

verus! {

/// How many posts the floor keeps. An id older than this no longer resolves.
pub const DEFAULT_CAPACITY: usize = 512;

/// One utterance, as it was said.
#[derive(Debug, Clone, PartialEq)]
pub struct Post {
    pub message_id: String,
    pub speaker: String,
    /// The hue the speaker had declared when they said it, in oklch degrees.
    pub hue: Option<serde_json::Number>,
    pub content: String,
    pub to: Option<String>,
    pub ts: String,
}

/// A post the speaker had not seen, handed back in place of their own.
#[derive(Debug, Clone, PartialEq)]
pub struct Missed {
    pub message_id: String,
    pub speaker: String,
    /// The hue it was said in, carried straight from the post.
    pub hue: Option<serde_json::Number>,
    pub content: String,
    pub to: Option<String>,
    pub ts: String,
}

/// What the floor did with an attempt to speak.
#[derive(Debug, Clone, PartialEq)]
pub enum Admission {
    /// On the floor, at this position.
    Admitted { seq: u64 },
    /// Not on the floor. These are the posts the speaker had not seen, oldest first.
    Unseen(Vec<Missed>),
}

/// A post with its position and the connection it arrived on.
#[derive(Debug)]
struct Entry {
    seq: u64,
    origin: String,
    post: Post,
}

/// The posts a room still holds, numbered in the order they were said.
#[derive(Debug)]
pub struct Floor {
    seq: u64,
    log: VecDeque<Entry>,
    capacity: usize,
}

// ---------------------------------------------------------------------------
// The model
// ---------------------------------------------------------------------------

/// A post on the floor: its position, the connection it arrived on, and itself.
pub struct Place {
    pub seq: nat,
    pub origin: Seq<char>,
    pub post: Post,
}

/// The post as it is handed back to somebody who missed it.
pub open spec fn missed_of(post: Post) -> Missed {
    Missed {
        message_id: post.message_id,
        speaker: post.speaker,
        hue: post.hue,
        content: post.content,
        to: post.to,
        ts: post.ts,
    }
}

/// Whether a place lies behind a watermark and is somebody else's.
pub open spec fn unread(place: Place, origin: Seq<char>, mark: nat) -> bool {
    place.seq > mark && place.origin != origin
}

/// The posts of a log that lie behind a watermark and are somebody else's, oldest
/// first.
pub open spec fn unseen_in(log: Seq<Place>, origin: Seq<char>, mark: nat) -> Seq<Post>
    decreases log.len(),
{
    if log.len() == 0 {
        Seq::empty()
    } else {
        let older = unseen_in(log.drop_last(), origin, mark);
        if unread(log.last(), origin, mark) {
            older.push(log.last().post)
        } else {
            older
        }
    }
}

/// The position of the first post of a log with an id, or 0.
pub open spec fn position_in(log: Seq<Place>, id: Seq<char>) -> nat
    decreases log.len(),
{
    if log.len() == 0 {
        0
    } else if log[0].post.message_id@ == id {
        log[0].seq
    } else {
        position_in(log.skip(1), id)
    }
}

/// What a floor is: the newest position, how many posts it keeps, and the posts.
pub struct FloorModel {
    pub seq: nat,
    pub capacity: nat,
    pub log: Seq<Place>,
}

impl FloorModel {
    /// The posts kept are the newest ones, numbered without a gap up to the newest
    /// position.
    pub open spec fn wf(self) -> bool {
        &&& self.capacity >= 1
        &&& self.log.len() == if self.seq < self.capacity {
            self.seq
        } else {
            self.capacity
        }
        &&& forall|i: int|
            0 <= i < self.log.len() ==> (#[trigger] self.log[i]).seq == self.seq - self.log.len() + 1
                + i
    }

    /// Up to which position a speaker has read: the position of the post they name,
    /// 0 when that post is not on the floor, and where their seat was taken when they
    /// name none.
    pub open spec fn mark(self, since: nat, last_seen: Option<Seq<char>>) -> nat {
        match last_seen {
            None => since,
            Some(id) => position_in(self.log, id),
        }
    }

    /// What a speaker who has read up to a position still has to read.
    pub open spec fn unseen(self, origin: Seq<char>, mark: nat) -> Seq<Post> {
        unseen_in(self.log, origin, mark)
    }

    /// The floor with one more post on it, and without its oldest when it was full.
    pub open spec fn with(self, origin: Seq<char>, post: Post) -> FloorModel {
        let log = self.log.push(Place { seq: self.seq + 1, origin, post });
        FloorModel {
            seq: self.seq + 1,
            capacity: self.capacity,
            log: if log.len() > self.capacity {
                log.skip(1)
            } else {
                log
            },
        }
    }

    /// The floor emptied and its numbering started over.
    pub open spec fn cleared(self) -> FloorModel {
        FloorModel { seq: 0, capacity: self.capacity, log: Seq::empty() }
    }
}

impl View for Entry {
    type V = Place;

    closed spec fn view(&self) -> Place {
        Place { seq: self.seq as nat, origin: self.origin@, post: self.post }
    }
}

impl View for Floor {
    type V = FloorModel;

    closed spec fn view(&self) -> FloorModel {
        FloorModel {
            seq: self.seq as nat,
            capacity: self.capacity as nat,
            log: self.log@.map_values(|entry: Entry| entry@),
        }
    }
}

/// What comes of speaking: refused with what the speaker has not read, or put on the floor.
pub open spec fn heard(
    before: Floor,
    after: Floor,
    origin: Seq<char>,
    since: nat,
    last_seen: Option<Seq<char>>,
    post: Post,
    res: Admission,
) -> bool {
    let unseen = before@.unseen(origin, before@.mark(since, last_seen));
    match res {
        Admission::Unseen(missed) => {
            &&& unseen.len() > 0
            &&& missed@ == unseen.map_values(|post: Post| missed_of(post))
            &&& after == before
        },
        Admission::Admitted { seq } => {
            &&& unseen.len() == 0
            &&& seq == before@.seq + 1
            &&& after@ == before@.with(origin, post)
        },
    }
}

// ---------------------------------------------------------------------------
// The floor
// ---------------------------------------------------------------------------

impl Default for Floor {
    fn default() -> (floor: Self)
        ensures
            floor@.wf(),
            floor@.seq == 0,
            floor@.capacity == DEFAULT_CAPACITY,
    {
        Floor::new()
    }
}

impl Floor {
    /// An empty floor that keeps the default number of posts.
    pub fn new() -> (floor: Self)
        ensures
            floor@.wf(),
            floor@ == (FloorModel { seq: 0, capacity: DEFAULT_CAPACITY as nat, log: Seq::empty() }),
    {
        Floor::with_capacity(DEFAULT_CAPACITY)
    }

    /// An empty floor that keeps a number of posts, at least one.
    pub fn with_capacity(capacity: usize) -> (floor: Self)
        ensures
            floor@.wf(),
            floor@ == (FloorModel {
                seq: 0,
                capacity: if capacity == 0 {
                    1
                } else {
                    capacity as nat
                },
                log: Seq::empty(),
            }),
    {
        let floor = Floor {
            seq: 0,
            log: VecDeque::new(),
            capacity: if capacity == 0 {
                1
            } else {
                capacity
            },
        };
        proof {
            assert(floor@.log =~= Seq::<Place>::empty());
        }
        floor
    }

    /// The position of the newest post, or 0 when nothing has been said.
    pub fn seq(&self) -> (seq: u64)
        ensures
            seq == self@.seq,
    {
        self.seq
    }

    /// Empty the floor and start its numbering over.
    pub fn reset(&mut self)
        requires
            old(self)@.wf(),
        ensures
            final(self)@ == old(self)@.cleared(),
            final(self)@.wf(),
    {
        self.seq = 0;
        self.log.clear();
        proof {
            assert(self@.log =~= Seq::<Place>::empty());
        }
    }

    /// Check the speaker against the floor and, if they have read everything the
    /// others said, put their post on it.
    ///
    /// `since` is the position at which the speaker's seat was taken, which counts when
    /// they name no post as the last they saw. The speaker's own posts never count
    /// against them.
    pub fn admit_post(&mut self, origin: &str, since: u64, last_seen: Option<&str>, post: Post) -> (res:
        Admission)
        requires
            old(self)@.wf(),
            old(self)@.seq < u64::MAX,
        ensures
            final(self)@.wf(),
            heard(
                *old(self),
                *final(self),
                origin@,
                since as nat,
                opt_str(last_seen),
                post,
                res,
            ),
    {
        let watermark: u64 = self.watermark(since, last_seen);
        let mut missed: Vec<Missed> = Vec::new();
        let ghost places = self@.log;
        let mut i: usize = 0;
        while i < self.log.len()
            invariant
                i <= self.log@.len(),
                places == self@.log,
                missed@ =~= unseen_in(places.take(i as int), origin@, watermark as nat).map_values(
                    |post: Post| missed_of(post),
                ),
            decreases self.log@.len() - i,
        {
            let entry = &self.log[i];
            proof {
                assert(places.take(i + 1).drop_last() =~= places.take(i as int));
                assert(places.take(i + 1).last() == entry@);
            }
            if entry.seq > watermark && !same_text(entry.origin.as_str(), origin) {
                missed.push(
                    Missed {
                        message_id: entry.post.message_id.clone(),
                        speaker: entry.post.speaker.clone(),
                        hue: entry.post.hue.clone(),
                        content: entry.post.content.clone(),
                        to: entry.post.to.clone(),
                        ts: entry.post.ts.clone(),
                    },
                );
                proof {
                    assert(missed@.last() == missed_of(entry.post));
                }
            }
            i = i + 1;
        }
        proof {
            assert(places.take(places.len() as int) =~= places);
        }
        if missed.len() > 0 {
            return Admission::Unseen(missed);
        }
        self.seq = self.seq + 1;
        let seq: u64 = self.seq;
        self.log.push_back(Entry { seq, origin: origin.to_owned(), post });
        proof {
            assert(self@.log =~= places.push(Place { seq: seq as nat, origin: origin@, post }));
        }
        if self.log.len() > self.capacity {
            let _ = self.log.pop_front();
            proof {
                assert(self@.log =~= places.push(
                    Place { seq: seq as nat, origin: origin@, post },
                ).skip(1));
            }
        }
        Admission::Admitted { seq }
    }

    fn watermark(&self, since: u64, last_seen: Option<&str>) -> (mark: u64)
        ensures
            mark == self@.mark(since as nat, opt_str(last_seen)),
    {
        match last_seen {
            None => since,
            Some(id) => {
                let mut i: usize = 0;
                let ghost places = self@.log;
                proof {
                    assert(places.skip(0) =~= places);
                }
                while i < self.log.len()
                    invariant
                        i <= self.log@.len(),
                        places == self@.log,
                        last_seen == Some(id),
                        position_in(places, id@) == position_in(places.skip(i as int), id@),
                    decreases self.log@.len() - i,
                {
                    let entry = &self.log[i];
                    proof {
                        assert(places.skip(i as int)[0] == entry@);
                        assert(places.skip(i as int).skip(1) =~= places.skip(i + 1));
                    }
                    if same_text(entry.post.message_id.as_str(), id) {
                        return entry.seq;
                    }
                    i = i + 1;
                }
                0
            },
        }
    }
}

// ---------------------------------------------------------------------------
// Laws
// ---------------------------------------------------------------------------

/// Nothing is unread exactly where no place of the log is.
pub proof fn lemma_nothing_unseen(log: Seq<Place>, origin: Seq<char>, mark: nat)
    ensures
        unseen_in(log, origin, mark).len() == 0 <==> forall|i: int|
            0 <= i < log.len() ==> !unread(#[trigger] log[i], origin, mark),
    decreases log.len(),
{
    if log.len() > 0 {
        let older = log.drop_last();
        lemma_nothing_unseen(older, origin, mark);
        if unseen_in(log, origin, mark).len() == 0 {
            assert forall|i: int| 0 <= i < log.len() implies !unread(
                #[trigger] log[i],
                origin,
                mark,
            ) by {
                if i < older.len() {
                    assert(older[i] == log[i]);
                }
            }
        } else if !unread(log.last(), origin, mark) {
            let i = choose|i: int|
                0 <= i < older.len() && unread(#[trigger] older[i], origin, mark);
            assert(log[i] == older[i]);
        }
    }
}

proof fn lemma_last_unseen(log: Seq<Place>, origin: Seq<char>, mark: nat) -> (at: int)
    requires
        unseen_in(log, origin, mark).len() > 0,
    ensures
        0 <= at < log.len(),
        unread(log[at], origin, mark),
        unseen_in(log, origin, mark).last() == log[at].post,
        forall|i: int| at < i < log.len() ==> !unread(#[trigger] log[i], origin, mark),
    decreases log.len(),
{
    if unread(log.last(), origin, mark) {
        log.len() - 1
    } else {
        let older = log.drop_last();
        let at = lemma_last_unseen(older, origin, mark);
        assert forall|i: int| at < i < log.len() implies !unread(#[trigger] log[i], origin, mark) by {
            if i < older.len() {
                assert(older[i] == log[i]);
            }
        }
        at
    }
}

proof fn lemma_position_is_in_the_log(log: Seq<Place>, id: Seq<char>)
    ensures
        position_in(log, id) == 0 || exists|i: int|
            0 <= i < log.len() && (#[trigger] log[i]).post.message_id@ == id && log[i].seq
                == position_in(log, id),
        (forall|i: int| 0 <= i < log.len() ==> (#[trigger] log[i]).post.message_id@ != id)
            ==> position_in(log, id) == 0,
    decreases log.len(),
{
    if log.len() > 0 && log[0].post.message_id@ != id {
        let rest = log.skip(1);
        lemma_position_is_in_the_log(rest, id);
        if position_in(log, id) != 0 {
            let i = choose|i: int|
                0 <= i < rest.len() && (#[trigger] rest[i]).post.message_id@ == id && rest[i].seq
                    == position_in(rest, id);
            assert(log[i + 1] == rest[i]);
        }
        if forall|i: int| 0 <= i < log.len() ==> (#[trigger] log[i]).post.message_id@ != id {
            assert forall|i: int| 0 <= i < rest.len() implies (#[trigger] rest[i]).post.message_id@
                != id by {
                assert(rest[i] == log[i + 1]);
            }
        }
    }
}

/// Whether no two posts of a log carry one id.
pub open spec fn ids_distinct(log: Seq<Place>) -> bool {
    forall|i: int, j: int|
        0 <= i < j < log.len() ==> (#[trigger] log[i]).post.message_id@ != (
        #[trigger] log[j]).post.message_id@
}

/// A floor stays well formed when a post is put on it and when it is emptied: it holds
/// the newest posts without a gap, and never more than its capacity.
pub proof fn law_floor_stays_well_formed(floor: FloorModel, origin: Seq<char>, post: Post)
    requires
        floor.wf(),
    ensures
        floor.with(origin, post).wf(),
        floor.with(origin, post).log.len() <= floor.capacity,
        floor.with(origin, post).log.last().post == post,
        floor.cleared().wf(),
{
}

/// A floor that holds only the speaker's own posts never refuses them.
pub proof fn law_own_posts_never_count(floor: FloorModel, origin: Seq<char>, mark: nat)
    requires
        forall|i: int| 0 <= i < floor.log.len() ==> (#[trigger] floor.log[i]).origin == origin,
    ensures
        floor.unseen(origin, mark).len() == 0,
{
    lemma_nothing_unseen(floor.log, origin, mark);
}

/// Of two speakers who start from one floor, the second is refused once the first has
/// been admitted, and the first one's post is the newest of what they are handed: no
/// watermark resolves to it but the post's own id.
pub proof fn law_the_second_of_two_speakers_is_refused(
    floor: FloorModel,
    first: Seq<char>,
    post: Post,
    second: Seq<char>,
    since: nat,
    last_seen: Option<Seq<char>>,
)
    requires
        floor.wf(),
        first != second,
        since <= floor.seq,
        last_seen != Some(post.message_id@),
    ensures
        ({
            let after = floor.with(first, post);
            let unseen = after.unseen(second, after.mark(since, last_seen));
            unseen.len() > 0 && unseen.last() == post
        }),
{
    let after = floor.with(first, post);
    let mark = after.mark(since, last_seen);
    if let Some(id) = last_seen {
        lemma_position_is_in_the_log(after.log, id);
        if mark != 0 {
            let i = choose|i: int|
                0 <= i < after.log.len() && (#[trigger] after.log[i]).post.message_id@ == id
                    && after.log[i].seq == mark;
            assert(after.log.last().post == post);
            assert(i != after.log.len() - 1);
        }
    }
    assert(unread(after.log.last(), second, mark));
}

/// The newest post of a floor.
pub open spec fn newest(floor: FloorModel) -> Option<Post> {
    if floor.log.len() > 0 {
        Some(floor.log.last().post)
    } else {
        None
    }
}

proof fn lemma_no_unseen_is_empty(log: Seq<Place>, origin: Seq<char>, mark: nat)
    requires
        forall|i: int| 0 <= i < log.len() ==> !unread(#[trigger] log[i], origin, mark),
    ensures
        unseen_in(log, origin, mark) == Seq::<Post>::empty(),
{
    lemma_nothing_unseen(log, origin, mark);
    assert(unseen_in(log, origin, mark) =~= Seq::<Post>::empty());
}

/// Of two speakers who have both read everything, and say so by naming the newest post or
/// by naming none, the second is handed exactly the first one's post once that is on the
/// floor. The one exception is a floor that keeps a single post and is given another under
/// the same id.
pub proof fn law_the_second_speaker_is_handed_the_first_ones_post(
    floor: FloorModel,
    first: Seq<char>,
    post: Post,
    second: Seq<char>,
    since: nat,
    last_seen: Option<Seq<char>>,
)
    requires
        floor.wf(),
        first != second,
        since <= floor.seq,
        last_seen is Some ==> newest(floor) is Some && last_seen == Some(
            newest(floor)->0.message_id@,
        ),
        floor.unseen(second, floor.mark(since, last_seen)).len() == 0,
        !(floor.capacity == 1 && last_seen == Some(post.message_id@)),
    ensures
        ({
            let after = floor.with(first, post);
            after.unseen(second, after.mark(since, last_seen)) == seq![post]
        }),
{
    let after = floor.with(first, post);
    let mark = floor.mark(since, last_seen);
    let now = after.mark(since, last_seen);
    let older = after.log.drop_last();
    let gone = floor.log.len() + 1 - after.log.len();
    lemma_nothing_unseen(floor.log, second, mark);
    assert(after.log.last() == Place { seq: floor.seq + 1, origin: first, post });
    assert forall|i: int| 0 <= i < older.len() implies older[i] == floor.log[i + gone] by {}
    if let Some(id) = last_seen {
        lemma_position_is_in_the_log(after.log, id);
        if older.len() > 0 {
            // The newest post is still there, and the first post with its id is not behind it.
            assert(older.last() == floor.log.last());
            lemma_first_position(after.log, id, older.len() - 1);
            lemma_first_position_kept(floor.log, after.log, id, gone);
        } else {
            assert(after.log =~= seq![after.log.last()]);
            assert(after.log[0].post.message_id@ != id);
        }
    }
    assert forall|i: int| 0 <= i < older.len() implies !unread(#[trigger] older[i], second, now) by {
        assert(!unread(floor.log[i + gone], second, mark));
    }
    lemma_no_unseen_is_empty(older, second, now);
    assert(unread(after.log.last(), second, now));
    assert(after.unseen(second, now) =~= seq![post]);
}

/// The first post with an id stands no later than any post with it.
proof fn lemma_first_position(log: Seq<Place>, id: Seq<char>, at: int)
    requires
        0 <= at < log.len(),
        log[at].post.message_id@ == id,
        forall|i: int, j: int|
            0 <= i < j < log.len() ==> (#[trigger] log[i]).seq < (#[trigger] log[j]).seq,
    ensures
        position_in(log, id) <= log[at].seq,
        position_in(log, id) >= log[0].seq,
    decreases log.len(),
{
    if log[0].post.message_id@ != id {
        let rest = log.skip(1);
        assert(rest[at - 1] == log[at]);
        assert forall|i: int, j: int| 0 <= i < j < rest.len() implies (#[trigger] rest[i]).seq < (
        #[trigger] rest[j]).seq by {
            assert(rest[i] == log[i + 1]);
            assert(rest[j] == log[j + 1]);
        }
        lemma_first_position(rest, id, at - 1);
        assert(rest[0] == log[1]);
        assert(log[0].seq < log[1].seq);
    } else if at > 0 {
        assert(log[0].seq < log[at].seq);
    }
}

/// A floor that lost its oldest places finds an id no earlier than before.
proof fn lemma_first_position_kept(log: Seq<Place>, now: Seq<Place>, id: Seq<char>, gone: int)
    requires
        0 <= gone <= 1,
        now.len() == log.len() + 1 - gone,
        now.len() >= 2,
        forall|i: int| 0 <= i < now.len() - 1 ==> now[i] == #[trigger] log[i + gone],
        log.last().post.message_id@ == id,
        forall|i: int, j: int|
            0 <= i < j < log.len() ==> (#[trigger] log[i]).seq < (#[trigger] log[j]).seq,
        forall|i: int, j: int|
            0 <= i < j < now.len() ==> (#[trigger] now[i]).seq < (#[trigger] now[j]).seq,
    ensures
        position_in(log, id) <= position_in(now, id),
{
    let last = log.len() - 1;
    assert(now[last - gone] == log[last - gone + gone]);
    if gone == 1 {
        if log[0].post.message_id@ == id {
            lemma_first_position(now, id, last - 1);
            assert(now[0] == log[0 + gone]);
            assert(log[0].seq < log[1].seq);
        } else {
            assert(log.skip(1) =~= now.drop_last());
            lemma_position_of_prefix(now, id);
        }
    } else {
        assert(log =~= now.drop_last());
        lemma_position_of_prefix(now, id);
    }
}

/// A post behind one with an id does not change where that id is found.
proof fn lemma_position_of_prefix(log: Seq<Place>, id: Seq<char>)
    requires
        log.len() >= 2,
        log[log.len() - 2].post.message_id@ == id,
    ensures
        position_in(log.drop_last(), id) == position_in(log, id),
    decreases log.len(),
{
    let shorter = log.drop_last();
    assert(shorter[0] == log[0]);
    if log[0].post.message_id@ != id {
        let rest = log.skip(1);
        assert(rest.len() >= 2);
        assert(rest[rest.len() - 2] == log[log.len() - 2]);
        lemma_position_of_prefix(rest, id);
        assert(rest.drop_last() =~= shorter.skip(1));
    }
}

/// A refused speaker who then names the newest post they were handed is admitted, when
/// no two posts on the floor carry one id.
pub proof fn law_naming_the_newest_missed_post_clears(
    floor: FloorModel,
    origin: Seq<char>,
    since: nat,
    last_seen: Option<Seq<char>>,
)
    requires
        floor.wf(),
        ids_distinct(floor.log),
        floor.unseen(origin, floor.mark(since, last_seen)).len() > 0,
    ensures
        ({
            let handed = floor.unseen(origin, floor.mark(since, last_seen));
            floor.unseen(origin, floor.mark(since, Some(handed.last().message_id@))).len() == 0
        }),
{
    let mark = floor.mark(since, last_seen);
    let at = lemma_last_unseen(floor.log, origin, mark);
    let id = floor.log[at].post.message_id@;
    lemma_position_of(floor.log, at);
    let next = position_in(floor.log, id);
    assert(next == floor.log[at].seq);
    assert forall|i: int| 0 <= i < floor.log.len() implies !unread(
        #[trigger] floor.log[i],
        origin,
        next,
    ) by {
        if i > at {
            assert(!unread(floor.log[i], origin, mark));
        }
    }
    lemma_nothing_unseen(floor.log, origin, next);
}

proof fn lemma_position_of(log: Seq<Place>, at: int)
    requires
        0 <= at < log.len(),
        ids_distinct(log),
    ensures
        position_in(log, log[at].post.message_id@) == log[at].seq,
    decreases log.len(),
{
    if at > 0 {
        assert(log[0].post.message_id@ != log[at].post.message_id@);
        let rest = log.skip(1);
        assert(rest[at - 1] == log[at]);
        assert forall|i: int, j: int| 0 <= i < j < rest.len() implies (
        #[trigger] rest[i]).post.message_id@ != (#[trigger] rest[j]).post.message_id@ by {
            assert(rest[i] == log[i + 1]);
            assert(rest[j] == log[j + 1]);
        }
        lemma_position_of(rest, at - 1);
    }
}

/// A watermark that the floor cannot resolve is read as having seen nothing: every post
/// that somebody else has on the floor is handed back.
pub proof fn law_an_unknown_watermark_has_seen_nothing(
    floor: FloorModel,
    origin: Seq<char>,
    since: nat,
    id: Seq<char>,
    at: int,
)
    requires
        floor.wf(),
        forall|i: int|
            0 <= i < floor.log.len() ==> (#[trigger] floor.log[i]).post.message_id@ != id,
        0 <= at < floor.log.len(),
        floor.log[at].origin != origin,
    ensures
        floor.unseen(origin, floor.mark(since, Some(id))).contains(floor.log[at].post),
{
    lemma_position_is_in_the_log(floor.log, id);
    lemma_unseen_holds(floor.log, origin, 0, at);
}

proof fn lemma_unseen_holds(log: Seq<Place>, origin: Seq<char>, mark: nat, at: int)
    requires
        0 <= at < log.len(),
        unread(log[at], origin, mark),
    ensures
        unseen_in(log, origin, mark).contains(log[at].post),
    decreases log.len(),
{
    let all = unseen_in(log, origin, mark);
    if at == log.len() - 1 {
        assert(all.last() == log[at].post);
    } else {
        let older = log.drop_last();
        lemma_unseen_holds(older, origin, mark, at);
        let rest = unseen_in(older, origin, mark);
        let k = choose|k: int| 0 <= k < rest.len() && rest[k] == log[at].post;
        assert(all[k] == log[at].post);
    }
}

/// A speaker whose seat was taken at the newest position is owed nothing for what was
/// said before it, and an emptied floor admits whoever speaks, whatever they last saw.
pub proof fn law_nothing_is_owed_from_before_the_seat(
    floor: FloorModel,
    origin: Seq<char>,
    since: nat,
    last_seen: Option<Seq<char>>,
)
    requires
        floor.wf(),
    ensures
        floor.unseen(origin, floor.mark(floor.seq, None)).len() == 0,
        floor.cleared().unseen(origin, floor.cleared().mark(since, last_seen)).len() == 0,
{
    lemma_nothing_unseen(floor.log, origin, floor.seq);
}

/// What a speaker is handed of a missed post is that post: its id, who said it, what, to
/// whom, when, and in which colour.
pub proof fn law_a_missed_post_is_the_post_as_it_was_said(post: Post)
    ensures
        missed_of(post).message_id@ == post.message_id@,
        missed_of(post).speaker@ == post.speaker@,
        missed_of(post).hue == post.hue,
        missed_of(post).content@ == post.content@,
        missed_of(post).to == post.to,
        missed_of(post).ts@ == post.ts@,
{
}

/// What a speaker has not read is every post that somebody else has on the floor behind
/// the position they have read up to, each once, oldest first.
pub proof fn law_the_unread_are_the_posts_of_others_behind_the_watermark(
    log: Seq<Place>,
    origin: Seq<char>,
    mark: nat,
)
    ensures
        unseen_in(log, origin, mark) == log.filter(
            |place: Place| place.seq > mark && place.origin != origin,
        ).map_values(|place: Place| place.post),
    decreases log.len(),
{
    reveal(Seq::filter);
    let pred = |place: Place| place.seq > mark && place.origin != origin;
    let post = |place: Place| place.post;
    if log.len() > 0 {
        law_the_unread_are_the_posts_of_others_behind_the_watermark(log.drop_last(), origin, mark);
        let older = log.drop_last().filter(pred);
        if pred(log.last()) {
            assert(older.push(log.last()).map_values(post) =~= older.map_values(post).push(
                log.last().post,
            ));
        }
    }
    assert(unseen_in(log, origin, mark) =~= log.filter(pred).map_values(post));
}

/// A speaker who names a post has read up to that post, one who names none up to where
/// their seat was taken, and one who names a post that the floor does not hold has read
/// nothing.
pub proof fn law_a_watermark_is_where_the_named_post_stands(
    floor: FloorModel,
    since: nat,
    id: Seq<char>,
    at: int,
)
    requires
        ids_distinct(floor.log),
    ensures
        floor.mark(since, None) == since,
        0 <= at < floor.log.len() && floor.log[at].post.message_id@ == id ==> floor.mark(
            since,
            Some(id),
        ) == floor.log[at].seq,
        (forall|i: int| 0 <= i < floor.log.len() ==> (#[trigger] floor.log[i]).post.message_id@
            != id) ==> floor.mark(since, Some(id)) == 0,
{
    if 0 <= at < floor.log.len() && floor.log[at].post.message_id@ == id {
        lemma_position_of(floor.log, at);
    }
    lemma_position_is_in_the_log(floor.log, id);
}

/// A post is put behind the others, under the next position and the connection it came
/// from; the others stay as they are, and the oldest leaves only where the floor is full.
pub proof fn law_a_post_is_put_behind_the_others(floor: FloorModel, origin: Seq<char>, post: Post)
    requires
        floor.wf(),
    ensures
        ({
            let after = floor.with(origin, post);
            let full = floor.log.len() == floor.capacity;
            &&& after.seq == floor.seq + 1
            &&& after.capacity == floor.capacity
            &&& after.log.len() == floor.log.len() + if full {
                0int
            } else {
                1int
            }
            &&& after.log.last().post == post
            &&& after.log.last().origin == origin
            &&& after.log.last().seq == floor.seq + 1
            &&& forall|i: int|
                0 <= i < after.log.len() - 1 ==> #[trigger] after.log[i] == floor.log[if full {
                    i + 1
                } else {
                    i
                }]
        }),
{
}

/// An emptied floor holds nothing, numbers from the beginning, and keeps as many posts as
/// it did; a new one keeps five hundred and twelve, and one made to keep none keeps one.
pub proof fn law_a_floor_begins_empty(floor: FloorModel, fresh: Floor, capacity: usize, made: Floor)
    requires
        Floor::new.ensures((), fresh),
        Floor::with_capacity.ensures((capacity,), made),
    ensures
        floor.cleared().seq == 0,
        floor.cleared().log.len() == 0,
        floor.cleared().capacity == floor.capacity,
        fresh@.seq == 0 && fresh@.log.len() == 0 && fresh@.capacity == 512,
        made@.seq == 0 && made@.log.len() == 0,
        made@.capacity >= 1,
        capacity >= 1 ==> made@.capacity == capacity,
        capacity == 0 ==> made@.capacity == 1,
{
}

/// A speaker who names no post is heard exactly where everything that the others have on the
/// floor stands no further than where their seat was taken; one who names the only post with
/// its id, where it stands no further than that post. What is said then stands last, under
/// the next position; a speaker who is not heard changes nothing, and is handed the posts of
/// the others that stand further, in their order.
pub proof fn law_who_is_heard(
    before: Floor,
    after: Floor,
    origin: Seq<char>,
    since: nat,
    last_seen: Option<Seq<char>>,
    post: Post,
    res: Admission,
    mark: nat,
    at: int,
)
    requires
        before@.wf(),
        heard(before, after, origin, since, last_seen, post, res),
        ids_distinct(before@.log),
        match last_seen {
            None => mark == since,
            Some(id) => 0 <= at < before@.log.len() && before@.log[at].post.message_id@ == id && mark
                == before@.log[at].seq,
        },
    ensures
        res is Admitted <==> forall|i: int|
            0 <= i < before@.log.len() && (#[trigger] before@.log[i]).origin != origin
                ==> before@.log[i].seq <= mark,
        res is Admitted ==> {
            &&& res->seq == before@.seq + 1
            &&& after@.log.last().post == post
            &&& after@.log.last().origin == origin
            &&& after@.log.last().seq == before@.seq + 1
        },
        res is Unseen ==> {
            let behind = before@.log.filter(
                |place: Place| place.seq > mark && place.origin != origin,
            );
            &&& after == before
            &&& res->Unseen_0@.len() == behind.len()
            &&& forall|i: int|
                0 <= i < behind.len() ==> {
                    let handed = #[trigger] res->Unseen_0@[i];
                    &&& handed.message_id@ == behind[i].post.message_id@
                    &&& handed.speaker@ == behind[i].post.speaker@
                    &&& handed.content@ == behind[i].post.content@
                    &&& handed.to == behind[i].post.to
                    &&& handed.ts@ == behind[i].post.ts@
                    &&& handed.hue == behind[i].post.hue
                }
        },
{
    let log = before@.log;
    if let Some(id) = last_seen {
        law_a_watermark_is_where_the_named_post_stands(before@, since, id, at);
    }
    lemma_nothing_unseen(log, origin, mark);
    law_the_unread_are_the_posts_of_others_behind_the_watermark(log, origin, mark);
    law_a_post_is_put_behind_the_others(before@, origin, post);
    if forall|i: int|
        0 <= i < log.len() && (#[trigger] log[i]).origin != origin ==> log[i].seq <= mark {
        assert forall|i: int| 0 <= i < log.len() implies !unread(#[trigger] log[i], origin, mark) by {}
    }
}

/// A floor that is emptied holds nothing and numbers from the beginning, and keeps as many
/// posts as it did.
pub proof fn law_an_emptied_floor_begins_again(floor: &mut Floor)
    requires
        Floor::reset.ensures((floor,), ()),
    ensures
        final(floor)@.log.len() == 0,
        final(floor)@.seq == 0,
        final(floor)@.capacity == old(floor)@.capacity,
{
}

/// Speaking on a floor is decided by the connection, the position its seat was taken at, the
/// post it names and the post it brings, as these are given.
pub proof fn law_a_floor_hears_what_it_is_given(
    floor: &mut Floor,
    origin: &str,
    since: u64,
    last_seen: Option<&str>,
    post: Post,
    res: Admission,
    position: u64,
)
    requires
        Floor::admit_post.ensures((floor, origin, since, last_seen, post), res),
        Floor::seq.ensures((floor,), position),
    ensures
        heard(
            *old(floor),
            *final(floor),
            origin@,
            since as nat,
            opt_str(last_seen),
            post,
            res,
        ),
        position == old(floor)@.seq,
{
}

} // verus!
