//! The index of a room's topics: one entry per conversation, and the session each
//! account was in while it was open.
//!
//! The directory is what exists; the index annotates it. A topic's file without an entry
//! is adopted, and an entry without a file stays.

use vstd::prelude::*;
use vstd::string::*;

use crate::floor::Post;
use crate::ids::{fresh_id, is_hyphenated_id};
use crate::prose::{
    collapse, collapsed, law_collapsing_twice_is_collapsing_once, lemma_collapsed_is_tidy,
    lemma_tidy_collapsed,
};
use crate::text::{
    chars_of, decimal, decimal_text, first_at, holds_char, is_space, lemma_first_at,
    lemma_first_at_is, lemma_less_irreflexive, lemma_less_total, lemma_less_transitive, less,
    opt_text, same_text, starts_at, text_between, text_less, text_of, trim, trimmed,
};
use crate::text_map::TextMap;

verus! {

/// The index, as it is named inside the room's directory.
pub const INDEX_FILE: &'static str = "index.json";

/// The extension a topic's posts are kept under.
pub const TOPIC_EXTENSION: &'static str = "jsonl";

/// How long a generated title is allowed to be, in characters.
pub const TITLE_CHARS: usize = 40;

/// One post, as the log holds it.
#[derive(Debug, Clone)]
pub struct LoggedPost {
    pub message_id: String,
    pub speaker: String,
    pub content: String,
    /// The participant this was addressed to, or `None` when it was said to the room.
    pub to: Option<String>,
    pub ts: String,
}

/// One topic, as the index holds it.
#[derive(Debug, Clone)]
pub struct Topic {
    /// Opaque, minted once, and the file name of this topic's posts.
    pub topic_id: String,
    /// What the list shows. Empty until the first post lands.
    pub title: String,
    /// When it was made.
    pub created_at: String,
    /// The session each account was in while this topic was open, by account id.
    pub sessions: TextMap<String>,
}

/// The topics, oldest first.
#[derive(Debug, Clone)]
pub struct TopicIndex {
    pub topics: Vec<Topic>,
}

/// A topic that the room is in, whether or not anything has been said in it.
#[derive(Debug, Clone)]
pub struct TopicRef {
    pub topic_id: String,
    pub created_at: String,
}

// ---------------------------------------------------------------------------
// The model
// ---------------------------------------------------------------------------

/// What a topic's entry says.
pub struct TopicModel {
    pub topic_id: Seq<char>,
    pub title: Seq<char>,
    pub created_at: Seq<char>,
    pub sessions: Map<Seq<char>, Seq<char>>,
}

/// A post as the log holds it.
pub struct LoggedModel {
    pub message_id: Seq<char>,
    pub speaker: Seq<char>,
    pub content: Seq<char>,
    pub to: Option<Seq<char>>,
    pub ts: Seq<char>,
}

impl View for Topic {
    type V = TopicModel;

    open spec fn view(&self) -> TopicModel {
        TopicModel {
            topic_id: self.topic_id@,
            title: self.title@,
            created_at: self.created_at@,
            sessions: self.sessions@.map_values(|id: String| id@),
        }
    }
}

impl View for TopicIndex {
    type V = Seq<TopicModel>;

    open spec fn view(&self) -> Seq<TopicModel> {
        models(self.topics@)
    }
}

impl View for LoggedPost {
    type V = LoggedModel;

    open spec fn view(&self) -> LoggedModel {
        LoggedModel {
            message_id: self.message_id@,
            speaker: self.speaker@,
            content: self.content@,
            to: opt_text(self.to),
            ts: self.ts@,
        }
    }
}

/// What the entries of a list say.
pub open spec fn models(topics: Seq<Topic>) -> Seq<TopicModel> {
    topics.map_values(|topic: Topic| topic@)
}

/// The ids of a list of entries.
pub open spec fn ids(topics: Seq<TopicModel>) -> Seq<Seq<char>> {
    topics.map_values(|topic: TopicModel| topic.topic_id)
}

/// Where the first entry with an id stands; the length of the list where none does.
pub open spec fn place_of(topics: Seq<TopicModel>, id: Seq<char>) -> int {
    first_at(ids(topics), id)
}

/// Whether a list has an entry with an id.
pub open spec fn names_topic(topics: Seq<TopicModel>, id: Seq<char>) -> bool {
    place_of(topics, id) < topics.len()
}

/// An entry that nothing has been said in and nobody was in.
pub open spec fn bare_topic(id: Seq<char>, created_at: Seq<char>) -> TopicModel {
    TopicModel { topic_id: id, title: Seq::empty(), created_at, sessions: Map::empty() }
}

/// The list with an entry for an id: as it is where it has one.
pub open spec fn realized(topics: Seq<TopicModel>, id: Seq<char>, created_at: Seq<char>) -> Seq<
    TopicModel,
> {
    if names_topic(topics, id) {
        topics
    } else {
        topics.push(bare_topic(id, created_at))
    }
}

/// The list without the entries of an id.
pub open spec fn without_topic(topics: Seq<TopicModel>, id: Seq<char>) -> Seq<TopicModel>
    decreases topics.len(),
{
    if topics.len() == 0 {
        Seq::empty()
    } else if topics.last().topic_id == id {
        without_topic(topics.drop_last(), id)
    } else {
        without_topic(topics.drop_last(), id).push(topics.last())
    }
}

/// Whether the list holds this session of an account in a topic.
pub open spec fn holds_session(
    topics: Seq<TopicModel>,
    topic_id: Seq<char>,
    account_id: Seq<char>,
    session_id: Seq<char>,
) -> bool {
    let at = place_of(topics, topic_id);
    &&& at < topics.len()
    &&& topics[at].sessions.contains_key(account_id)
    &&& topics[at].sessions[account_id] == session_id
}

/// A list with one entry's sessions changed.
pub open spec fn with_sessions(
    topics: Seq<TopicModel>,
    at: int,
    sessions: Map<Seq<char>, Seq<char>>,
) -> Seq<TopicModel> {
    topics.update(at, TopicModel { sessions, ..topics[at] })
}

/// What comes of taking one account's session off a topic.
pub open spec fn session_taken(
    before: Seq<TopicModel>,
    after: Seq<TopicModel>,
    topic_id: Seq<char>,
    account_id: Seq<char>,
    session_id: Seq<char>,
    taken: bool,
) -> bool {
    &&& taken == holds_session(before, topic_id, account_id, session_id)
    &&& after == (if taken {
        let at = place_of(before, topic_id);
        with_sessions(before, at, before[at].sessions.remove(account_id))
    } else {
        before
    })
}

/// What comes of recording an account's session in a topic.
pub open spec fn session_recorded(
    before: Seq<TopicModel>,
    after: Seq<TopicModel>,
    topic: TopicRef,
    account_id: Seq<char>,
    session_id: Seq<char>,
) -> bool {
    let now = realized(before, topic.topic_id@, topic.created_at@);
    let at = place_of(now, topic.topic_id@);
    after == with_sessions(now, at, now[at].sessions.insert(account_id, session_id))
}

/// What comes of the first thing said in a topic.
pub open spec fn opened_by_post(
    before: Seq<TopicModel>,
    after: Seq<TopicModel>,
    topic: TopicRef,
    content: Seq<char>,
) -> bool {
    let now = realized(before, topic.topic_id@, topic.created_at@);
    let at = place_of(now, topic.topic_id@);
    after == now.update(
        at,
        TopicModel {
            title: if now[at].title.len() == 0 {
                title_of(content)
            } else {
                now[at].title
            },
            ..now[at]
        },
    )
}

pub proof fn lemma_place_of(topics: Seq<TopicModel>, id: Seq<char>)
    ensures
        0 <= place_of(topics, id) <= topics.len(),
        forall|i: int|
            0 <= i < place_of(topics, id) ==> (#[trigger] topics[i]).topic_id != id,
        names_topic(topics, id) ==> topics[place_of(topics, id)].topic_id == id,
        names_topic(topics, id) <==> exists|i: int|
            0 <= i < topics.len() && (#[trigger] topics[i]).topic_id == id,
{
    lemma_first_at(ids(topics), id);
    assert forall|i: int| 0 <= i < place_of(topics, id) implies (#[trigger] topics[i]).topic_id
        != id by {
        assert(ids(topics)[i] != id);
    }
    if names_topic(topics, id) {
        assert(ids(topics)[place_of(topics, id)] == id);
    }
}

proof fn lemma_place_is(topics: Seq<TopicModel>, id: Seq<char>, at: int)
    requires
        0 <= at <= topics.len(),
        forall|i: int| 0 <= i < at ==> (#[trigger] topics[i]).topic_id != id,
        at < topics.len() ==> topics[at].topic_id == id,
    ensures
        place_of(topics, id) == at,
{
    assert forall|i: int| 0 <= i < at implies ids(topics)[i] != id by {
        assert(topics[i].topic_id != id);
    }
    lemma_first_at_is(ids(topics), id, at);
}

// ---------------------------------------------------------------------------
// The index
// ---------------------------------------------------------------------------

impl Default for TopicIndex {
    fn default() -> (index: Self)
        ensures
            index.wf(),
            index@ == Seq::<TopicModel>::empty(),
    {
        let index = TopicIndex { topics: Vec::new() };
        proof {
            assert(index@ =~= Seq::<TopicModel>::empty());
        }
        index
    }
}

impl TopicIndex {
    /// Every entry keeps its sessions in order.
    pub open spec fn wf(&self) -> bool {
        forall|i: int| 0 <= i < self.topics@.len() ==> (#[trigger] self.topics@[i]).sessions.wf()
    }

    /// Where the first entry with an id stands.
    fn position(&self, topic_id: &str) -> (at: usize)
        ensures
            at == place_of(self@, topic_id@),
            at <= self.topics@.len(),
    {
        let mut at: usize = 0;
        while at < self.topics.len() && !same_text(self.topics[at].topic_id.as_str(), topic_id)
            invariant
                at <= self.topics@.len(),
                forall|i: int| 0 <= i < at ==> (#[trigger] self@[i]).topic_id != topic_id@,
            decreases self.topics@.len() - at,
        {
            proof {
                assert(self@[at as int] == self.topics@[at as int]@);
            }
            at = at + 1;
        }
        proof {
            if at < self.topics@.len() {
                assert(self@[at as int] == self.topics@[at as int]@);
            }
            lemma_place_is(self@, topic_id@, at as int);
        }
        at
    }

    /// The entry with an id.
    pub fn find(&self, topic_id: &str) -> (res: Option<&Topic>)
        ensures
            match res {
                Some(topic) => names_topic(self@, topic_id@) && *topic == self.topics@[place_of(
                    self@,
                    topic_id@,
                )],
                None => !names_topic(self@, topic_id@),
            },
    {
        let at = self.position(topic_id);
        if at < self.topics.len() {
            Some(&self.topics[at])
        } else {
            None
        }
    }

    /// The entry with an id, to change.
    pub fn find_mut(&mut self, topic_id: &str) -> (res: Option<&mut Topic>)
        ensures
            match res {
                Some(topic) => {
                    let at = place_of(old(self)@, topic_id@);
                    &&& names_topic(old(self)@, topic_id@)
                    &&& *topic == old(self).topics@[at]
                    &&& final(self).topics@ == old(self).topics@.update(at, *final(topic))
                },
                None => !names_topic(old(self)@, topic_id@) && *final(self) == *old(self),
            },
    {
        let at = self.position(topic_id);
        if at < self.topics.len() {
            Some(&mut self.topics[at])
        } else {
            None
        }
    }

    /// Make sure `topic_id` has an entry, and hand back a mutable hold on it.
    pub fn realize(&mut self, topic_id: &str, created_at: &str) -> (topic: &mut Topic)
        requires
            old(self).wf(),
        ensures
            ({
                let now = realized(old(self)@, topic_id@, created_at@);
                let at = place_of(now, topic_id@);
                &&& 0 <= at < now.len()
                &&& now[at].topic_id == topic_id@
                &&& topic@ == now[at]
                &&& topic.sessions.wf()
                &&& final(self)@ == now.update(at, final(topic)@)
                &&& final(topic).sessions.wf() ==> final(self).wf()
            }),
    {
        let at = self.position(topic_id);
        let ghost before = self@;
        proof {
            lemma_place_of(before, topic_id@);
        }
        if at == self.topics.len() {
            let topic = Topic {
                topic_id: topic_id.to_owned(),
                title: String::new(),
                created_at: created_at.to_owned(),
                sessions: TextMap::new(),
            };
            proof {
                assert(topic@.sessions =~= Map::<Seq<char>, Seq<char>>::empty());
                assert(topic@.title =~= Seq::<char>::empty());
                assert(topic@ == bare_topic(topic_id@, created_at@));
            }
            self.topics.push(topic);
            proof {
                assert(self@ =~= before.push(bare_topic(topic_id@, created_at@)));
                lemma_place_is(self@, topic_id@, at as int);
            }
        }
        let ghost now = self.topics@;
        proof {
            assert(self@ == realized(before, topic_id@, created_at@));
            assert(forall|t: Topic| models(now.update(at as int, t)) =~= models(now).update(
                at as int,
                #[trigger] t@,
            ));
        }
        &mut self.topics[at]
    }

    /// Take one account's session id off a topic, when the topic still holds exactly that
    /// id. Answers whether anything was taken.
    pub fn forget_session(&mut self, topic_id: &str, account_id: &str, session_id: &str) -> (taken:
        bool)
        requires
            old(self).wf(),
        ensures
            final(self).wf(),
            session_taken(
                old(self)@,
                final(self)@,
                topic_id@,
                account_id@,
                session_id@,
                taken,
            ),
    {
        let at = self.position(topic_id);
        let ghost before = self@;
        if at == self.topics.len() {
            return false;
        }
        proof {
            assert(before[at as int] == self.topics@[at as int]@);
        }
        let same = match self.topics[at].sessions.get(account_id) {
            Some(held) => same_text(held.as_str(), session_id),
            None => false,
        };
        if !same {
            return false;
        }
        let topic: &mut Topic = &mut self.topics[at];
        let ghost sessions = topic.sessions@;
        let taken = topic.sessions.remove(account_id).is_some();
        proof {
            let now = self.topics@[at as int]@;
            assert(now.sessions =~= before[at as int].sessions.remove(account_id@));
            assert(self@ =~= with_sessions(before, at as int, now.sessions));
        }
        taken
    }

    /// Take one topic's entry out. Answers whether there was one.
    pub fn forget(&mut self, topic_id: &str) -> (gone: bool)
        requires
            old(self).wf(),
        ensures
            final(self).wf(),
            final(self)@ == without_topic(old(self)@, topic_id@),
            gone == names_topic(old(self)@, topic_id@),
    {
        let ghost before = self@;
        let ghost all = self.topics@;
        let mut kept: Vec<Topic> = Vec::new();
        let mut taken: Vec<Topic> = Vec::new();
        core::mem::swap(&mut self.topics, &mut taken);
        let mut gone: bool = false;
        proof {
            assert(models(kept@) =~= without_topic(before.take(0), topic_id@));
        }
        let ghost mut i: int = 0;
        while taken.len() > 0
            invariant
                0 <= i <= all.len(),
                taken@ == all.skip(i),
                before == models(all),
                models(kept@) == without_topic(before.take(i), topic_id@),
                forall|j: int| 0 <= j < all.len() ==> (#[trigger] all[j]).sessions.wf(),
                forall|j: int| 0 <= j < kept@.len() ==> (#[trigger] kept@[j]).sessions.wf(),
                gone == exists|j: int| 0 <= j < i && (#[trigger] before[j]).topic_id == topic_id@,
            decreases taken@.len(),
        {
            let ghost done = models(kept@);
            let topic = taken.remove(0);
            proof {
                assert(topic == all[i]);
                assert(taken@ =~= all.skip(i + 1));
                assert(before.take(i + 1).drop_last() =~= before.take(i));
                assert(before.take(i + 1).last() == topic@);
                assert(before[i] == topic@);
            }
            if same_text(topic.topic_id.as_str(), topic_id) {
                gone = true;
            } else {
                kept.push(topic);
                proof {
                    assert(models(kept@) =~= done.push(topic@));
                }
            }
            proof {
                i = i + 1;
            }
        }
        proof {
            assert(i == all.len());
            assert(before.take(i) =~= before);
            lemma_place_of(before, topic_id@);
        }
        self.topics = kept;
        gone
    }

    /// The session an account was in while a topic was open, if one is on record.
    pub fn session_of(&self, topic_id: &str, account_id: &str) -> (res: Option<String>)
        requires
            self.wf(),
        ensures
            match res {
                Some(id) => holds_session(self@, topic_id@, account_id@, id@),
                None => !names_topic(self@, topic_id@) || !self@[place_of(
                    self@,
                    topic_id@,
                )].sessions.contains_key(account_id@),
            },
    {
        proof {
            lemma_place_of(self@, topic_id@);
        }
        match self.find(topic_id) {
            Some(topic) => match topic.sessions.get(account_id) {
                Some(id) => Some(id.clone()),
                None => None,
            },
            None => None,
        }
    }

    /// Record which session an account was launched into a topic under. The topic is
    /// given an entry where it has none.
    pub fn record_session(&mut self, topic: &TopicRef, account_id: &str, session_id: &str)
        requires
            old(self).wf(),
        ensures
            final(self).wf(),
            session_recorded(old(self)@, final(self)@, *topic, account_id@, session_id@),
    {
        let entry = self.realize(topic.topic_id.as_str(), topic.created_at.as_str());
        let ghost before = entry@;
        let session = session_id.to_owned();
        let _ = entry.sessions.insert(account_id.to_owned(), session);
        proof {
            assert(entry@.sessions =~= before.sessions.insert(account_id@, session_id@));
        }
    }

    /// Give a topic its entry and, where it has no title yet, a title from the first
    /// thing said in it.
    pub fn realize_from_first_post(&mut self, topic: &TopicRef, content: &str)
        requires
            old(self).wf(),
        ensures
            final(self).wf(),
            opened_by_post(old(self)@, final(self)@, *topic, content@),
    {
        let entry = self.realize(topic.topic_id.as_str(), topic.created_at.as_str());
        if entry.title.as_str().unicode_len() == 0 {
            entry.title = title_from(content);
        }
    }
}

// ---------------------------------------------------------------------------
// Names of files
// ---------------------------------------------------------------------------

/// The file of a topic's posts.
pub open spec fn topic_file(topic_id: Seq<char>) -> Seq<char> {
    topic_id + "."@ + TOPIC_EXTENSION@
}

/// Where the index lives inside the room's directory: the file to join to it.
pub fn index_path() -> (file: String)
    ensures
        file@ == INDEX_FILE@,
{
    INDEX_FILE.to_owned()
}

/// Where one topic's posts live inside the room's directory: the file to join to it.
pub fn topic_path(topic_id: &str) -> (file: String)
    ensures
        file@ == topic_file(topic_id@),
{
    let mut file: String = topic_id.to_owned();
    file.append(".");
    file.append(TOPIC_EXTENSION);
    file
}

/// The topic that a file of the room's directory belongs to: what stands before the
/// extension of posts, where the file has that extension and a name before it.
pub open spec fn topic_in_file(file: Seq<char>) -> Option<Seq<char>> {
    let cut = file.len() - 6;
    if cut > 0 && file.skip(cut) == "."@ + TOPIC_EXTENSION@ {
        Some(file.take(cut))
    } else {
        None
    }
}

/// The topic that a file of the room's directory belongs to.
pub fn topic_of_file(file: &str) -> (res: Option<String>)
    ensures
        opt_text(res) == topic_in_file(file@),
{
    let chars = chars_of(file);
    let mut ending = chars_of(".");
    let mut extension = chars_of(TOPIC_EXTENSION);
    ending.append(&mut extension);
    proof {
        reveal_strlit(".");
        reveal_strlit("jsonl");
    }
    if chars.len() <= 6 {
        return None;
    }
    let cut: usize = chars.len() - 6;
    proof {
        let rest = chars@.skip(cut as int);
        assert(rest.take(6) =~= rest);
        assert(chars@.subrange(0, cut as int) =~= chars@.take(cut as int));
    }
    if starts_at(&chars, cut, &ending) {
        Some(text_between(&chars, 0, cut))
    } else {
        None
    }
}

/// A topic's file belongs to that topic.
pub proof fn law_a_topic_is_told_from_its_file(topic_id: Seq<char>)
    requires
        topic_id.len() > 0,
    ensures
        topic_in_file(topic_file(topic_id)) == Some(topic_id),
{
    reveal_strlit(".");
    reveal_strlit("jsonl");
    let file = topic_file(topic_id);
    assert(file.skip(file.len() - 6) =~= "."@ + TOPIC_EXTENSION@);
    assert(file.take(file.len() - 6) =~= topic_id);
}

/// Whether an id names one file in a directory and nothing else.
pub open spec fn is_one_file(topic_id: Seq<char>) -> bool {
    &&& topic_id.len() > 0
    &&& !topic_id.contains('/')
    &&& !topic_id.contains('\\')
    &&& !topic_id.contains(':')
    &&& topic_id != "."@
    &&& topic_id != ".."@
}

/// Whether `topic_id` names one file in the room's directory and nothing else.
pub fn names_one_file(topic_id: &str) -> (res: bool)
    ensures
        res == is_one_file(topic_id@),
{
    topic_id.unicode_len() > 0 && !holds_char(topic_id, '/') && !holds_char(topic_id, '\\')
        && !holds_char(topic_id, ':') && !same_text(topic_id, ".") && !same_text(topic_id, "..")
}

/// A fresh id names one file.
pub proof fn law_a_fresh_id_names_one_file(id: Seq<char>)
    requires
        is_hyphenated_id(id),
    ensures
        is_one_file(id),
{
    reveal_strlit(".");
    reveal_strlit("..");
    assert forall|i: int| 0 <= i < id.len() implies id[i] != '/' && id[i] != '\\' && id[i] != ':' by {
        assert(id[i] == '-' || crate::ids::is_id_digit(id[i]));
    }
}

// ---------------------------------------------------------------------------
// Titles
// ---------------------------------------------------------------------------

/// A title from the first thing said: its white space collapsed, and cut where it is
/// longer than a title may be, with a mark at the cut.
pub open spec fn title_of(content: Seq<char>) -> Seq<char> {
    let flat = collapsed(content);
    if flat.len() > TITLE_CHARS {
        flat.take(TITLE_CHARS as int).push('…')
    } else {
        flat
    }
}

/// A title from the opening of the first thing said in the topic.
pub fn title_from(content: &str) -> (title: String)
    ensures
        title@ == title_of(content@),
{
    let flat = collapse(content);
    if flat.len() > TITLE_CHARS {
        let mut title = text_between(&flat, 0, TITLE_CHARS);
        proof {
            assert(title@ =~= flat@.take(TITLE_CHARS as int));
        }
        title.push('…');
        title
    } else {
        text_of(&flat)
    }
}

/// A title is its own title, and collapsing what was said before a title is taken from it
/// changes nothing.
pub proof fn law_a_title_is_its_own_title(content: Seq<char>)
    ensures
        title_of(title_of(content)) == title_of(content),
        title_of(collapsed(content)) == title_of(content),
        title_of(content).len() <= TITLE_CHARS + 1,
{
    let flat = collapsed(content);
    let title = title_of(content);
    law_collapsing_twice_is_collapsing_once(content);
    if flat.len() > TITLE_CHARS {
        let cut = flat.take(TITLE_CHARS as int);
        lemma_collapsed_is_tidy(content);
        assert forall|i: int| 0 <= i < title.len() && is_space(#[trigger] title[i]) implies title[i]
            == ' ' by {
            assert(i < TITLE_CHARS);
            assert(title[i] == flat[i]);
        }
        assert forall|i: int| 0 <= i < title.len() - 1 && is_space(
            #[trigger] title[i],
        ) implies !is_space(title[i + 1]) by {
            assert(title[i] == flat[i]);
            if i + 1 < TITLE_CHARS {
                assert(title[i + 1] == flat[i + 1]);
            }
        }
        assert(title[0] == flat[0]);
        lemma_tidy_collapsed(title);
        assert(title.take(TITLE_CHARS as int) =~= cut);
    }
}

// ---------------------------------------------------------------------------
// Posts
// ---------------------------------------------------------------------------

/// What of a post is kept in the log: who said what to whom, and when.
pub open spec fn logged_of(post: Post) -> LoggedModel {
    LoggedModel {
        message_id: post.message_id@,
        speaker: post.speaker@,
        content: post.content@,
        to: opt_text(post.to),
        ts: post.ts@,
    }
}

/// What of a post is kept in the log.
pub fn logged(post: &Post) -> (res: LoggedPost)
    ensures
        res@ == logged_of(*post),
{
    LoggedPost {
        message_id: post.message_id.clone(),
        speaker: post.speaker.clone(),
        content: post.content.clone(),
        to: post.to.clone(),
        ts: post.ts.clone(),
    }
}

/// Whether anything has been said in a topic, by the size of its file, if it has one.
pub fn has_posts(size: Option<u64>) -> (res: bool)
    ensures
        res == (size is Some && size->0 > 0),
{
    match size {
        Some(size) => size > 0,
        None => false,
    }
}

/// The posts among what came of reading the lines of a log.
pub open spec fn readable_posts(lines: Seq<Option<LoggedPost>>) -> Seq<LoggedPost>
    decreases lines.len(),
{
    if lines.len() == 0 {
        Seq::empty()
    } else {
        match lines.last() {
            Some(post) => readable_posts(lines.drop_last()).push(post),
            None => readable_posts(lines.drop_last()),
        }
    }
}

/// One topic's posts, oldest first, and how many lines did not parse, given what came of
/// each line of the log.
pub fn read_posts(lines: Vec<Option<LoggedPost>>) -> (res: (Vec<LoggedPost>, usize))
    ensures
        res.0@ == readable_posts(lines@),
        res.0@.len() + res.1 == lines@.len(),
{
    let ghost all = lines@;
    let mut rest = lines;
    let mut posts: Vec<LoggedPost> = Vec::new();
    let mut skipped: usize = 0;
    let count: usize = rest.len();
    let ghost mut i: int = 0;
    proof {
        assert(all.skip(0) =~= all);
        assert(posts@ =~= readable_posts(all.take(0)));
    }
    while rest.len() > 0
        invariant
            0 <= i <= all.len(),
            count == all.len(),
            rest@ == all.skip(i),
            posts@ == readable_posts(all.take(i)),
            posts@.len() + skipped == i,
        decreases rest@.len(),
    {
        let line = rest.remove(0);
        proof {
            assert(line == all[i]);
            assert(rest@ =~= all.skip(i + 1));
            assert(all.take(i + 1).drop_last() =~= all.take(i));
            assert(all.take(i + 1).last() == line);
        }
        match line {
            Some(post) => {
                posts.push(post);
            },
            None => {
                skipped = skipped + 1;
            },
        }
        proof {
            i = i + 1;
        }
    }
    proof {
        assert(all.take(i) =~= all);
    }
    (posts, skipped)
}

/// What the screen is told of lines that could not be read, where there were any.
pub fn unreadable_report(skipped: usize) -> (res: Option<String>)
    ensures
        opt_text(res) == (if skipped > 0 {
            Some("読めなかった記録が "@ + decimal(skipped as nat) + " 件あります"@)
        } else {
            None
        }),
{
    if skipped > 0 {
        let mut text: String = "読めなかった記録が ".to_owned();
        text.append(decimal_text(skipped as u64).as_str());
        text.append(" 件あります");
        Some(text)
    } else {
        None
    }
}

// ---------------------------------------------------------------------------
// Reading the index
// ---------------------------------------------------------------------------

/// A topic's file as it was found: the topic, and the first post that could be read in it.
pub struct TopicFile {
    pub topic_id: String,
    pub first: Option<LoggedPost>,
}

/// What a found file says.
pub struct FileModel {
    pub topic_id: Seq<char>,
    pub first: Option<LoggedModel>,
}

impl View for TopicFile {
    type V = FileModel;

    open spec fn view(&self) -> FileModel {
        FileModel {
            topic_id: self.topic_id@,
            first: match self.first {
                Some(post) => Some(post@),
                None => None,
            },
        }
    }
}

/// What found files say.
pub open spec fn file_models(files: Seq<TopicFile>) -> Seq<FileModel> {
    files.map_values(|file: TopicFile| file@)
}

/// The entry that a file is adopted under: titled and dated by its first post, where it
/// has one.
pub open spec fn adopted_topic(file: FileModel, fallback: Seq<char>) -> TopicModel {
    TopicModel {
        topic_id: file.topic_id,
        title: match file.first {
            Some(post) => title_of(post.content),
            None => Seq::empty(),
        },
        created_at: match file.first {
            Some(post) => post.ts,
            None => fallback,
        },
        sessions: Map::empty(),
    }
}

/// The list with an entry for every file that it does not name.
pub open spec fn adopted(
    topics: Seq<TopicModel>,
    files: Seq<FileModel>,
    fallback: Seq<char>,
) -> Seq<TopicModel>
    decreases files.len(),
{
    if files.len() == 0 {
        topics
    } else {
        let so_far = adopted(topics, files.drop_last(), fallback);
        if names_topic(so_far, files.last().topic_id) {
            so_far
        } else {
            so_far.push(adopted_topic(files.last(), fallback))
        }
    }
}

/// Give an entry to every topic file the index does not name. Answers whether it changed
/// anything.
pub fn adopt_orphans(index: &mut TopicIndex, files: &[TopicFile], fallback_created_at: &str) -> (changed:
    bool)
    requires
        old(index).wf(),
    ensures
        final(index).wf(),
        final(index)@ == adopted(old(index)@, file_models(files@), fallback_created_at@),
        changed == (final(index)@.len() > old(index)@.len()),
{
    let ghost found = file_models(files@);
    let ghost before = index@;
    let mut changed: bool = false;
    let mut i: usize = 0;
    while i < files.len()
        invariant
            i <= files@.len(),
            found == file_models(files@),
            index.wf(),
            index@ == adopted(before, found.take(i as int), fallback_created_at@),
            index@.len() >= before.len(),
            changed == (index@.len() > before.len()),
        decreases files@.len() - i,
    {
        let file = &files[i];
        let ghost so_far = index@;
        proof {
            assert(found.take(i + 1).drop_last() =~= found.take(i as int));
            assert(found.take(i + 1).last() == file@);
        }
        if index.find(file.topic_id.as_str()).is_none() {
            let (title, created_at) = match &file.first {
                Some(post) => (title_from(post.content.as_str()), post.ts.clone()),
                None => (String::new(), fallback_created_at.to_owned()),
            };
            let topic = Topic {
                topic_id: file.topic_id.clone(),
                title,
                created_at,
                sessions: TextMap::new(),
            };
            proof {
                assert(topic@.sessions =~= Map::<Seq<char>, Seq<char>>::empty());
                assert(topic@ == adopted_topic(file@, fallback_created_at@));
            }
            index.topics.push(topic);
            changed = true;
            proof {
                assert(index@ =~= so_far.push(adopted_topic(file@, fallback_created_at@)));
            }
        }
        i = i + 1;
    }
    proof {
        assert(found.take(found.len() as int) =~= found);
    }
    changed
}

/// Whether one entry stands before another: by when it was made, then by its id.
pub open spec fn older(a: TopicModel, b: TopicModel) -> bool {
    text_less(a.created_at, b.created_at) || (a.created_at == b.created_at && text_less(
        a.topic_id,
        b.topic_id,
    ))
}

/// Whether no entry stands behind an older one.
pub open spec fn oldest_first(topics: Seq<TopicModel>) -> bool {
    forall|i: int, j: int|
        0 <= i < j < topics.len() ==> !older(#[trigger] topics[j], #[trigger] topics[i])
}

/// The entries with one id that were made at one time, in their order.
pub open spec fn alike(topics: Seq<TopicModel>, id: Seq<char>, created_at: Seq<char>) -> Seq<
    TopicModel,
>
    decreases topics.len(),
{
    if topics.len() == 0 {
        Seq::empty()
    } else {
        let before = alike(topics.drop_last(), id, created_at);
        if topics.last().topic_id == id && topics.last().created_at == created_at {
            before.push(topics.last())
        } else {
            before
        }
    }
}

/// Whether a list is another one put in order: the oldest first, and entries that neither
/// precedes as they stood.
pub open spec fn put_in_order(topics: Seq<TopicModel>, now: Seq<TopicModel>) -> bool {
    &&& oldest_first(now)
    &&& now.len() == topics.len()
    &&& forall|id: Seq<char>, created_at: Seq<char>| #[trigger]
        alike(now, id, created_at) == alike(topics, id, created_at)
}

proof fn lemma_older_total(a: TopicModel, b: TopicModel)
    ensures
        older(a, b) || older(b, a) || (a.topic_id == b.topic_id && a.created_at == b.created_at),
        !(older(a, b) && older(b, a)),
{
    lemma_less_total(a.created_at, b.created_at);
    lemma_less_total(a.topic_id, b.topic_id);
    if text_less(a.created_at, b.created_at) && text_less(b.created_at, a.created_at) {
        lemma_less_transitive(a.created_at, b.created_at, a.created_at);
    }
    if text_less(a.topic_id, b.topic_id) && text_less(b.topic_id, a.topic_id) {
        lemma_less_transitive(a.topic_id, b.topic_id, a.topic_id);
    }
    lemma_less_irreflexive(a.created_at);
    lemma_less_irreflexive(a.topic_id);
}

proof fn lemma_not_older_transitive(a: TopicModel, b: TopicModel, c: TopicModel)
    requires
        !older(b, a),
        !older(c, b),
    ensures
        !older(c, a),
{
    lemma_older_total(a, b);
    lemma_older_total(b, c);
    lemma_older_total(a, c);
    if older(a, b) && older(b, c) {
        if text_less(a.created_at, b.created_at) && text_less(b.created_at, c.created_at) {
            lemma_less_transitive(a.created_at, b.created_at, c.created_at);
        }
        if text_less(a.topic_id, b.topic_id) && text_less(b.topic_id, c.topic_id) {
            lemma_less_transitive(a.topic_id, b.topic_id, c.topic_id);
        }
    }
}

proof fn lemma_alike_of_insert(
    topics: Seq<TopicModel>,
    at: int,
    topic: TopicModel,
    id: Seq<char>,
    created_at: Seq<char>,
)
    requires
        0 <= at <= topics.len(),
        forall|i: int|
            at <= i < topics.len() ==> (#[trigger] topics[i]).topic_id != topic.topic_id
                || topics[i].created_at != topic.created_at,
    ensures
        alike(topics.insert(at, topic), id, created_at) == alike(
            topics.push(topic),
            id,
            created_at,
        ),
    decreases topics.len(),
{
    let now = topics.insert(at, topic);
    if at == topics.len() {
        assert(now =~= topics.push(topic));
    } else {
        let shorter = topics.drop_last();
        assert forall|i: int| at <= i < shorter.len() implies (
        #[trigger] shorter[i]).topic_id != topic.topic_id || shorter[i].created_at
            != topic.created_at by {
            assert(shorter[i] == topics[i]);
        }
        lemma_alike_of_insert(shorter, at, topic, id, created_at);
        assert(now.drop_last() =~= shorter.insert(at, topic));
        assert(now.last() == topics.last());
        reveal_with_fuel(alike, 3);
        let last = topics[topics.len() - 1];
        assert(last.topic_id != topic.topic_id || last.created_at != topic.created_at);
        assert(shorter.push(topic).last() == topic);
        assert(topics.push(topic).last() == topic);
        assert(shorter.push(topic).drop_last() =~= shorter);
        assert(topics.push(topic).drop_last() =~= topics);
    }
}

/// Put the entries in order, the oldest first.
pub fn sort_topics(topics: Vec<Topic>) -> (res: Vec<Topic>)
    requires
        forall|i: int| 0 <= i < topics@.len() ==> (#[trigger] topics@[i]).sessions.wf(),
    ensures
        put_in_order(models(topics@), models(res@)),
        forall|i: int| 0 <= i < res@.len() ==> (#[trigger] res@[i]).sessions.wf(),
{
    let ghost all = topics@;
    let ghost before = models(all);
    let mut rest = topics;
    let mut res: Vec<Topic> = Vec::new();
    let ghost mut i: int = 0;
    proof {
        assert(all.skip(0) =~= all);
        assert(models(res@) =~= before.take(0));
    }
    while rest.len() > 0
        invariant
            0 <= i <= all.len(),
            before == models(all),
            rest@ == all.skip(i),
            put_in_order(before.take(i), models(res@)),
            forall|j: int| 0 <= j < all.len() ==> (#[trigger] all[j]).sessions.wf(),
            forall|j: int| 0 <= j < res@.len() ==> (#[trigger] res@[j]).sessions.wf(),
        decreases rest@.len(),
    {
        let topic = rest.remove(0);
        let ghost sorted = models(res@);
        let ghost model = topic@;
        proof {
            assert(topic == all[i]);
            assert(rest@ =~= all.skip(i + 1));
        }
        let mut at: usize = res.len();
        while at > 0 && is_older(&topic, &res[at - 1])
            invariant
                at <= res@.len(),
                sorted == models(res@),
                model == topic@,
                forall|j: int| at <= j < sorted.len() ==> older(model, #[trigger] sorted[j]),
            decreases at,
        {
            proof {
                assert(sorted[at - 1] == res@[at - 1]@);
            }
            at = at - 1;
        }
        res.insert(at, topic);
        proof {
            let now = models(res@);
            assert(now =~= sorted.insert(at as int, model));
            if at > 0 {
                assert(!older(model, sorted[at - 1]));
            }
            assert forall|a: int, b: int| 0 <= a < b < now.len() implies !older(
                #[trigger] now[b],
                #[trigger] now[a],
            ) by {
                if b == at {
                    assert(now[a] == sorted[a]);
                    if a < at - 1 {
                        assert(!older(sorted[at - 1], sorted[a]));
                        lemma_not_older_transitive(sorted[a], sorted[at - 1], model);
                    }
                } else if a == at {
                    assert(now[b] == sorted[b - 1]);
                    assert(older(model, sorted[b - 1]));
                    lemma_older_total(model, sorted[b - 1]);
                } else {
                    let c = if a < at {
                        a
                    } else {
                        a - 1
                    };
                    let d = if b < at {
                        b
                    } else {
                        b - 1
                    };
                    assert(now[a] == sorted[c]);
                    assert(now[b] == sorted[d]);
                    assert(!older(sorted[d], sorted[c]));
                }
            }
            assert(before.take(i + 1) =~= before.take(i).push(model));
            assert forall|id: Seq<char>, created_at: Seq<char>| #[trigger]
                alike(now, id, created_at) == alike(before.take(i + 1), id, created_at) by {
                assert forall|j: int| at <= j < sorted.len() implies (
                #[trigger] sorted[j]).topic_id != model.topic_id || sorted[j].created_at
                    != model.created_at by {
                    assert(older(model, sorted[j]));
                    lemma_less_irreflexive(model.created_at);
                    lemma_less_irreflexive(model.topic_id);
                }
                lemma_alike_of_insert(sorted, at as int, model, id, created_at);
                assert(sorted.push(model).drop_last() =~= sorted);
                assert(before.take(i + 1).drop_last() =~= before.take(i));
                assert(alike(sorted, id, created_at) == alike(before.take(i), id, created_at));
            }
            i = i + 1;
        }
    }
    proof {
        assert(before.take(i) =~= before);
    }
    res
}

fn is_older(a: &Topic, b: &Topic) -> (res: bool)
    ensures
        res == older(a@, b@),
{
    less(a.created_at.as_str(), b.created_at.as_str()) || (same_text(
        a.created_at.as_str(),
        b.created_at.as_str(),
    ) && less(a.topic_id.as_str(), b.topic_id.as_str()))
}

/// What the index file says.
pub open spec fn found_topics(found: Option<TopicIndex>) -> Seq<TopicModel> {
    match found {
        Some(index) => index@,
        None => Seq::empty(),
    }
}

/// Reconcile the index, if there was one, with the files of the directory. The second
/// half of the answer is whether the index should be written back: something was adopted,
/// or there was none to begin with.
pub fn read(found: Option<TopicIndex>, files: &[TopicFile], fallback_created_at: &str) -> (res: (
    TopicIndex,
    bool,
))
    requires
        found is Some ==> found->0.wf(),
    ensures
        res.0.wf(),
        ({
            let all = adopted(found_topics(found), file_models(files@), fallback_created_at@);
            &&& put_in_order(all, res.0@)
            &&& res.1 == (found is None || all.len() > found_topics(found).len())
        }),
{
    let existed = found.is_some();
    let mut index = match found {
        Some(index) => index,
        None => TopicIndex::default(),
    };
    let changed = adopt_orphans(&mut index, files, fallback_created_at);
    let topics = sort_topics(index.topics);
    (TopicIndex { topics }, changed || !existed)
}

// ---------------------------------------------------------------------------
// Deleting and renaming
// ---------------------------------------------------------------------------

/// What came of removing a topic's file.
pub enum Removal {
    Removed,
    Missing,
    Failed(String),
}

/// The refusal of an id that could name another file.
pub open spec fn refused_id(topic_id: Seq<char>) -> Seq<char> {
    "Refusing to delete a topic whose id is not one file name: "@ + topic_id
}

/// The refusal of a topic that is not there.
pub open spec fn no_such_topic(topic_id: Seq<char>) -> Seq<char> {
    "トピック "@ + topic_id + " は見つかりません。"@
}

/// Say that a topic is not there.
pub fn no_such_topic_text(topic_id: &str) -> (text: String)
    ensures
        text@ == no_such_topic(topic_id@),
{
    let mut text: String = "トピック ".to_owned();
    text.append(topic_id);
    text.append(" は見つかりません。");
    text
}

/// The file to remove when a topic is deleted, or why none is.
pub fn file_to_delete(index: &TopicIndex, topic_id: &str) -> (res: Result<String, String>)
    ensures
        match res {
            Ok(file) => names_topic(index@, topic_id@) && is_one_file(topic_id@) && file@
                == topic_file(topic_id@),
            Err(why) => if names_topic(index@, topic_id@) {
                !is_one_file(topic_id@) && why@ == refused_id(topic_id@)
            } else {
                why@ == no_such_topic(topic_id@)
            },
        },
{
    if index.find(topic_id).is_none() {
        return Err(no_such_topic_text(topic_id));
    }
    if !names_one_file(topic_id) {
        let mut why: String = "Refusing to delete a topic whose id is not one file name: ".to_owned();
        why.append(topic_id);
        return Err(why);
    }
    Ok(topic_path(topic_id))
}

/// What comes of deleting a topic's entry.
pub open spec fn deletion(
    before: TopicIndex,
    after: TopicIndex,
    topic_id: Seq<char>,
    removal: Removal,
    res: Result<(), String>,
) -> bool {
    match res {
        Ok(_) => {
            &&& is_one_file(topic_id)
            &&& !(removal is Failed)
            &&& after@ == without_topic(before@, topic_id)
        },
        Err(why) => {
            &&& after == before
            &&& if is_one_file(topic_id) {
                removal is Failed && why@ == "Failed to delete the topic's log: "@
                    + removal->Failed_0@
            } else {
                why@ == refused_id(topic_id)
            }
        },
    }
}

/// Delete one topic's entry, once its file was to be removed. The entry goes only when
/// the file is gone: an entry taken out with the file left behind would be adopted back.
pub fn delete(index: &mut TopicIndex, topic_id: &str, removal: Removal) -> (res: Result<(), String>)
    requires
        old(index).wf(),
    ensures
        final(index).wf(),
        deletion(*old(index), *final(index), topic_id@, removal, res),
{
    if !names_one_file(topic_id) {
        let mut why: String = "Refusing to delete a topic whose id is not one file name: ".to_owned();
        why.append(topic_id);
        return Err(why);
    }
    if let Removal::Failed(reason) = removal {
        let mut why: String = "Failed to delete the topic's log: ".to_owned();
        why.append(reason.as_str());
        return Err(why);
    }
    let _ = index.forget(topic_id);
    Ok(())
}

/// What comes of renaming a topic.
pub open spec fn renaming(
    before: TopicIndex,
    after: TopicIndex,
    current: TopicRef,
    topic_id: Seq<char>,
    title: Seq<char>,
    res: Result<(), String>,
) -> bool {
    match res {
        Ok(_) => {
            let now = realized(before@, topic_id, current.created_at@);
            let at = place_of(now, topic_id);
            &&& trimmed(title).len() > 0
            &&& names_topic(before@, topic_id) || current.topic_id@ == topic_id
            &&& after@ == now.update(at, TopicModel { title: trimmed(title), ..now[at] })
        },
        Err(why) => {
            &&& after == before
            &&& if trimmed(title).len() == 0 {
                why@ == "トピック名を入力してください。"@
            } else {
                !names_topic(before@, topic_id) && current.topic_id@ != topic_id && why@
                    == no_such_topic(topic_id)
            }
        },
    }
}

/// Rename a topic. Blank is refused; a topic without an entry is given one only when it
/// is the one the room is in.
pub fn rename_topic(index: &mut TopicIndex, current: &TopicRef, topic_id: &str, title: &str) -> (res:
    Result<(), String>)
    requires
        old(index).wf(),
    ensures
        final(index).wf(),
        renaming(*old(index), *final(index), *current, topic_id@, title@, res),
{
    let title = trim(title);
    if title.unicode_len() == 0 {
        return Err("トピック名を入力してください。".to_owned());
    }
    if index.find(topic_id).is_none() && !same_text(current.topic_id.as_str(), topic_id) {
        return Err(no_such_topic_text(topic_id));
    }
    let entry = index.realize(topic_id, current.created_at.as_str());
    entry.title = title.to_owned();
    Ok(())
}

impl TopicRef {
    /// A topic under a fresh id.
    pub fn new(created_at: String) -> (topic: Self)
        ensures
            is_hyphenated_id(topic.topic_id@),
            topic.created_at == created_at,
    {
        TopicRef { topic_id: fresh_id(), created_at }
    }

    /// A copy.
    pub fn copy(&self) -> (res: Self)
        ensures
            res == *self,
    {
        TopicRef { topic_id: self.topic_id.clone(), created_at: self.created_at.clone() }
    }
}

// ---------------------------------------------------------------------------
// Laws
// ---------------------------------------------------------------------------

/// Giving a topic an entry twice is giving it once, and the entries that were there stay
/// as they were.
pub proof fn law_a_topic_is_realized_once(
    topics: Seq<TopicModel>,
    id: Seq<char>,
    created_at: Seq<char>,
    later: Seq<char>,
)
    ensures
        names_topic(realized(topics, id, created_at), id),
        realized(realized(topics, id, created_at), id, later) == realized(topics, id, created_at),
        realized(topics, id, created_at).take(topics.len() as int) == topics,
{
    lemma_place_of(topics, id);
    let now = realized(topics, id, created_at);
    if !names_topic(topics, id) {
        assert forall|i: int| 0 <= i < topics.len() implies (#[trigger] now[i]).topic_id != id by {
            assert(now[i] == topics[i]);
        }
        lemma_place_is(now, id, topics.len() as int);
    }
    assert(now.take(topics.len() as int) =~= topics);
}

proof fn lemma_without_topic(topics: Seq<TopicModel>, id: Seq<char>)
    ensures
        forall|i: int|
            0 <= i < without_topic(topics, id).len() ==> (#[trigger] without_topic(
                topics,
                id,
            )[i]).topic_id != id,
    decreases topics.len(),
{
    if topics.len() > 0 {
        let shorter = without_topic(topics.drop_last(), id);
        lemma_without_topic(topics.drop_last(), id);
        assert forall|i: int| 0 <= i < without_topic(topics, id).len() implies (
        #[trigger] without_topic(topics, id)[i]).topic_id != id by {
            if i < shorter.len() {
                assert(shorter[i].topic_id != id);
            }
        }
    }
}

proof fn lemma_adopted_names(
    topics: Seq<TopicModel>,
    files: Seq<FileModel>,
    fallback: Seq<char>,
    id: Seq<char>,
)
    ensures
        names_topic(adopted(topics, files, fallback), id) <==> names_topic(topics, id) || exists|
            i: int,
        |
            0 <= i < files.len() && (#[trigger] files[i]).topic_id == id,
    decreases files.len(),
{
    let now = adopted(topics, files, fallback);
    lemma_place_of(topics, id);
    lemma_place_of(now, id);
    if files.len() > 0 {
        let shorter = files.drop_last();
        let so_far = adopted(topics, shorter, fallback);
        lemma_adopted_names(topics, shorter, fallback, id);
        lemma_place_of(so_far, id);
        lemma_place_of(so_far, files.last().topic_id);
        if names_topic(so_far, id) {
            let i = choose|i: int| 0 <= i < so_far.len() && (#[trigger] so_far[i]).topic_id == id;
            assert(now[i].topic_id == id);
        }
        if exists|i: int| 0 <= i < shorter.len() && (#[trigger] shorter[i]).topic_id == id {
            let i = choose|i: int| 0 <= i < shorter.len() && (#[trigger] shorter[i]).topic_id == id;
            assert(files[i].topic_id == id);
        }
        if files.last().topic_id == id {
            assert(files[files.len() - 1].topic_id == id);
            if !names_topic(so_far, id) {
                assert(now[so_far.len() as int].topic_id == id);
            }
        }
        if names_topic(now, id) && !names_topic(so_far, id) {
            let i = choose|i: int| 0 <= i < now.len() && (#[trigger] now[i]).topic_id == id;
            if i < so_far.len() {
                assert(so_far[i].topic_id == id);
            }
        }
        if exists|i: int| 0 <= i < files.len() && (#[trigger] files[i]).topic_id == id {
            let i = choose|i: int| 0 <= i < files.len() && (#[trigger] files[i]).topic_id == id;
            if i < shorter.len() {
                assert(shorter[i].topic_id == id);
            }
        }
    }
}

/// A deleted topic does not come back on the next read when its file is gone, and an
/// entry taken out with the file left behind does.
pub proof fn law_a_deleted_topic_stays_deleted(
    topics: Seq<TopicModel>,
    files: Seq<FileModel>,
    fallback: Seq<char>,
    id: Seq<char>,
)
    ensures
        names_topic(adopted(without_topic(topics, id), files, fallback), id) <==> exists|i: int|
            0 <= i < files.len() && (#[trigger] files[i]).topic_id == id,
{
    lemma_without_topic(topics, id);
    lemma_place_of(without_topic(topics, id), id);
    lemma_adopted_names(without_topic(topics, id), files, fallback, id);
}

/// A read names every topic that the index names and every topic that has a file, and no
/// other: an entry without a file stays.
pub proof fn law_a_read_names_entries_and_files(
    topics: Seq<TopicModel>,
    files: Seq<FileModel>,
    fallback: Seq<char>,
    id: Seq<char>,
)
    ensures
        names_topic(adopted(topics, files, fallback), id) <==> names_topic(topics, id) || exists|
            i: int,
        |
            0 <= i < files.len() && (#[trigger] files[i]).topic_id == id,
        adopted(topics, files, fallback).take(topics.len() as int) == topics,
{
    lemma_adopted_names(topics, files, fallback, id);
    lemma_adopted_keeps(topics, files, fallback);
}

proof fn lemma_adopted_keeps(topics: Seq<TopicModel>, files: Seq<FileModel>, fallback: Seq<char>)
    ensures
        adopted(topics, files, fallback).len() >= topics.len(),
        adopted(topics, files, fallback).take(topics.len() as int) == topics,
    decreases files.len(),
{
    let now = adopted(topics, files, fallback);
    if files.len() > 0 {
        lemma_adopted_keeps(topics, files.drop_last(), fallback);
        let so_far = adopted(topics, files.drop_last(), fallback);
        assert(now.take(topics.len() as int) =~= so_far.take(topics.len() as int));
    } else {
        assert(now.take(topics.len() as int) =~= topics);
    }
}

/// Putting a list in order neither adds nor loses a topic.
pub proof fn law_order_loses_no_topic(
    topics: Seq<TopicModel>,
    now: Seq<TopicModel>,
    topic: TopicModel,
)
    requires
        put_in_order(topics, now),
    ensures
        topics.contains(topic) <==> now.contains(topic),
{
    lemma_alike_contains(topics, topic);
    lemma_alike_contains(now, topic);
    assert(alike(now, topic.topic_id, topic.created_at) == alike(
        topics,
        topic.topic_id,
        topic.created_at,
    ));
}

proof fn lemma_alike_contains(topics: Seq<TopicModel>, topic: TopicModel)
    ensures
        alike(topics, topic.topic_id, topic.created_at).contains(topic) <==> topics.contains(topic),
    decreases topics.len(),
{
    let now = alike(topics, topic.topic_id, topic.created_at);
    if topics.len() > 0 {
        let shorter = topics.drop_last();
        lemma_alike_contains(shorter, topic);
        let before = alike(shorter, topic.topic_id, topic.created_at);
        assert(topics =~= shorter.push(topics.last()));
        if topics.contains(topic) {
            let i = topics.index_of(topic);
            if i < shorter.len() {
                assert(shorter[i] == topic);
                let k = before.index_of(topic);
                assert(before.contains(topic));
                assert(now[k] == topic);
            } else {
                assert(now.last() == topic);
            }
        }
        if now.contains(topic) {
            let k = now.index_of(topic);
            assert(now[k] == topic);
            if k < before.len() {
                assert(before[k] == topic);
                let i = shorter.index_of(topic);
                assert(shorter.contains(topic));
                assert(topics[i] == topic);
            } else {
                assert(topics[topics.len() - 1] == topic);
            }
        }
    }
}

/// Forgetting a session leaves the topics and every other account's session as they
/// were.
pub proof fn law_forgetting_a_session_touches_one_record(
    topics: Seq<TopicModel>,
    topic_id: Seq<char>,
    account_id: Seq<char>,
    session_id: Seq<char>,
    other: Seq<char>,
    i: int,
)
    requires
        holds_session(topics, topic_id, account_id, session_id),
        0 <= i < topics.len(),
        other != account_id,
    ensures
        ({
            let at = place_of(topics, topic_id);
            let now = with_sessions(topics, at, topics[at].sessions.remove(account_id));
            &&& now.len() == topics.len()
            &&& ids(now) == ids(topics)
            &&& i != at ==> now[i] == topics[i]
            &&& now[at].title == topics[at].title
            &&& !now[at].sessions.contains_key(account_id)
            &&& now[at].sessions.contains_key(other) == topics[at].sessions.contains_key(other)
            &&& now[at].sessions.contains_key(other) ==> now[at].sessions[other]
                == topics[at].sessions[other]
        }),
{
    let at = place_of(topics, topic_id);
    lemma_place_of(topics, topic_id);
    let now = with_sessions(topics, at, topics[at].sessions.remove(account_id));
    assert(ids(now) =~= ids(topics));
}

/// What is kept of a post in the log is the post as it was said: its id, who said it, what
/// was said, to whom and when.
pub proof fn law_the_log_keeps_a_post_as_it_was_said(post: Post, kept: LoggedPost)
    requires
        logged.ensures((&post,), kept),
    ensures
        kept.message_id@ == post.message_id@,
        kept.speaker@ == post.speaker@,
        kept.content@ == post.content@,
        kept.to is Some <==> post.to is Some,
        kept.to is Some ==> kept.to->0@ == post.to->0@,
        kept.ts@ == post.ts@,
        logged_of(post) == (LoggedModel {
            message_id: post.message_id@,
            speaker: post.speaker@,
            content: post.content@,
            to: opt_text(post.to),
            ts: post.ts@,
        }),
{
}

/// A logged post is told by its fields, and so is an entry of the index.
pub proof fn law_what_is_kept_is_told_by_its_fields(post: LoggedPost, topic: Topic, index: TopicIndex)
    ensures
        post@.message_id == post.message_id@,
        post@.speaker == post.speaker@,
        post@.content == post.content@,
        post@.to == opt_text(post.to),
        post@.ts == post.ts@,
        topic@.topic_id == topic.topic_id@,
        topic@.title == topic.title@,
        topic@.created_at == topic.created_at@,
        topic@.sessions.dom() == topic.sessions@.dom(),
        forall|account: Seq<char>| #[trigger]
            topic.sessions@.contains_key(account) ==> topic@.sessions[account]
                == topic.sessions@[account]@,
        index@.len() == index.topics@.len(),
        forall|i: int| 0 <= i < index.topics@.len() ==> #[trigger] index@[i] == index.topics@[i]@,
{
    assert(topic@.sessions.dom() =~= topic.sessions@.dom());
}

/// The posts of a log are those of its lines that could be read, in their order; the others
/// are counted.
pub proof fn law_every_line_is_a_post_or_is_counted(
    lines: Vec<Option<LoggedPost>>,
    res: (Vec<LoggedPost>, usize),
)
    requires
        read_posts.ensures((lines,), res),
    ensures
        res.0@ == lines@.filter(|line: Option<LoggedPost>| line is Some).map_values(
            |line: Option<LoggedPost>| line->0,
        ),
        res.1 == lines@.filter(|line: Option<LoggedPost>| line is None).len(),
{
    lemma_readable_posts(lines@);
}

proof fn lemma_readable_posts(lines: Seq<Option<LoggedPost>>)
    ensures
        readable_posts(lines) == lines.filter(|line: Option<LoggedPost>| line is Some).map_values(
            |line: Option<LoggedPost>| line->0,
        ),
        readable_posts(lines).len() + lines.filter(|line: Option<LoggedPost>| line is None).len()
            == lines.len(),
    decreases lines.len(),
{
    reveal(Seq::filter);
    let kept = |line: Option<LoggedPost>| line is Some;
    let post = |line: Option<LoggedPost>| line->0;
    if lines.len() > 0 {
        lemma_readable_posts(lines.drop_last());
        let before = lines.drop_last().filter(kept);
        if lines.last() is Some {
            assert(before.push(lines.last()).map_values(post) =~= before.map_values(post).push(
                lines.last()->0,
            ));
        }
    } else {
        assert(lines.filter(kept).map_values(post) =~= Seq::<LoggedPost>::empty());
    }
}

/// A title is what was first said, with one space for each run of white space and none at
/// its ends; of more than forty characters it is the first forty, and an ellipsis.
pub proof fn law_a_title_is_the_opening_of_what_was_said(content: &str, title: String)
    requires
        title_from.ensures((content,), title),
    ensures
        ({
            let flat = collapsed(content@);
            &&& flat.len() <= 40 ==> title@ == flat
            &&& flat.len() > 40 ==> title@.len() == 41 && title@[40] == '…' && title@.take(40)
                == flat.take(40)
        }),
{
    let flat = collapsed(content@);
    if flat.len() > 40 {
        assert(title@.take(40) =~= flat.take(40));
    }
}

/// The posts of a topic are in the file of its id, and the index is in its own. An id names
/// one file exactly where it is not empty, holds no slash, backslash or colon, and is not one
/// of the two names that every directory has.
pub proof fn law_where_things_are_kept(
    topic_id: &str,
    file: String,
    index: String,
    one: bool,
)
    requires
        topic_path.ensures((topic_id,), file),
        index_path.ensures((), index),
        names_one_file.ensures((topic_id,), one),
    ensures
        file@ == topic_id@ + ".jsonl"@,
        index@ == "index.json"@,
        one <==> topic_id@.len() > 0 && topic_id@ != seq!['.'] && topic_id@ != seq!['.', '.']
            && forall|i: int|
            0 <= i < topic_id@.len() ==> #[trigger] topic_id@[i] != '/' && topic_id@[i] != '\\'
                && topic_id@[i] != ':',
{
    reveal_strlit(".");
    reveal_strlit("..");
    reveal_strlit("jsonl");
    reveal_strlit(".jsonl");
    reveal_strlit("index.json");
    assert("."@ =~= seq!['.']);
    assert(".."@ =~= seq!['.', '.']);
    assert("."@ + TOPIC_EXTENSION@ =~= ".jsonl"@);
    assert(file@ =~= topic_id@ + ".jsonl"@);
    assert(forall|i: int|
        0 <= i < topic_id@.len() ==> topic_id@.contains(#[trigger] topic_id@[i]));
}

/// The entry that is found for an id is the first one with it, and none is found exactly
/// where no entry has it.
pub proof fn law_an_entry_is_found_by_its_id(index: TopicIndex, topic_id: &str, res: Option<&Topic>)
    requires
        TopicIndex::find.ensures((&index, topic_id), res),
    ensures
        res is None <==> forall|i: int|
            0 <= i < index.topics@.len() ==> (#[trigger] index.topics@[i]).topic_id@ != topic_id@,
        res is Some ==> exists|i: int|
            {
                &&& 0 <= i < index.topics@.len()
                &&& *res->0 == #[trigger] index.topics@[i]
                &&& index.topics@[i].topic_id@ == topic_id@
                &&& forall|j: int|
                    0 <= j < i ==> (#[trigger] index.topics@[j]).topic_id@ != topic_id@
            },
{
    lemma_place_of(index@, topic_id@);
    assert forall|i: int| 0 <= i < index.topics@.len() implies index@[i].topic_id == (
    #[trigger] index.topics@[i]).topic_id@ by {}
    if res is None {
        assert forall|i: int| 0 <= i < index.topics@.len() implies (
        #[trigger] index.topics@[i]).topic_id@ != topic_id@ by {
            assert(index@[i].topic_id != topic_id@);
        }
    } else {
        let at = place_of(index@, topic_id@);
        assert(index.topics@[at].topic_id@ == topic_id@);
        assert forall|j: int| 0 <= j < at implies (#[trigger] index.topics@[j]).topic_id@
            != topic_id@ by {
            assert(index@[j].topic_id != topic_id@);
        }
    }
}

/// Forgetting a topic takes out the entries with its id and no other, and keeps the order of
/// the rest.
pub proof fn law_forgetting_a_topic_takes_out_its_entries_alone(topics: Seq<TopicModel>, id: Seq<char>)
    ensures
        without_topic(topics, id) == topics.filter(|topic: TopicModel| topic.topic_id != id),
    decreases topics.len(),
{
    reveal(Seq::filter);
    if topics.len() > 0 {
        law_forgetting_a_topic_takes_out_its_entries_alone(topics.drop_last(), id);
    }
}

/// A topic is deleted exactly where its id names one file and the file could be removed or
/// was not there. The entries of the others stay, and where it is refused, so do all.
pub proof fn law_a_deleted_topic_leaves_the_others(
    before: TopicIndex,
    after: TopicIndex,
    topic_id: Seq<char>,
    removal: Removal,
    res: Result<(), String>,
)
    requires
        deletion(before, after, topic_id, removal, res),
    ensures
        res is Ok <==> is_one_file(topic_id) && !(removal is Failed),
        res is Ok ==> after@ == before@.filter(|topic: TopicModel| topic.topic_id != topic_id),
        res is Err ==> after == before,
        res is Err && is_one_file(topic_id) ==> res->Err_0@ == "Failed to delete the topic's log: "@
            + removal->Failed_0@,
        res is Err && !is_one_file(topic_id) ==> res->Err_0@
            == "Refusing to delete a topic whose id is not one file name: "@ + topic_id,
{
    law_forgetting_a_topic_takes_out_its_entries_alone(before@, topic_id);
}

/// The file to remove for a topic is its own, where the index has the topic and its id names
/// one file.
pub proof fn law_the_file_to_remove_is_the_topics_own(
    index: TopicIndex,
    topic_id: &str,
    res: Result<String, String>,
)
    requires
        file_to_delete.ensures((&index, topic_id), res),
    ensures
        res is Ok <==> is_one_file(topic_id@) && exists|i: int|
            0 <= i < index@.len() && (#[trigger] index@[i]).topic_id == topic_id@,
        res is Ok ==> res->Ok_0@ == topic_id@ + ".jsonl"@,
        res is Err ==> res->Err_0@ == if exists|i: int|
            0 <= i < index@.len() && (#[trigger] index@[i]).topic_id == topic_id@ {
            "Refusing to delete a topic whose id is not one file name: "@ + topic_id@
        } else {
            "トピック "@ + topic_id@ + " は見つかりません。"@
        },
{
    lemma_place_of(index@, topic_id@);
    reveal_strlit(".");
    reveal_strlit("jsonl");
    reveal_strlit(".jsonl");
    assert("."@ + TOPIC_EXTENSION@ =~= ".jsonl"@);
    assert(topic_file(topic_id@) =~= topic_id@ + ".jsonl"@);
}

proof fn lemma_realized_place(topics: Seq<TopicModel>, id: Seq<char>, created_at: Seq<char>)
    ensures
        ({
            let now = realized(topics, id, created_at);
            let at = place_of(now, id);
            &&& 0 <= at < now.len()
            &&& now[at].topic_id == id
            &&& forall|i: int| 0 <= i < at ==> (#[trigger] now[i]).topic_id != id
            &&& !names_topic(topics, id) ==> at == topics.len()
        }),
{
    law_a_topic_is_realized_once(topics, id, created_at, created_at);
    let now = realized(topics, id, created_at);
    lemma_place_of(topics, id);
    lemma_place_of(now, id);
    if !names_topic(topics, id) {
        assert forall|i: int| 0 <= i < topics.len() implies (#[trigger] now[i]).topic_id != id by {
            assert(now[i] == topics[i]);
        }
        lemma_place_is(now, id, topics.len() as int);
    }
}

/// A session that is recorded for an account in a topic is the one that is read back, even
/// where the topic had no entry. What is read back for another account stays.
pub proof fn law_a_recorded_session_is_read_back(
    before: TopicIndex,
    after: TopicIndex,
    topic: TopicRef,
    topic_id: &str,
    account_id: &str,
    session_id: Seq<char>,
    res: Option<String>,
    other: &str,
    was: Option<String>,
    left: Option<String>,
)
    requires
        session_recorded(before@, after@, topic, account_id@, session_id),
        topic_id@ == topic.topic_id@,
        TopicIndex::session_of.ensures((&after, topic_id, account_id), res),
        other@ != account_id@,
        TopicIndex::session_of.ensures((&before, topic_id, other), was),
        TopicIndex::session_of.ensures((&after, topic_id, other), left),
    ensures
        opt_text(res) == Some(session_id),
        opt_text(left) == opt_text(was),
{
    lemma_realized_place(before@, topic.topic_id@, topic.created_at@);
    lemma_place_of(before@, topic.topic_id@);
    let now = realized(before@, topic.topic_id@, topic.created_at@);
    let at = place_of(now, topic.topic_id@);
    lemma_place_is(after@, topic.topic_id@, at);
}

/// Recording a session leaves every topic's title and every other topic as it was, and adds
/// one entry at most: the topic's own, without a title.
pub proof fn law_recording_a_session_touches_one_entry(
    before: Seq<TopicModel>,
    after: Seq<TopicModel>,
    topic: TopicRef,
    account_id: Seq<char>,
    session_id: Seq<char>,
    i: int,
)
    requires
        session_recorded(before, after, topic, account_id, session_id),
    ensures
        ({
            let known = exists|j: int|
                0 <= j < before.len() && (#[trigger] before[j]).topic_id == topic.topic_id@;
            &&& known ==> after.len() == before.len()
            &&& !known ==> {
                &&& after.len() == before.len() + 1
                &&& after.last().topic_id == topic.topic_id@
                &&& after.last().created_at == topic.created_at@
                &&& after.last().title.len() == 0
                &&& after.last().sessions.dom() == set![account_id]
                &&& after.last().sessions[account_id] == session_id
            }
        }),
        0 <= i < before.len() ==> after[i].topic_id == before[i].topic_id,
        0 <= i < before.len() ==> after[i].title == before[i].title,
        0 <= i < before.len() ==> after[i].created_at == before[i].created_at,
        0 <= i < before.len() && before[i].topic_id != topic.topic_id@ ==> after[i] == before[i],
{
    lemma_realized_place(before, topic.topic_id@, topic.created_at@);
    lemma_place_of(before, topic.topic_id@);
    let now = realized(before, topic.topic_id@, topic.created_at@);
    if 0 <= i < before.len() {
        assert(now[i] == before[i]);
    }
    if !names_topic(before, topic.topic_id@) {
        assert(after.last().sessions.dom() =~= set![account_id]);
    }
}

/// The first thing said in a topic gives it an entry, dated as the topic is, and a title
/// where it has none. A title that it has stays, and so do its sessions and every other
/// topic.
pub proof fn law_the_first_post_names_its_topic(
    before: Seq<TopicModel>,
    after: Seq<TopicModel>,
    topic: TopicRef,
    content: Seq<char>,
    i: int,
)
    requires
        opened_by_post(before, after, topic, content),
    ensures
        ({
            let known = exists|j: int|
                0 <= j < before.len() && (#[trigger] before[j]).topic_id == topic.topic_id@;
            &&& known ==> after.len() == before.len()
            &&& !known ==> {
                &&& after.len() == before.len() + 1
                &&& after.last().topic_id == topic.topic_id@
                &&& after.last().created_at == topic.created_at@
                &&& after.last().title == title_of(content)
                &&& after.last().sessions.dom() == Set::<Seq<char>>::empty()
            }
        }),
        0 <= i < before.len() ==> after[i].topic_id == before[i].topic_id,
        0 <= i < before.len() ==> after[i].created_at == before[i].created_at,
        0 <= i < before.len() ==> after[i].sessions == before[i].sessions,
        0 <= i < before.len() && (before[i].topic_id != topic.topic_id@ || before[i].title.len()
            > 0) ==> after[i] == before[i],
        0 <= i < before.len() && before[i].topic_id == topic.topic_id@ && before[i].title.len() == 0
            && (forall|j: int| 0 <= j < i ==> (#[trigger] before[j]).topic_id != topic.topic_id@)
            ==> after[i].title == title_of(content),
{
    lemma_realized_place(before, topic.topic_id@, topic.created_at@);
    lemma_place_of(before, topic.topic_id@);
    let now = realized(before, topic.topic_id@, topic.created_at@);
    if 0 <= i < before.len() {
        assert(now[i] == before[i]);
    }
    if 0 <= i < before.len() && before[i].topic_id == topic.topic_id@ && (forall|j: int|
        0 <= j < i ==> (#[trigger] before[j]).topic_id != topic.topic_id@) {
        lemma_place_is(before, topic.topic_id@, i);
    }
    if !names_topic(before, topic.topic_id@) {
        assert(after.last().sessions.dom() =~= Set::<Seq<char>>::empty());
    }
}

/// A topic takes the name it is given, without the white space around it, and keeps the rest
/// of its entry; the one the room is in is given an entry for it where it had none. A blank
/// name is refused, and so is a topic that is not there, and then nothing changes.
pub proof fn law_a_renamed_topic_takes_its_name(
    before: TopicIndex,
    after: TopicIndex,
    current: TopicRef,
    topic_id: Seq<char>,
    title: Seq<char>,
    res: Result<(), String>,
    i: int,
)
    requires
        renaming(before, after, current, topic_id, title, res),
    ensures
        ({
            let known = exists|j: int|
                0 <= j < before@.len() && (#[trigger] before@[j]).topic_id == topic_id;
            &&& res is Ok <==> trimmed(title).len() > 0 && (known || current.topic_id@ == topic_id)
            &&& res is Ok && known ==> after@.len() == before@.len()
            &&& res is Ok && !known ==> {
                &&& after@.len() == before@.len() + 1
                &&& after@.last().topic_id == topic_id
                &&& after@.last().title == trimmed(title)
                &&& after@.last().created_at == current.created_at@
            }
        }),
        res is Err ==> after == before,
        res is Err ==> res->Err_0@ == if trimmed(title).len() == 0 {
            "トピック名を入力してください。"@
        } else {
            "トピック "@ + topic_id + " は見つかりません。"@
        },
        res is Ok && 0 <= i < before@.len() ==> {
            &&& after@[i].topic_id == before@[i].topic_id
            &&& after@[i].created_at == before@[i].created_at
            &&& after@[i].sessions == before@[i].sessions
            &&& before@[i].topic_id != topic_id ==> after@[i] == before@[i]
            &&& before@[i].topic_id == topic_id && (forall|j: int|
                0 <= j < i ==> (#[trigger] before@[j]).topic_id != topic_id) ==> after@[i].title
                == trimmed(title)
        },
{
    lemma_realized_place(before@, topic_id, current.created_at@);
    lemma_place_of(before@, topic_id);
    let now = realized(before@, topic_id, current.created_at@);
    if 0 <= i < before@.len() {
        assert(now[i] == before@[i]);
    }
    if 0 <= i < before@.len() && before@[i].topic_id == topic_id && (forall|j: int|
        0 <= j < i ==> (#[trigger] before@[j]).topic_id != topic_id) {
        lemma_place_is(before@, topic_id, i);
    }
}

/// A session is taken off a topic exactly where the first entry of the topic holds that very
/// session for the account; only that record goes.
pub proof fn law_a_session_is_taken_where_it_is_the_one_held(
    before: Seq<TopicModel>,
    after: Seq<TopicModel>,
    topic_id: Seq<char>,
    account_id: Seq<char>,
    session_id: Seq<char>,
    taken: bool,
    at: int,
)
    requires
        session_taken(before, after, topic_id, account_id, session_id, taken),
        0 <= at < before.len(),
        before[at].topic_id == topic_id,
        forall|j: int| 0 <= j < at ==> (#[trigger] before[j]).topic_id != topic_id,
    ensures
        taken <==> before[at].sessions.contains_key(account_id) && before[at].sessions[account_id]
            == session_id,
        !taken ==> after == before,
        taken ==> after.len() == before.len() && !after[at].sessions.contains_key(account_id),
        taken ==> forall|other: Seq<char>|
            other != account_id ==> #[trigger] after[at].sessions.contains_key(other)
                == before[at].sessions.contains_key(other) && (before[at].sessions.contains_key(
                other,
            ) ==> after[at].sessions[other] == before[at].sessions[other]),
        taken ==> after[at].title == before[at].title && after[at].topic_id == topic_id
            && after[at].created_at == before[at].created_at,
        taken ==> forall|i: int|
            0 <= i < before.len() && i != at ==> #[trigger] after[i] == before[i],
{
    lemma_place_is(before, topic_id, at);
}

/// A file that no entry names is given one: under the id of the file, titled and dated by the
/// first post that could be read in it, or dated by the fallback where there is none, and
/// with no session.
pub proof fn law_an_orphan_is_adopted_by_its_first_post(
    topics: Seq<TopicModel>,
    files: Seq<FileModel>,
    fallback: Seq<char>,
    at: int,
)
    requires
        0 <= at < files.len(),
        forall|j: int| 0 <= j < topics.len() ==> (#[trigger] topics[j]).topic_id != files[at].topic_id,
        forall|j: int| 0 <= j < at ==> (#[trigger] files[j]).topic_id != files[at].topic_id,
    ensures
        exists|i: int|
            {
                &&& topics.len() <= i < adopted(topics, files, fallback).len()
                &&& (#[trigger] adopted(topics, files, fallback)[i]).topic_id == files[at].topic_id
                &&& adopted(topics, files, fallback)[i].title == match files[at].first {
                    Some(post) => title_of(post.content),
                    None => Seq::empty(),
                }
                &&& adopted(topics, files, fallback)[i].created_at == match files[at].first {
                    Some(post) => post.ts,
                    None => fallback,
                }
                &&& adopted(topics, files, fallback)[i].sessions.dom() == Set::<Seq<char>>::empty()
            },
    decreases files.len(),
{
    let now = adopted(topics, files, fallback);
    let so_far = adopted(topics, files.drop_last(), fallback);
    lemma_adopted_keeps(topics, files.drop_last(), fallback);
    if at == files.len() - 1 {
        let id = files[at].topic_id;
        lemma_adopted_names(topics, files.drop_last(), fallback, id);
        lemma_place_of(topics, id);
        assert(files.last() == files[at]);
        assert(!names_topic(so_far, id));
        let i = so_far.len() as int;
        assert(now[i] == adopted_topic(files[at], fallback));
        assert(now[i].sessions.dom() =~= Set::<Seq<char>>::empty());
    } else {
        let shorter = files.drop_last();
        assert(shorter[at] == files[at]);
        assert forall|j: int| 0 <= j < at implies (#[trigger] shorter[j]).topic_id
            != shorter[at].topic_id by {
            assert(shorter[j] == files[j]);
        }
        law_an_orphan_is_adopted_by_its_first_post(topics, shorter, fallback, at);
        let i = choose|i: int|
            {
                &&& topics.len() <= i < so_far.len()
                &&& (#[trigger] so_far[i]).topic_id == shorter[at].topic_id
                &&& so_far[i].title == match shorter[at].first {
                    Some(post) => title_of(post.content),
                    None => Seq::empty(),
                }
                &&& so_far[i].created_at == match shorter[at].first {
                    Some(post) => post.ts,
                    None => fallback,
                }
                &&& so_far[i].sessions.dom() == Set::<Seq<char>>::empty()
            };
        assert(now[i] == so_far[i]);
    }
}

/// A list that was put in order has an older topic before a younger one, and of two that were
/// made at one time the one with the smaller id.
pub proof fn law_topics_are_in_order(topics: Seq<TopicModel>, now: Seq<TopicModel>, i: int, j: int)
    requires
        put_in_order(topics, now),
        0 <= i < j < now.len(),
    ensures
        now.len() == topics.len(),
        text_less(now[i].created_at, now[j].created_at) || now[i].created_at == now[j].created_at,
        now[i].created_at == now[j].created_at ==> text_less(now[i].topic_id, now[j].topic_id)
            || now[i].topic_id == now[j].topic_id,
{
    lemma_less_total(now[i].created_at, now[j].created_at);
    lemma_less_total(now[i].topic_id, now[j].topic_id);
    assert(!older(now[j], now[i]));
}

/// Something was said in a topic exactly where its file is there and is not empty, and the
/// screen is told how many lines could not be read where there are any.
pub proof fn law_what_is_told_of_a_log(
    size: Option<u64>,
    said: bool,
    skipped: usize,
    report: Option<String>,
)
    requires
        has_posts.ensures((size,), said),
        unreadable_report.ensures((skipped,), report),
    ensures
        said <==> size is Some && size->0 != 0,
        report is None <==> skipped == 0,
        report is Some ==> report->0@ == "読めなかった記録が "@ + decimal(skipped as nat) + " 件あります"@,
{
}

/// A read of the index names what the index names and what has a file, in order, and is to
/// be written back where there was no index or a file was adopted.
pub proof fn law_a_read_is_written_back_where_it_found_more(
    found: Option<TopicIndex>,
    files: &[TopicFile],
    fallback: &str,
    res: (TopicIndex, bool),
    topic: TopicModel,
)
    requires
        read.ensures((found, files, fallback), res),
    ensures
        found is None ==> res.1,
        found is Some ==> (res.1 <==> res.0@.len() > found->0@.len()),
        found is Some && found->0@.contains(topic) ==> res.0@.contains(topic),
        oldest_first(res.0@),
{
    let entries = found_topics(found);
    let all = adopted(entries, file_models(files@), fallback@);
    lemma_adopted_keeps(entries, file_models(files@), fallback@);
    law_order_loses_no_topic(all, res.0@, topic);
    if entries.contains(topic) {
        let i = entries.index_of(topic);
        assert(all.take(entries.len() as int)[i] == topic);
        assert(all[i] == topic);
    }
}

/// A file belongs to a topic exactly where it is that topic's own file.
pub proof fn law_which_files_are_topics(file: &str, res: Option<String>)
    requires
        topic_of_file.ensures((file,), res),
    ensures
        res is Some ==> res->0@.len() > 0 && file@ == res->0@ + ".jsonl"@,
        (exists|id: Seq<char>| id.len() > 0 && file@ == #[trigger] (id + ".jsonl"@)) ==> res is Some,
{
    reveal_strlit(".");
    reveal_strlit("jsonl");
    reveal_strlit(".jsonl");
    assert("."@ + TOPIC_EXTENSION@ =~= ".jsonl"@);
    if res is Some {
        let cut = file@.len() - 6;
        assert(file@ =~= file@.take(cut) + file@.skip(cut));
    }
    if exists|id: Seq<char>| id.len() > 0 && file@ == #[trigger] (id + ".jsonl"@) {
        let id = choose|id: Seq<char>| id.len() > 0 && file@ == #[trigger] (id + ".jsonl"@);
        law_a_topic_is_told_from_its_file(id);
        assert(topic_file(id) =~= id + ".jsonl"@);
    }
}

/// A topic that is not there is named in the refusal; a new one has the date it was given.
pub proof fn law_what_is_said_of_a_topic(
    topic_id: &str,
    text: String,
    created_at: String,
    topic: TopicRef,
    copy: TopicRef,
)
    requires
        no_such_topic_text.ensures((topic_id,), text),
        TopicRef::new.ensures((created_at,), topic),
        TopicRef::copy.ensures((&topic,), copy),
    ensures
        text@ == "トピック "@ + topic_id@ + " は見つかりません。"@,
        topic.created_at@ == created_at@,
        copy.topic_id@ == topic.topic_id@,
        copy.created_at@ == topic.created_at@,
{
}

/// A session is recorded in the topic, for the account and under the id that are given.
pub proof fn law_a_session_is_recorded_as_it_is_given(
    index: &mut TopicIndex,
    topic: TopicRef,
    account_id: &str,
    session_id: &str,
)
    requires
        TopicIndex::record_session.ensures((index, &topic, account_id, session_id), ()),
    ensures
        session_recorded(old(index)@, final(index)@, topic, account_id@, session_id@),
{
}

/// A session is taken off the topic, for the account and under the id that are given.
pub proof fn law_a_session_is_taken_off_as_it_is_given(
    index: &mut TopicIndex,
    topic_id: &str,
    account_id: &str,
    session_id: &str,
    taken: bool,
)
    requires
        TopicIndex::forget_session.ensures((index, topic_id, account_id, session_id), taken),
    ensures
        session_taken(
            old(index)@,
            final(index)@,
            topic_id@,
            account_id@,
            session_id@,
            taken,
        ),
{
}

/// A topic that is forgotten loses its entries, and whether it had any is told.
pub proof fn law_a_topic_is_forgotten_as_it_is_given(
    index: &mut TopicIndex,
    topic_id: &str,
    gone: bool,
)
    requires
        TopicIndex::forget.ensures((index, topic_id), gone),
    ensures
        final(index)@ == old(index)@.filter(|topic: TopicModel| topic.topic_id != topic_id@),
        gone <==> exists|i: int|
            0 <= i < old(index)@.len() && (#[trigger] old(index)@[i]).topic_id == topic_id@,
{
    law_forgetting_a_topic_takes_out_its_entries_alone(old(index)@, topic_id@);
    lemma_place_of(old(index)@, topic_id@);
}

/// The first thing said in a topic gives the topic its entry and its title, as they are given.
pub proof fn law_a_topic_is_named_as_it_is_given(
    index: &mut TopicIndex,
    topic: TopicRef,
    content: &str,
)
    requires
        TopicIndex::realize_from_first_post.ensures((index, &topic, content), ()),
    ensures
        opened_by_post(old(index)@, final(index)@, topic, content@),
{
}

/// Files are adopted with the date that is given, and whether any was is told.
pub proof fn law_orphans_are_adopted_as_they_are_given(
    index: &mut TopicIndex,
    files: &[TopicFile],
    fallback: &str,
    changed: bool,
    i: int,
)
    requires
        adopt_orphans.ensures((index, files, fallback), changed),
    ensures
        final(index)@ == adopted(old(index)@, file_models(files@), fallback@),
        changed <==> final(index)@.len() != old(index)@.len(),
        0 <= i < files@.len() ==> {
            &&& file_models(files@)[i].topic_id == files@[i].topic_id@
            &&& file_models(files@)[i].first is Some <==> files@[i].first is Some
            &&& files@[i].first is Some ==> file_models(files@)[i].first->0.content
                == files@[i].first->0.content@ && file_models(files@)[i].first->0.ts
                == files@[i].first->0.ts@
        },
{
    lemma_adopted_keeps(old(index)@, file_models(files@), fallback@);
}

/// A topic is deleted under the id that is given, once its file was to be removed as is told.
pub proof fn law_a_topic_is_deleted_as_it_is_given(
    index: &mut TopicIndex,
    topic_id: &str,
    removal: Removal,
    res: Result<(), String>,
)
    requires
        delete.ensures((index, topic_id, removal), res),
    ensures
        deletion(*old(index), *final(index), topic_id@, removal, res),
{
}

/// A topic is renamed under the id and to the title that are given.
pub proof fn law_a_topic_is_renamed_as_it_is_given(
    index: &mut TopicIndex,
    current: TopicRef,
    topic_id: &str,
    title: &str,
    res: Result<(), String>,
)
    requires
        rename_topic.ensures((index, &current, topic_id, title), res),
    ensures
        renaming(*old(index), *final(index), current, topic_id@, title@, res),
{
}

} // verus!
