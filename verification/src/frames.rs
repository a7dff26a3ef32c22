//! What crosses the room's socket: the frames a participant is sent.

use vstd::prelude::*;
use vstd::string::*;

use crate::floor::{Missed, Post};
use crate::json::{
    at, close, json_of, jsons, lemma_deeper, lemma_nests_deeper, list_value, nests_within,
    new_object, no_entries, number_text, object_value, put_text, put_value, read_depth, readable,
    text_value, Json, Node,
};
use crate::text::{first_at, lemma_first_at, lemma_first_at_is, opt_str, opt_text, same_text};
use crate::topics::{LoggedModel, LoggedPost};

verus! {

// ---------------------------------------------------------------------------
// Posts
// ---------------------------------------------------------------------------

/// A post as the other participants are sent it. The addressee stands in it only where
/// there is one.
pub open spec fn post_json(post: Post) -> Json {
    let said = no_entries().insert("type"@, Json::Text("post"@)).insert(
        "message_id"@,
        Json::Text(post.message_id@),
    ).insert("speaker"@, Json::Text(post.speaker@)).insert(
        "content"@,
        Json::Text(post.content@),
    ).insert("ts"@, Json::Text(post.ts@));
    Json::Object(
        match post.to {
            Some(name) => said.insert("to"@, Json::Text(name@)),
            None => said,
        },
    )
}

/// The frame of a post.
pub fn post_frame(post: &Post) -> (value: serde_json::Value)
    ensures
        json_of(value) == post_json(*post),
        readable(json_of(value), 1),
{
    let mut frame = new_object();
    put_text(&mut frame, "type", "post");
    put_text(&mut frame, "message_id", post.message_id.as_str());
    put_text(&mut frame, "speaker", post.speaker.as_str());
    put_text(&mut frame, "content", post.content.as_str());
    put_text(&mut frame, "ts", post.ts.as_str());
    if let Some(name) = &post.to {
        put_text(&mut frame, "to", name.as_str());
    }
    proof {
        lemma_post_readable(*post);
    }
    object_value(frame)
}

proof fn lemma_post_readable(post: Post)
    ensures
        readable(post_json(post), 1),
{
    let entries = post_json(post)->Object_0;
    assert forall|key: Seq<char>| #[trigger] entries.contains_key(key) implies readable(
        entries[key],
        0,
    ) by {
        assert(entries[key] is Text);
    }
}

/// A text or null.
pub open spec fn text_or_null(text: Option<Seq<char>>) -> Json {
    match text {
        Some(text) => Json::Text(text),
        None => Json::Null,
    }
}

/// A number or null.
pub open spec fn number_or_null(number: Option<serde_json::Number>) -> Json {
    match number {
        Some(number) => Json::Number(number_text(number)),
        None => Json::Null,
    }
}

/// A missed post as it is handed back.
pub open spec fn missed_json(missed: Missed) -> Json {
    Json::Object(
        no_entries().insert("message_id"@, Json::Text(missed.message_id@)).insert(
            "speaker"@,
            Json::Text(missed.speaker@),
        ).insert("hue"@, number_or_null(missed.hue)).insert(
            "content"@,
            Json::Text(missed.content@),
        ).insert("to"@, text_or_null(opt_text(missed.to))).insert("ts"@, Json::Text(missed.ts@)),
    )
}

fn missed_value(missed: &Missed) -> (value: serde_json::Value)
    ensures
        json_of(value) == missed_json(*missed),
{
    let mut object = new_object();
    put_text(&mut object, "message_id", missed.message_id.as_str());
    put_text(&mut object, "speaker", missed.speaker.as_str());
    let hue = match &missed.hue {
        Some(hue) => close(Node::Number(hue.clone())),
        None => close(Node::Null),
    };
    put_value(&mut object, "hue", hue);
    put_text(&mut object, "content", missed.content.as_str());
    let to = match &missed.to {
        Some(name) => text_value(name.as_str()),
        None => close(Node::Null),
    };
    put_value(&mut object, "to", to);
    put_text(&mut object, "ts", missed.ts.as_str());
    object_value(object)
}

/// What a speaker is told of their post: whether it was delivered, what they missed where
/// it was not, and the error where there is no room to deliver to.
pub open spec fn receipt_json(
    message_id: Seq<char>,
    delivered: bool,
    missed: Seq<Missed>,
    error: Option<Seq<char>>,
) -> Json {
    let told = no_entries().insert("type"@, Json::Text("post_result"@)).insert(
        "message_id"@,
        Json::Text(message_id),
    ).insert("delivered"@, Json::Bool(delivered)).insert(
        "missed"@,
        Json::List(missed.map_values(|one: Missed| missed_json(one))),
    );
    Json::Object(
        match error {
            Some(error) => told.insert("error"@, Json::Text(error)),
            None => told,
        },
    )
}

/// The receipt of a post.
pub fn receipt_frame(message_id: &str, delivered: bool, missed: &Vec<Missed>, error: Option<&str>) -> (value:
    serde_json::Value)
    ensures
        json_of(value) == receipt_json(message_id@, delivered, missed@, opt_str(error)),
{
    let mut items: Vec<serde_json::Value> = Vec::new();
    let mut i: usize = 0;
    while i < missed.len()
        invariant
            i <= missed@.len(),
            items@.len() == i,
            forall|j: int| 0 <= j < i ==> json_of(#[trigger] items@[j]) == missed_json(missed@[j]),
        decreases missed@.len() - i,
    {
        items.push(missed_value(&missed[i]));
        i = i + 1;
    }
    proof {
        assert(jsons(items@) =~= missed@.map_values(|one: Missed| missed_json(one)));
    }
    let mut receipt = new_object();
    put_text(&mut receipt, "type", "post_result");
    put_text(&mut receipt, "message_id", message_id);
    put_value(&mut receipt, "delivered", close(Node::Bool(delivered)));
    put_value(&mut receipt, "missed", list_value(items));
    if let Some(error) = error {
        put_text(&mut receipt, "error", error);
    }
    object_value(receipt)
}

// ---------------------------------------------------------------------------
// History
// ---------------------------------------------------------------------------

/// How many posts a page of history holds when none is asked for.
pub const HISTORY_PAGE: usize = 50;

/// How many posts a page of history holds at most.
pub const HISTORY_MAX: usize = 200;

/// What some logged posts hold.
pub open spec fn logged_models(posts: Seq<LoggedPost>) -> Seq<LoggedModel> {
    posts.map_values(|post: LoggedPost| post@)
}

/// The ids of some logged posts.
pub open spec fn logged_ids(posts: Seq<LoggedModel>) -> Seq<Seq<char>> {
    posts.map_values(|post: LoggedModel| post.message_id)
}

/// Where a page ends: before the first post with the id that was named, and at the end
/// where none was named or there is no such post.
pub open spec fn page_end(posts: Seq<LoggedModel>, before: Option<Seq<char>>) -> int {
    match before {
        Some(id) => first_at(logged_ids(posts), id),
        None => posts.len() as int,
    }
}

/// How many posts a page holds at most.
pub open spec fn page_size(limit: Option<usize>) -> int {
    match limit {
        None => HISTORY_PAGE as int,
        Some(limit) => if limit < 1 {
            1
        } else if limit > HISTORY_MAX {
            HISTORY_MAX as int
        } else {
            limit as int
        },
    }
}

/// Where a page starts.
pub open spec fn page_start(
    posts: Seq<LoggedModel>,
    before: Option<Seq<char>>,
    limit: Option<usize>,
) -> int {
    let end = page_end(posts, before);
    if end < page_size(limit) {
        0
    } else {
        end - page_size(limit)
    }
}

/// A logged post as it is handed out. The addressee stands in it only where there is one.
pub open spec fn logged_json(post: LoggedModel) -> Json {
    let said = no_entries().insert("message_id"@, Json::Text(post.message_id)).insert(
        "speaker"@,
        Json::Text(post.speaker),
    ).insert("content"@, Json::Text(post.content)).insert("ts"@, Json::Text(post.ts));
    Json::Object(
        match post.to {
            Some(name) => said.insert("to"@, Json::Text(name)),
            None => said,
        },
    )
}

/// A page of history: the posts between its two ends, and whether there are older ones.
pub open spec fn history_json(
    request_id: Seq<char>,
    posts: Seq<LoggedModel>,
    before: Option<Seq<char>>,
    limit: Option<usize>,
) -> Json {
    let start = page_start(posts, before, limit);
    let page = posts.subrange(start, page_end(posts, before));
    Json::Object(
        no_entries().insert("type"@, Json::Text("history_result"@)).insert(
            "request_id"@,
            Json::Text(request_id),
        ).insert(
            "posts"@,
            Json::List(page.map_values(|post: LoggedModel| logged_json(post))),
        ).insert("has_more"@, Json::Bool(start > 0)),
    )
}

fn logged_value(post: &LoggedPost) -> (value: serde_json::Value)
    ensures
        json_of(value) == logged_json(post@),
{
    let mut object = new_object();
    put_text(&mut object, "message_id", post.message_id.as_str());
    put_text(&mut object, "speaker", post.speaker.as_str());
    put_text(&mut object, "content", post.content.as_str());
    put_text(&mut object, "ts", post.ts.as_str());
    if let Some(name) = &post.to {
        put_text(&mut object, "to", name.as_str());
    }
    object_value(object)
}

/// Answer a request for history with one page of a topic's posts.
pub fn history_answer(
    request_id: &str,
    posts: &Vec<LoggedPost>,
    before: Option<&str>,
    limit: Option<usize>,
) -> (value: serde_json::Value)
    ensures
        json_of(value) == history_json(
            request_id@,
            logged_models(posts@),
            opt_str(before),
            limit,
        ),
{
    let ghost all = logged_models(posts@);
    let end: usize = match before {
        Some(id) => {
            let mut at: usize = 0;
            while at < posts.len() && !same_text(posts[at].message_id.as_str(), id)
                invariant
                    at <= posts@.len(),
                    all == logged_models(posts@),
                    forall|j: int| 0 <= j < at ==> #[trigger] logged_ids(all)[j] != id@,
                decreases posts@.len() - at,
            {
                proof {
                    assert(logged_ids(all)[at as int] == posts@[at as int].message_id@);
                }
                at = at + 1;
            }
            proof {
                lemma_first_at_is(logged_ids(all), id@, at as int);
            }
            at
        },
        None => posts.len(),
    };
    let size: usize = match limit {
        None => HISTORY_PAGE,
        Some(limit) => if limit < 1 {
            1
        } else if limit > HISTORY_MAX {
            HISTORY_MAX
        } else {
            limit
        },
    };
    let start: usize = if end < size {
        0
    } else {
        end - size
    };
    let mut items: Vec<serde_json::Value> = Vec::new();
    let mut i: usize = start;
    while i < end
        invariant
            start <= i <= end <= posts@.len(),
            items@.len() == i - start,
            forall|j: int|
                0 <= j < i - start ==> json_of(#[trigger] items@[j]) == logged_json(
                    posts@[start + j]@,
                ),
        decreases end - i,
    {
        items.push(logged_value(&posts[i]));
        i = i + 1;
    }
    proof {
        let page = all.subrange(start as int, end as int);
        assert(jsons(items@) =~= page.map_values(|post: LoggedModel| logged_json(post)));
    }
    let mut answer = new_object();
    put_text(&mut answer, "type", "history_result");
    put_text(&mut answer, "request_id", request_id);
    put_value(&mut answer, "posts", list_value(items));
    put_value(&mut answer, "has_more", close(Node::Bool(start > 0)));
    object_value(answer)
}

/// The answer to a request for history that cannot be read.
pub open spec fn history_error_json(request_id: Seq<char>, error: Seq<char>) -> Json {
    Json::Object(
        no_entries().insert("type"@, Json::Text("history_result"@)).insert(
            "request_id"@,
            Json::Text(request_id),
        ).insert("error"@, Json::Text(error)),
    )
}

/// Answer a request for history that cannot be read.
pub fn history_error(request_id: &str, error: &str) -> (value: serde_json::Value)
    ensures
        json_of(value) == history_error_json(request_id@, error@),
{
    let mut answer = new_object();
    put_text(&mut answer, "type", "history_result");
    put_text(&mut answer, "request_id", request_id);
    put_text(&mut answer, "error", error);
    object_value(answer)
}

// ---------------------------------------------------------------------------
// Laws
// ---------------------------------------------------------------------------

/// A page holds at least one post where there is one before its end, and never more than
/// the most a page holds; and there are older ones exactly where it does not begin with
/// the first.
pub proof fn law_a_page_is_bounded(
    posts: Seq<LoggedModel>,
    before: Option<Seq<char>>,
    limit: Option<usize>,
)
    ensures
        0 <= page_start(posts, before, limit) <= page_end(posts, before) <= posts.len(),
        page_end(posts, before) - page_start(posts, before, limit) <= HISTORY_MAX,
        page_end(posts, before) > 0 ==> page_start(posts, before, limit) < page_end(posts, before),
{
    if let Some(id) = before {
        lemma_first_at(logged_ids(posts), id);
    }
}

/// Asking for what comes before the first post of a page gives the page that ends where
/// this one began, when no two posts carry one id: page by page nothing is skipped and
/// nothing is handed out twice.
pub proof fn law_pages_join(
    posts: Seq<LoggedModel>,
    before: Option<Seq<char>>,
    limit: Option<usize>,
)
    requires
        forall|i: int, j: int|
            0 <= i < j < posts.len() ==> (#[trigger] posts[i]).message_id != (
            #[trigger] posts[j]).message_id,
        page_start(posts, before, limit) < posts.len(),
    ensures
        page_end(posts, Some(posts[page_start(posts, before, limit)].message_id)) == page_start(
            posts,
            before,
            limit,
        ),
{
    law_a_page_is_bounded(posts, before, limit);
    let start = page_start(posts, before, limit);
    let id = posts[start].message_id;
    assert forall|i: int| 0 <= i < start implies logged_ids(posts)[i] != id by {
        assert(posts[i].message_id != posts[start].message_id);
    }
    lemma_first_at_is(logged_ids(posts), id, start);
}

/// The keys of the frames are different texts.
proof fn lemma_keys_differ()
    ensures
        "type"@.len() == 4,
        "message_id"@.len() == 10 && "message_id"@[0] == 'm',
        "request_id"@.len() == 10 && "request_id"@[0] == 'r',
        "speaker"@.len() == 7 && "speaker"@[0] == 's',
        "content"@.len() == 7 && "content"@[0] == 'c',
        "ts"@.len() == 2 && "ts"@[1] == 's',
        "to"@.len() == 2 && "to"@[1] == 'o',
        "hue"@.len() == 3,
        "delivered"@.len() == 9,
        "missed"@.len() == 6,
        "error"@.len() == 5 && "error"@[0] == 'e',
        "posts"@.len() == 5 && "posts"@[0] == 'p',
        "has_more"@.len() == 8,
{
    reveal_strlit("type");
    reveal_strlit("message_id");
    reveal_strlit("request_id");
    reveal_strlit("speaker");
    reveal_strlit("content");
    reveal_strlit("ts");
    reveal_strlit("to");
    reveal_strlit("hue");
    reveal_strlit("delivered");
    reveal_strlit("missed");
    reveal_strlit("error");
    reveal_strlit("posts");
    reveal_strlit("has_more");
}

/// Whether an object says a text under a key.
pub open spec fn says(json: Json, key: Seq<char>, text: Seq<char>) -> bool {
    at(json, key) == Some(Json::Text(text))
}

/// Whether an object says a text under a key where there is one, and has no such key where
/// there is none.
pub open spec fn says_if_any(json: Json, key: Seq<char>, text: Option<Seq<char>>) -> bool {
    match text {
        Some(text) => says(json, key, text),
        None => at(json, key) is None,
    }
}

/// The frame of a post tells the others who said what to whom and when, under which id, and
/// nothing else: not in which colour.
pub proof fn law_a_post_frame_tells_who_said_what(post: Post)
    ensures
        says(post_json(post), "type"@, "post"@),
        says(post_json(post), "message_id"@, post.message_id@),
        says(post_json(post), "speaker"@, post.speaker@),
        says(post_json(post), "content"@, post.content@),
        says(post_json(post), "ts"@, post.ts@),
        says_if_any(post_json(post), "to"@, opt_text(post.to)),
        at(post_json(post), "hue"@) is None,
{
    lemma_keys_differ();
}

/// A missed post is handed back whole: who said what to whom and when, in which colour, and
/// the id to name the next time.
pub proof fn law_a_missed_post_is_handed_back_whole(missed: Missed)
    ensures
        says(missed_json(missed), "message_id"@, missed.message_id@),
        says(missed_json(missed), "speaker"@, missed.speaker@),
        says(missed_json(missed), "content"@, missed.content@),
        says(missed_json(missed), "ts"@, missed.ts@),
        at(missed_json(missed), "to"@) == Some(
            match missed.to {
                Some(name) => Json::Text(name@),
                None => Json::Null,
            },
        ),
        at(missed_json(missed), "hue"@) == Some(
            match missed.hue {
                Some(hue) => Json::Number(number_text(hue)),
                None => Json::Null,
            },
        ),
{
    lemma_keys_differ();
}

/// A receipt names the post it is for, says whether it was delivered, and hands back every
/// missed post in its order, and the error where there is one.
pub proof fn law_a_receipt_says_what_became_of_a_post(
    message_id: Seq<char>,
    delivered: bool,
    missed: Seq<Missed>,
    error: Option<Seq<char>>,
)
    ensures
        ({
            let receipt = receipt_json(message_id, delivered, missed, error);
            &&& says(receipt, "type"@, "post_result"@)
            &&& says(receipt, "message_id"@, message_id)
            &&& at(receipt, "delivered"@) == Some(Json::Bool(delivered))
            &&& says_if_any(receipt, "error"@, error)
            &&& at(receipt, "missed"@) is Some
            &&& at(receipt, "missed"@)->0 is List
            &&& at(receipt, "missed"@)->0->List_0.len() == missed.len()
            &&& forall|i: int|
                #![trigger at(receipt, "missed"@)->0->List_0[i]]
                0 <= i < missed.len() ==> {
                    let one = at(receipt, "missed"@)->0->List_0[i];
                    &&& says(one, "message_id"@, missed[i].message_id@)
                    &&& says(one, "speaker"@, missed[i].speaker@)
                    &&& says(one, "content"@, missed[i].content@)
                    &&& says(one, "ts"@, missed[i].ts@)
                }
        }),
{
    lemma_keys_differ();
    let receipt = receipt_json(message_id, delivered, missed, error);
    let list = at(receipt, "missed"@)->0->List_0;
    assert forall|i: int|
        #![trigger at(receipt, "missed"@)->0->List_0[i]]
        0 <= i < missed.len() implies {
        let one = at(receipt, "missed"@)->0->List_0[i];
        &&& says(one, "message_id"@, missed[i].message_id@)
        &&& says(one, "speaker"@, missed[i].speaker@)
        &&& says(one, "content"@, missed[i].content@)
        &&& says(one, "ts"@, missed[i].ts@)
    } by {
        assert(list[i] == missed_json(missed[i]));
        law_a_missed_post_is_handed_back_whole(missed[i]);
    }
}

/// Whether an object hands out a logged post: who said what to whom and when, under its id.
pub open spec fn hands_out(json: Json, post: LoggedModel) -> bool {
    &&& says(json, "message_id"@, post.message_id)
    &&& says(json, "speaker"@, post.speaker)
    &&& says(json, "content"@, post.content)
    &&& says(json, "ts"@, post.ts)
    &&& says_if_any(json, "to"@, post.to)
}

/// Whether a place of a log is where a page ends: the end of the log where no post was
/// named or the log has no such post, and the first post with the id that was named
/// otherwise.
pub open spec fn ends_before(posts: Seq<LoggedModel>, before: Option<Seq<char>>, end: int) -> bool {
    &&& 0 <= end <= posts.len()
    &&& match before {
        None => end == posts.len(),
        Some(id) => {
            &&& forall|i: int| 0 <= i < end ==> (#[trigger] posts[i]).message_id != id
            &&& end < posts.len() ==> posts[end].message_id == id
        },
    }
}

/// The answer to a request for history carries the request's id and hands out the newest
/// posts before the one that was named, oldest first: as many as were asked for, fifty where
/// nothing was asked, at least one and at most two hundred, and all there are where there
/// are fewer. It says whether there are older ones.
pub proof fn law_a_page_hands_out_the_newest_posts_before_its_end(
    request_id: Seq<char>,
    posts: Seq<LoggedModel>,
    before: Option<Seq<char>>,
    limit: Option<usize>,
    end: int,
)
    requires
        ends_before(posts, before, end),
    ensures
        ({
            let answer = history_json(request_id, posts, before, limit);
            let asked: int = match limit {
                None => 50,
                Some(limit) => if limit == 0 {
                    1
                } else if limit > 200 {
                    200
                } else {
                    limit as int
                },
            };
            let count: int = if end < asked {
                end
            } else {
                asked
            };
            &&& says(answer, "type"@, "history_result"@)
            &&& says(answer, "request_id"@, request_id)
            &&& at(answer, "error"@) is None
            &&& at(answer, "posts"@) is Some
            &&& at(answer, "posts"@)->0 is List
            &&& at(answer, "posts"@)->0->List_0.len() == count
            &&& forall|i: int|
                #![trigger at(answer, "posts"@)->0->List_0[i]]
                0 <= i < count ==> hands_out(
                    at(answer, "posts"@)->0->List_0[i],
                    posts[end - count + i],
                )
            &&& at(answer, "has_more"@) == Some(Json::Bool(count < end))
        }),
{
    lemma_keys_differ();
    let answer = history_json(request_id, posts, before, limit);
    if let Some(id) = before {
        assert forall|i: int| 0 <= i < end implies logged_ids(posts)[i] != id by {
            assert(posts[i].message_id != id);
        }
        lemma_first_at_is(logged_ids(posts), id, end);
    }
    let start = page_start(posts, before, limit);
    let page = posts.subrange(start, end);
    let list = at(answer, "posts"@)->0->List_0;
    assert forall|i: int| #![trigger at(answer, "posts"@)->0->List_0[i]] 0 <= i < end - start implies hands_out(
        at(answer, "posts"@)->0->List_0[i],
        posts[start + i],
    ) by {
        assert(list[i] == logged_json(page[i]));
    }
}

/// The answer to a request that cannot be read carries the request's id and the reason, and
/// no posts.
pub proof fn law_an_unread_history_says_why(request_id: Seq<char>, error: Seq<char>)
    ensures
        says(history_error_json(request_id, error), "type"@, "history_result"@),
        says(history_error_json(request_id, error), "request_id"@, request_id),
        says(history_error_json(request_id, error), "error"@, error),
        at(history_error_json(request_id, error), "posts"@) is None,
{
    lemma_keys_differ();
}

// ---------------------------------------------------------------------------
// Reading the frames again
// ---------------------------------------------------------------------------

/// A receipt does not nest deeper than the reader goes.
pub proof fn lemma_receipt_nests(
    message_id: Seq<char>,
    delivered: bool,
    missed: Seq<Missed>,
    error: Option<Seq<char>>,
)
    ensures
        nests_within(receipt_json(message_id, delivered, missed, error), read_depth()),
{
    let receipt = receipt_json(message_id, delivered, missed, error)->Object_0;
    let list = missed.map_values(|one: Missed| missed_json(one));
    assert forall|i: int| 0 <= i < list.len() implies nests_within(#[trigger] list[i], 1) by {
        assert(list[i] == missed_json(missed[i]));
        let entries = missed_json(missed[i])->Object_0;
        assert forall|key: Seq<char>| #[trigger] entries.contains_key(key) implies nests_within(
            entries[key],
            0,
        ) by {
            assert(!(entries[key] is List) && !(entries[key] is Object));
        }
    }
    assert(nests_within(Json::List(list), 2));
    assert forall|key: Seq<char>| #[trigger] receipt.contains_key(key) implies nests_within(
        receipt[key],
        2,
    ) by {
        assert(receipt[key] == Json::List(list) || (!(receipt[key] is List) && !(
        receipt[key] is Object)));
    }
    lemma_nests_deeper(receipt_json(message_id, delivered, missed, error), 3, read_depth());
}

/// A page of history is read again as it was written.
pub proof fn lemma_history_readable(
    request_id: Seq<char>,
    posts: Seq<LoggedModel>,
    before: Option<Seq<char>>,
    limit: Option<usize>,
)
    ensures
        readable(history_json(request_id, posts, before, limit), read_depth()),
{
    let answer = history_json(request_id, posts, before, limit)->Object_0;
    let page = posts.subrange(page_start(posts, before, limit), page_end(posts, before));
    let list = page.map_values(|post: LoggedModel| logged_json(post));
    assert forall|i: int| 0 <= i < list.len() implies readable(#[trigger] list[i], 1) by {
        assert(list[i] == logged_json(page[i]));
        let entries = logged_json(page[i])->Object_0;
        assert forall|key: Seq<char>| #[trigger] entries.contains_key(key) implies readable(
            entries[key],
            0,
        ) by {
            assert(entries[key] is Text);
        }
    }
    assert(readable(Json::List(list), 2));
    assert forall|key: Seq<char>| #[trigger] answer.contains_key(key) implies readable(
        answer[key],
        2,
    ) by {
        assert(answer[key] == Json::List(list) || answer[key] is Text || answer[key] is Bool);
    }
    lemma_deeper(history_json(request_id, posts, before, limit), 3, read_depth());
}

/// The reason why history cannot be read is read again as it was written.
pub proof fn lemma_history_error_readable(request_id: Seq<char>, error: Seq<char>)
    ensures
        readable(history_error_json(request_id, error), read_depth()),
{
    let answer = history_error_json(request_id, error)->Object_0;
    assert forall|key: Seq<char>| #[trigger] answer.contains_key(key) implies readable(
        answer[key],
        0,
    ) by {
        assert(answer[key] is Text);
    }
    lemma_deeper(history_error_json(request_id, error), 1, read_depth());
}

} // verus!
