//! A session's report over HTTP: reading the request, and what it is answered.

use vstd::prelude::*;
use vstd::string::*;
use vstd::utf8::*;

use crate::connection::authorized;
use crate::hooks::{parse_status_hook_target, seat_named, STATUS_HOOK_PATH};
use crate::json::{at, field, json_of, look, number_text, text_in, Glimpse, Json};
use crate::percent::encoded;
use crate::prose::{lines, lines_of};
use crate::text::{
    before, chars_of, decimal, digit, find_from, first_at, lemma_first_at, lemma_first_at_is, lower,
    lowered_text, opt_text, same_text, starts, text_between, texts, trim, trimmed,
};

verus! {

/// How many bytes of a request's head are read.
pub const HOOK_HEAD_MAX: usize = 16384;

/// How many bytes of a request's body are read.
pub const HOOK_BODY_MAX: usize = 4194304;

// ---------------------------------------------------------------------------
// The first bytes
// ---------------------------------------------------------------------------

/// Whether the first bytes of a connection are those of a report rather than those of a
/// participant.
pub fn is_report(head: &[u8]) -> (res: bool)
    ensures
        res == (head@.len() >= 4 && head@.take(4) == seq![0x50u8, 0x4f, 0x53, 0x54]),
{
    if head.len() < 4 {
        return false;
    }
    let res = head[0] == 0x50 && head[1] == 0x4f && head[2] == 0x53 && head[3] == 0x54;
    proof {
        let four = head@.take(4);
        let word = seq![0x50u8, 0x4f, 0x53, 0x54];
        if res {
            assert(four =~= word);
        } else {
            assert(four[0] == head@[0] && four[1] == head@[1] && four[2] == head@[2] && four[3]
                == head@[3]);
            assert(word[0] == 0x50 && word[1] == 0x4f && word[2] == 0x53 && word[3] == 0x54);
        }
    }
    res
}

// ---------------------------------------------------------------------------
// The head
// ---------------------------------------------------------------------------

/// What came of one more line of a request's head.
#[derive(Debug)]
pub enum HeadStep {
    /// The head goes on.
    More,
    /// The head is complete.
    Done,
    /// The request is not read any further.
    Refused(String),
}

/// What comes of one more line of a request's head.
pub open spec fn line_taken(before: Seq<char>, after: Seq<char>, line: Seq<char>, step: HeadStep) -> bool {
    let longer = before + line;
    if line.len() == 0 {
        &&& after == before
        &&& step is Refused
        &&& step->Refused_0@ == "hook request ended before its head did"@
    } else if line == "\r\n"@ || line == "\n"@ {
        after == before && step is Done
    } else if encode_utf8(longer).len() > HOOK_HEAD_MAX {
        &&& after == longer
        &&& step is Refused
        &&& step->Refused_0@ == "hook request head is longer than this app reads"@
    } else {
        after == longer && step is More
    }
}

/// Take one more line, as it was read with its line feed, into a request's head. An empty
/// line is the end of the stream; a line feed alone is the end of the head.
pub fn take_line(head: &mut String, line: &str) -> (step: HeadStep)
    ensures
        line_taken(old(head)@, final(head)@, line@, step),
{
    if line.unicode_len() == 0 {
        return HeadStep::Refused("hook request ended before its head did".to_owned());
    }
    if same_text(line, "\r\n") || same_text(line, "\n") {
        return HeadStep::Done;
    }
    head.append(line);
    if head.as_str().as_bytes().len() > HOOK_HEAD_MAX {
        return HeadStep::Refused("hook request head is longer than this app reads".to_owned());
    }
    HeadStep::More
}

/// What a request says of itself.
#[derive(Debug)]
pub struct HookRequest {
    /// What it is addressed to.
    pub target: String,
    /// The credentials it carries.
    pub authorization: Option<String>,
    /// How long it says its body is.
    pub length: usize,
}

/// The second word of a request's first line, with spaces between the words; nothing
/// where it has no second word.
pub open spec fn second_word(line: Seq<char>) -> Seq<char> {
    let cut = first_at(line, ' ');
    let rest = line.skip(cut + 1);
    if cut >= line.len() {
        Seq::empty()
    } else {
        rest.take(first_at(rest, ' '))
    }
}

/// The value of a header in one line, where the line is that header's: the name before
/// the first colon, whatever its case, and the value behind it, both without the white
/// space around them.
pub open spec fn header_in(line: Seq<char>, name: Seq<char>) -> Option<Seq<char>> {
    let cut = first_at(line, ':');
    if cut < line.len() && lowered_text(trimmed(line.take(cut))) == name {
        Some(trimmed(line.skip(cut + 1)))
    } else {
        None
    }
}

/// The value of the last line that is a header's.
pub open spec fn last_header(list: Seq<Seq<char>>, name: Seq<char>) -> Option<Seq<char>>
    decreases list.len(),
{
    if list.len() == 0 {
        None
    } else {
        match header_in(list.last(), name) {
            Some(value) => Some(value),
            None => last_header(list.drop_last(), name),
        }
    }
}

/// The number that decimal digits spell.
pub open spec fn digits_value(text: Seq<char>) -> nat
    decreases text.len(),
{
    if text.len() == 0 {
        0
    } else {
        10 * digits_value(text.drop_last()) + (text.last() as nat - 48) as nat
    }
}

/// Whether a text is decimal digits.
pub open spec fn is_digits(text: Seq<char>) -> bool {
    forall|i: int| 0 <= i < text.len() ==> '0' <= #[trigger] text[i] <= '9'
}

/// The number a text spells: decimal digits, with a plus sign before them or without,
/// where a `usize` holds it.
pub open spec fn number_in(text: Seq<char>) -> Option<usize> {
    let digits = if text.len() > 0 && text[0] == '+' {
        text.skip(1)
    } else {
        text
    };
    if digits.len() > 0 && is_digits(digits) && digits_value(digits) <= usize::MAX {
        Some(digits_value(digits) as usize)
    } else {
        None
    }
}

proof fn lemma_digits_value_grows(text: Seq<char>, n: int)
    requires
        0 <= n <= text.len(),
    ensures
        digits_value(text.take(n)) <= digits_value(text),
    decreases text.len(),
{
    if n == text.len() {
        assert(text.take(n) =~= text);
    } else {
        lemma_digits_value_grows(text.drop_last(), n);
        assert(text.drop_last().take(n) =~= text.take(n));
    }
}

/// The number a text spells.
pub fn parse_number(text: &str) -> (res: Option<usize>)
    ensures
        res == number_in(text@),
{
    let chars = chars_of(text);
    let from: usize = if chars.len() > 0 && chars[0] == '+' {
        1
    } else {
        0
    };
    let ghost digits = text@.skip(from as int);
    proof {
        assert(from == 0 ==> digits =~= text@);
    }
    if from == chars.len() {
        return None;
    }
    let mut value: usize = 0;
    let mut i: usize = from;
    while i < chars.len()
        invariant
            from <= i <= chars@.len(),
            chars@ == text@,
            digits == text@.skip(from as int),
            value == digits_value(digits.take(i - from)),
            forall|j: int| 0 <= j < i - from ==> '0' <= #[trigger] digits[j] <= '9',
            number_in(text@) == (if digits.len() > 0 && is_digits(digits) && digits_value(digits)
                <= usize::MAX {
                Some(digits_value(digits) as usize)
            } else {
                None
            }),
        decreases chars@.len() - i,
    {
        let c: char = chars[i];
        let ghost k = i - from;
        proof {
            assert(digits[k] == c);
            assert(digits.take(k + 1).drop_last() =~= digits.take(k));
            assert(digits.take(k + 1).last() == c);
        }
        if c < '0' || c > '9' {
            return None;
        }
        let d: usize = (c as u8 - 48) as usize;
        proof {
            lemma_digits_value_grows(digits, k + 1);
            assert(digits_value(digits.take(k + 1)) == 10 * value + d);
        }
        match value.checked_mul(10) {
            Some(tens) => match tens.checked_add(d) {
                Some(sum) => {
                    value = sum;
                },
                None => {
                    return None;
                },
            },
            None => {
                return None;
            },
        }
        i = i + 1;
    }
    proof {
        assert(digits.take(digits.len() as int) =~= digits);
    }
    Some(value)
}

fn header_value(line: &str, name: &str) -> (res: Option<String>)
    ensures
        opt_text(res) == header_in(line@, name@),
{
    let chars = chars_of(line);
    let cut = find_from(&chars, 0, ':');
    proof {
        assert(chars@.skip(0) =~= chars@);
    }
    if cut == chars.len() {
        return None;
    }
    let before = text_between(&chars, 0, cut);
    let behind = text_between(&chars, cut + 1, chars.len());
    proof {
        assert(before@ =~= line@.take(cut as int));
        assert(behind@ =~= line@.skip(cut + 1));
    }
    let given = chars_of(trim(before.as_str()));
    let mut folded: String = String::new();
    let mut i: usize = 0;
    while i < given.len()
        invariant
            i <= given@.len(),
            folded@ =~= lowered_text(given@.take(i as int)),
        decreases given@.len() - i,
    {
        folded.push(lower(given[i]));
        i = i + 1;
    }
    proof {
        assert(given@.take(given@.len() as int) =~= given@);
    }
    if same_text(folded.as_str(), name) {
        Some(trim(behind.as_str()).to_owned())
    } else {
        None
    }
}

/// Where a request's head says it goes, the credentials it carries, and how long its body
/// is: none where it does not say, or says something that is no number.
pub open spec fn says_head(request: HookRequest, head: Seq<char>) -> bool {
    let all = lines_of(head);
    let headers = if all.len() > 0 {
        all.skip(1)
    } else {
        all
    };
    &&& request.target@ == if all.len() > 0 {
        second_word(all[0])
    } else {
        Seq::empty()
    }
    &&& opt_text(request.authorization) == last_header(headers, "authorization"@)
    &&& request.length == match last_header(headers, "content-length"@) {
        Some(value) => match number_in(value) {
            Some(length) => length,
            None => 0,
        },
        None => 0,
    }
}

/// Read a request's head.
pub fn parse_head(head: &str) -> (request: HookRequest)
    ensures
        says_head(request, head@),
{
    let all = lines(head);
    let ghost list = texts(all@);
    proof {
        assert(list.len() == all@.len());
    }
    if all.len() == 0 {
        return HookRequest { target: String::new(), authorization: None, length: 0 };
    }
    let first = chars_of(all[0].as_str());
    let cut = find_from(&first, 0, ' ');
    proof {
        assert(first@ == list[0]);
        assert(first@.skip(0) =~= first@);
    }
    let target: String = if cut == first.len() {
        String::new()
    } else {
        let end = find_from(&first, cut + 1, ' ');
        proof {
            let rest = first@.skip(cut + 1);
            assert(first@.subrange(cut + 1, end as int) =~= rest.take(end - cut - 1));
        }
        text_between(&first, cut + 1, end)
    };
    proof {
        assert(target@ =~= second_word(list[0]));
    }
    let mut authorization: Option<String> = None;
    let mut length: usize = 0;
    let ghost headers = list.skip(1);
    let mut i: usize = 1;
    while i < all.len()
        invariant
            1 <= i <= all@.len(),
            list == texts(all@),
            headers == list.skip(1),
            opt_text(authorization) == last_header(headers.take(i - 1), "authorization"@),
            length == (match last_header(headers.take(i - 1), "content-length"@) {
                Some(value) => match number_in(value) {
                    Some(length) => length,
                    None => 0,
                },
                None => 0,
            }),
        decreases all@.len() - i,
    {
        let line: &str = all[i].as_str();
        proof {
            assert(headers.take(i as int).drop_last() =~= headers.take(i - 1));
            assert(headers.take(i as int).last() == line@);
        }
        if let Some(value) = header_value(line, "authorization") {
            authorization = Some(value);
        }
        if let Some(value) = header_value(line, "content-length") {
            length = match parse_number(value.as_str()) {
                Some(length) => length,
                None => 0,
            };
        }
        i = i + 1;
    }
    proof {
        assert(headers.take(headers.len() as int) =~= headers);
    }
    HookRequest { target, authorization, length }
}

/// How many bytes of a request's body are to be read.
pub fn body_length(request: &HookRequest) -> (length: usize)
    ensures
        length == (if request.length > HOOK_BODY_MAX {
            HOOK_BODY_MAX
        } else {
            request.length
        }),
{
    if request.length > HOOK_BODY_MAX {
        HOOK_BODY_MAX
    } else {
        request.length
    }
}

// ---------------------------------------------------------------------------
// What a session reports
// ---------------------------------------------------------------------------

/// What a session reports about itself.
#[derive(Debug)]
pub struct SessionStats {
    pub topic_id: String,
    pub account_id: String,
    pub model: Option<String>,
    pub effort: Option<String>,
    pub five_hour: Option<serde_json::Number>,
    pub seven_day: Option<serde_json::Number>,
    pub context: Option<serde_json::Number>,
}

/// What stands under a key under a key.
pub open spec fn at_two(data: Json, first: Seq<char>, second: Seq<char>) -> Option<Json> {
    match at(data, first) {
        Some(inner) => at(inner, second),
        None => None,
    }
}

/// The text that a value is, where it is one that is not empty.
pub open spec fn some_text(value: Option<Json>) -> Option<Seq<char>> {
    match value {
        Some(Json::Text(text)) => if text.len() > 0 {
            Some(text)
        } else {
            None
        },
        _ => None,
    }
}

/// Whether a report gives this number, or none where the value is no number.
pub open spec fn gives_number(value: Option<Json>, number: Option<serde_json::Number>) -> bool {
    match value {
        Some(Json::Number(text)) => number is Some && number_text(number->0) == text,
        _ => number is None,
    }
}

/// What a report says: the model by its display name, or by its id where that is missing;
/// the effort; and how much of each limit is used.
pub open spec fn reports(stats: SessionStats, topic: Seq<char>, account: Seq<char>, data: Json) -> bool {
    let limits = at(data, "rate_limits"@);
    &&& stats.topic_id@ == topic
    &&& stats.account_id@ == account
    &&& opt_text(stats.model) == match some_text(at_two(data, "model"@, "display_name"@)) {
        Some(name) => Some(name),
        None => some_text(at_two(data, "model"@, "id"@)),
    }
    &&& opt_text(stats.effort) == some_text(at_two(data, "effort"@, "level"@))
    &&& gives_number(
        match limits {
            Some(limits) => at_two(limits, "five_hour"@, "used_percentage"@),
            None => None,
        },
        stats.five_hour,
    )
    &&& gives_number(
        match limits {
            Some(limits) => at_two(limits, "seven_day"@, "used_percentage"@),
            None => None,
        },
        stats.seven_day,
    )
    &&& gives_number(at_two(data, "context_window"@, "used_percentage"@), stats.context)
}

/// What bytes say when they are read as JSON, if they are JSON.
pub uninterp spec fn parsed_bytes(bytes: Seq<u8>) -> Option<Json>;

/// `serde_json::from_slice` into a `serde_json::Value`: what the bytes say, or nothing
/// where they are no JSON, a function of the bytes alone.
#[verifier::external_body]
fn parse_bytes(bytes: &[u8]) -> (res: Option<serde_json::Value>)
    ensures
        match res {
            Some(value) => parsed_bytes(bytes@) == Some(json_of(value)),
            None => parsed_bytes(bytes@) is None,
        },
{
    serde_json::from_slice(bytes).ok()
}

fn two_down<'a>(data: &'a serde_json::Value, first: &str, second: &str) -> (res: Option<
    &'a serde_json::Value,
>)
    ensures
        match res {
            Some(value) => at_two(json_of(*data), first@, second@) == Some(json_of(*value)),
            None => at_two(json_of(*data), first@, second@) is None,
        },
{
    match field(data, first) {
        Some(inner) => field(inner, second),
        None => None,
    }
}

fn text_there(value: Option<&serde_json::Value>) -> (res: Option<String>)
    ensures
        opt_text(res) == some_text(
            match value {
                Some(value) => Some(json_of(*value)),
                None => None,
            },
        ),
{
    match text_in(value) {
        Some(text) => if text.unicode_len() > 0 {
            Some(text.to_owned())
        } else {
            None
        },
        None => None,
    }
}

fn number_there(value: Option<&serde_json::Value>) -> (res: Option<serde_json::Number>)
    ensures
        gives_number(
            match value {
                Some(value) => Some(json_of(*value)),
                None => None,
            },
            res,
        ),
{
    match value {
        Some(value) => match look(value) {
            Glimpse::Number(number) => Some(number.clone()),
            _ => None,
        },
        None => None,
    }
}

impl SessionStats {
    /// What a report that was read as JSON says of a seat.
    pub fn of(topic_id: String, account_id: String, data: &serde_json::Value) -> (stats: Self)
        ensures
            reports(stats, topic_id@, account_id@, json_of(*data)),
    {
        let model = match text_there(two_down(data, "model", "display_name")) {
            Some(name) => Some(name),
            None => text_there(two_down(data, "model", "id")),
        };
        let effort = text_there(two_down(data, "effort", "level"));
        let (five_hour, seven_day) = match field(data, "rate_limits") {
            Some(limits) => (
                number_there(two_down(limits, "five_hour", "used_percentage")),
                number_there(two_down(limits, "seven_day", "used_percentage")),
            ),
            None => (None, None),
        };
        let context = number_there(two_down(data, "context_window", "used_percentage"));
        SessionStats { topic_id, account_id, model, effort, five_hour, seven_day, context }
    }

    /// What a report says of a seat, or `None` when it is no JSON.
    pub fn read(topic_id: String, account_id: String, body: &[u8]) -> (res: Option<Self>)
        ensures
            match (res, parsed_bytes(body@)) {
                (Some(stats), Some(data)) => reports(stats, topic_id@, account_id@, data),
                (None, None) => true,
                _ => false,
            },
    {
        match parse_bytes(body) {
            Some(data) => Some(SessionStats::of(topic_id, account_id, &data)),
            None => None,
        }
    }
}

// ---------------------------------------------------------------------------
// The answer
// ---------------------------------------------------------------------------

/// The status a request is answered with: refused without the token, not found where it
/// names no seat, and accepted otherwise.
pub open spec fn hook_status(request: HookRequest, token: Seq<char>) -> Seq<char> {
    if opt_text(request.authorization) != Some("Bearer "@ + token) {
        "401 Unauthorized"@
    } else if seat_named(STATUS_HOOK_PATH@, request.target@) is None {
        "404 Not Found"@
    } else {
        "200 OK"@
    }
}

/// The answer that carries a status.
pub open spec fn hook_answer(status: Seq<char>) -> Seq<char> {
    "HTTP/1.1 "@ + status
        + "\r\nContent-Type: application/json\r\nContent-Length: 2\r\nConnection: close\r\n\r\n{}"@
}

/// Answer a request: the text to send, and what it reports where it is one to listen to.
pub fn answer_hook(request: &HookRequest, token: &str, body: &[u8]) -> (res: (
    String,
    Option<SessionStats>,
))
    ensures
        res.0@ == hook_answer(hook_status(*request, token@)),
        ({
            let heard = hook_status(*request, token@) == "200 OK"@;
            let (room, account) = seat_named(STATUS_HOOK_PATH@, request.target@)->0;
            match (res.1, parsed_bytes(body@)) {
                (Some(stats), Some(data)) => heard && reports(stats, room, account, data),
                (None, Some(_)) => !heard,
                (Some(_), None) => false,
                (None, None) => true,
            }
        }),
{
    proof {
        reveal_strlit("401 Unauthorized");
        reveal_strlit("404 Not Found");
        reveal_strlit("200 OK");
        assert("200 OK"@.len() == 6);
        assert("401 Unauthorized"@.len() == 16);
        assert("404 Not Found"@.len() == 13);
    }
    let mut answer: String = "HTTP/1.1 ".to_owned();
    let mut stats: Option<SessionStats> = None;
    if !authorized(crate::text::borrowed(&request.authorization), token) {
        answer.append("401 Unauthorized");
    } else {
        match parse_status_hook_target(request.target.as_str()) {
            None => {
                answer.append("404 Not Found");
            },
            Some((room_id, account_id)) => {
                answer.append("200 OK");
                stats = SessionStats::read(room_id, account_id, body);
            },
        }
    }
    answer.append(
        "\r\nContent-Type: application/json\r\nContent-Length: 2\r\nConnection: close\r\n\r\n{}",
    );
    (answer, stats)
}

// ---------------------------------------------------------------------------
// Laws
// ---------------------------------------------------------------------------

/// What stands under a path of keys.
pub open spec fn down(data: Json, path: Seq<Seq<char>>) -> Option<Json>
    decreases path.len(),
{
    if path.len() == 0 {
        Some(data)
    } else {
        match at(data, path[0]) {
            Some(inner) => down(inner, path.skip(1)),
            None => None,
        }
    }
}

proof fn lemma_down_two(data: Json, first: Seq<char>, second: Seq<char>)
    ensures
        down(data, seq![first, second]) == at_two(data, first, second),
{
    reveal_with_fuel(down, 3);
    assert(seq![first, second].skip(1) =~= seq![second]);
    assert(seq![second].skip(1) =~= Seq::<Seq<char>>::empty());
}

proof fn lemma_down_three(data: Json, first: Seq<char>, second: Seq<char>, third: Seq<char>)
    ensures
        down(data, seq![first, second, third]) == match at(data, first) {
            Some(inner) => at_two(inner, second, third),
            None => None,
        },
{
    assert(seq![first, second, third].skip(1) =~= seq![second, third]);
    if at(data, first) is Some {
        lemma_down_two(at(data, first)->0, second, third);
    }
}

/// Whether a number is the one that was reported: there exactly where a number was, and the
/// same.
pub open spec fn is_reported(number: Option<serde_json::Number>, value: Option<Json>) -> bool {
    &&& number is Some <==> value is Some && value->0 is Number
    &&& number is Some ==> value->0 == Json::Number(number_text(number->0))
}

/// Whether a text is the one that was reported: there exactly where a text that is not empty
/// was, and the same.
pub open spec fn is_told(text: Option<Seq<char>>, value: Option<Json>) -> bool {
    &&& text is Some <==> value is Some && value->0 is Text && value->0->Text_0.len() > 0
    &&& text is Some ==> value->0 == Json::Text(text->0)
}

/// A report gives the model by its display name, and by its id where it has no display name;
/// the level of effort; how much of the limit of five hours is used, of the limit of seven
/// days, and of the context; each where the report has it, and for the seat it is about.
pub proof fn law_a_report_is_read_key_by_key(
    topic_id: String,
    account_id: String,
    data: serde_json::Value,
    stats: SessionStats,
)
    requires
        SessionStats::of.ensures((topic_id, account_id, &data), stats),
    ensures
        reports_by_key(stats, topic_id@, account_id@, json_of(data)),
{
    lemma_reports_by_key(stats, topic_id@, account_id@, json_of(data));
}

proof fn lemma_reports_by_key(stats: SessionStats, topic: Seq<char>, account: Seq<char>, json: Json)
    requires
        reports(stats, topic, account, json),
    ensures
        reports_by_key(stats, topic, account, json),
{
    lemma_down_two(json, "model"@, "display_name"@);
    lemma_down_two(json, "model"@, "id"@);
    lemma_down_two(json, "effort"@, "level"@);
    lemma_down_three(json, "rate_limits"@, "five_hour"@, "used_percentage"@);
    lemma_down_three(json, "rate_limits"@, "seven_day"@, "used_percentage"@);
    lemma_down_two(json, "context_window"@, "used_percentage"@);
}

/// Whether what a session reports is what stands under the keys of its report.
pub open spec fn reports_by_key(
    stats: SessionStats,
    topic: Seq<char>,
    account: Seq<char>,
    json: Json,
) -> bool {
    let named = down(json, seq!["model"@, "display_name"@]);
    &&& stats.topic_id@ == topic
    &&& stats.account_id@ == account
    &&& if named is Some && named->0 is Text && named->0->Text_0.len() > 0 {
        is_told(opt_text(stats.model), named)
    } else {
        is_told(opt_text(stats.model), down(json, seq!["model"@, "id"@]))
    }
    &&& is_told(opt_text(stats.effort), down(json, seq!["effort"@, "level"@]))
    &&& is_reported(
        stats.five_hour,
        down(json, seq!["rate_limits"@, "five_hour"@, "used_percentage"@]),
    )
    &&& is_reported(
        stats.seven_day,
        down(json, seq!["rate_limits"@, "seven_day"@, "used_percentage"@]),
    )
    &&& is_reported(stats.context, down(json, seq!["context_window"@, "used_percentage"@]))
}

/// The answer to a request says first whether it was accepted. Without the room's token it
/// is refused; with the token, and addressed to the status path and the two halves of a
/// seat, it is accepted, and what its body reports is listened to, for that seat, where the
/// body is JSON. Nothing is listened to otherwise.
pub proof fn law_only_a_seat_with_the_token_is_listened_to(
    request: HookRequest,
    token: &str,
    body: &[u8],
    res: (String, Option<SessionStats>),
    room: Seq<char>,
    account: Seq<char>,
)
    requires
        answer_hook.ensures((&request, token, body), res),
        room.len() > 0,
        account.len() > 0,
    ensures
        ({
            let tail =
                "\r\nContent-Type: application/json\r\nContent-Length: 2\r\nConnection: close\r\n\r\n{}"@;
            let holds_token = request.authorization is Some && request.authorization->0@
                == "Bearer "@ + token@;
            let names_seat = request.target@ == "/hooks/status"@ + "/"@ + encoded(room) + "/"@
                + encoded(account);
            &&& !holds_token ==> res.0@ == "HTTP/1.1 "@ + "401 Unauthorized"@ + tail && res.1 is None
            &&& holds_token && names_seat ==> {
                &&& res.0@ == "HTTP/1.1 "@ + "200 OK"@ + tail
                &&& res.1 is Some <==> parsed_bytes(body@) is Some
                &&& res.1 is Some ==> reports_by_key(
                    res.1->0,
                    room,
                    account,
                    parsed_bytes(body@)->0,
                )
            }
            &&& holds_token && !starts(request.target@, "/hooks/status/"@) ==> {
                &&& res.0@ == "HTTP/1.1 "@ + "404 Not Found"@ + tail
                &&& res.1 is None
            }
        }),
{
    reveal_strlit("401 Unauthorized");
    reveal_strlit("404 Not Found");
    reveal_strlit("200 OK");
    reveal_strlit("/hooks/status");
    reveal_strlit("/hooks/status/");
    assert("200 OK"@.len() == 6);
    assert("401 Unauthorized"@.len() == 16);
    assert("404 Not Found"@.len() == 13);
    let prefix = STATUS_HOOK_PATH@ + seq!['/'];
    assert(prefix =~= "/hooks/status/"@);
    let target = request.target@;
    let plain = before(target, '?');
    lemma_first_at(target, '?');
    if starts(plain, prefix) {
        assert(target.take(prefix.len() as int) =~= plain.take(prefix.len() as int));
    }
    crate::hooks::law_both_hooks_name_their_seat(room, account);
    if res.1 is Some && parsed_bytes(body@) is Some && hook_status(request, token@) == "200 OK"@ {
        let (named, by) = seat_named(STATUS_HOOK_PATH@, request.target@)->0;
        lemma_reports_by_key(res.1->0, named, by, parsed_bytes(body@)->0);
    }
}

/// A line goes onto a head as it stands. A line feed alone ends the head, and the end of the
/// stream, or more than sixteen kilobytes, ends the request.
pub proof fn law_a_head_is_what_its_lines_say(
    before: Seq<char>,
    after: Seq<char>,
    line: Seq<char>,
    step: HeadStep,
)
    requires
        line_taken(before, after, line, step),
    ensures
        step is Done <==> line == seq!['\n'] || line == seq!['\r', '\n'],
        step is More ==> after == before + line && encode_utf8(after).len() <= 16384,
        step is More <==> line.len() > 0 && line != seq!['\n'] && line != seq!['\r', '\n']
            && encode_utf8(before + line).len() <= 16384,
        step is Done ==> after == before,
        line.len() == 0 ==> step is Refused && step->Refused_0@
            == "hook request ended before its head did"@,
        step is Refused && line.len() > 0 ==> step->Refused_0@
            == "hook request head is longer than this app reads"@,
{
    reveal_strlit("\r\n");
    reveal_strlit("\n");
    assert("\r\n"@ =~= seq!['\r', '\n']);
    assert("\n"@ =~= seq!['\n']);
}

/// Whether a line is a header with a value: the header's name in any case before the first
/// colon, and the value behind it, with white space around each or without.
pub open spec fn carries(line: Seq<char>, name: Seq<char>, value: Seq<char>) -> bool {
    exists|cut: int|
        {
            &&& 0 <= cut < line.len()
            &&& #[trigger] line[cut] == ':'
            &&& forall|j: int| 0 <= j < cut ==> line[j] != ':'
            &&& lowered_text(trimmed(line.take(cut))) == name
            &&& trimmed(line.skip(cut + 1)) == value
        }
}

proof fn lemma_carries(line: Seq<char>, name: Seq<char>, value: Seq<char>)
    ensures
        carries(line, name, value) <==> header_in(line, name) == Some(value),
{
    lemma_first_at(line, ':');
    if carries(line, name, value) {
        let cut = choose|cut: int|
            {
                &&& 0 <= cut < line.len()
                &&& #[trigger] line[cut] == ':'
                &&& forall|j: int| 0 <= j < cut ==> line[j] != ':'
                &&& lowered_text(trimmed(line.take(cut))) == name
                &&& trimmed(line.skip(cut + 1)) == value
            };
        lemma_first_at_is(line, ':', cut);
    }
    if header_in(line, name) == Some(value) {
        let cut = first_at(line, ':');
        assert(line[cut] == ':');
    }
}

proof fn lemma_last_header(list: Seq<Seq<char>>, name: Seq<char>, at: int, value: Seq<char>)
    requires
        0 <= at < list.len(),
        header_in(list[at], name) == Some(value),
        forall|j: int| at < j < list.len() ==> header_in(#[trigger] list[j], name) is None,
    ensures
        last_header(list, name) == Some(value),
    decreases list.len(),
{
    if at < list.len() - 1 {
        let shorter = list.drop_last();
        assert(header_in(list[list.len() - 1], name) is None);
        assert forall|j: int| at < j < shorter.len() implies header_in(
            #[trigger] shorter[j],
            name,
        ) is None by {
            assert(shorter[j] == list[j]);
        }
        lemma_last_header(shorter, name, at, value);
    }
}

proof fn lemma_no_header(list: Seq<Seq<char>>, name: Seq<char>)
    requires
        forall|j: int| 0 <= j < list.len() ==> header_in(#[trigger] list[j], name) is None,
    ensures
        last_header(list, name) is None,
    decreases list.len(),
{
    if list.len() > 0 {
        let shorter = list.drop_last();
        assert(header_in(list[list.len() - 1], name) is None);
        assert forall|j: int| 0 <= j < shorter.len() implies header_in(
            #[trigger] shorter[j],
            name,
        ) is None by {
            assert(shorter[j] == list[j]);
        }
        lemma_no_header(shorter, name);
    }
}

/// A request is addressed to the second word of its first line.
pub proof fn law_a_request_is_addressed_by_its_first_line(
    request: HookRequest,
    head: Seq<char>,
    method: Seq<char>,
    target: Seq<char>,
    rest: Seq<char>,
)
    requires
        says_head(request, head),
        lines_of(head).len() > 0,
        !method.contains(' '),
        !target.contains(' '),
    ensures
        lines_of(head)[0] == method + seq![' '] + target + seq![' '] + rest ==> request.target@
            == target,
        lines_of(head)[0] == method + seq![' '] + target ==> request.target@ == target,
        lines_of(head)[0] == method ==> request.target@.len() == 0,
{
    let line = lines_of(head)[0];
    if line == method + seq![' '] + target + seq![' '] + rest {
        lemma_second_word(method, target, seq![' '] + rest);
        assert(method + seq![' '] + target + (seq![' '] + rest) =~= line);
    }
    if line == method + seq![' '] + target {
        lemma_second_word(method, target, Seq::empty());
        assert(method + seq![' '] + target + Seq::<char>::empty() =~= line);
    }
    if line == method {
        assert forall|i: int| 0 <= i < method.len() implies method[i] != ' ' by {
            assert(method.contains(method[i]));
        }
        lemma_first_at_is(line, ' ', line.len() as int);
    }
}

proof fn lemma_second_word(method: Seq<char>, target: Seq<char>, rest: Seq<char>)
    requires
        !method.contains(' '),
        !target.contains(' '),
        rest.len() == 0 || rest[0] == ' ',
    ensures
        second_word(method + seq![' '] + target + rest) == target,
{
    let line = method + seq![' '] + target + rest;
    assert forall|i: int| 0 <= i < method.len() implies line[i] != ' ' by {
        assert(method.contains(method[i]));
        assert(line[i] == method[i]);
    }
    assert(line[method.len() as int] == ' ');
    lemma_first_at_is(line, ' ', method.len() as int);
    let behind = line.skip(method.len() as int + 1);
    assert(behind =~= target + rest);
    assert forall|i: int| 0 <= i < target.len() implies behind[i] != ' ' by {
        assert(target.contains(target[i]));
        assert(behind[i] == target[i]);
    }
    if rest.len() > 0 {
        assert(behind[target.len() as int] == ' ');
    }
    lemma_first_at_is(behind, ' ', target.len() as int);
    assert(behind.take(target.len() as int) =~= target);
}

/// The credentials and the length of a request's body are what the last header line of each
/// says, behind the first line; where no line does, there are none, and the length is
/// nothing.
pub proof fn law_a_request_carries_its_headers(
    request: HookRequest,
    head: Seq<char>,
    at: int,
    value: Seq<char>,
    length: usize,
)
    requires
        says_head(request, head),
        1 <= at < lines_of(head).len(),
    ensures
        ({
            let all = lines_of(head);
            &&& carries(all[at], "authorization"@, value) && (forall|j: int, other: Seq<char>|
                at < j < all.len() ==> !#[trigger] carries(all[j], "authorization"@, other))
                ==> opt_text(request.authorization) == Some(value)
            &&& (forall|j: int, other: Seq<char>|
                1 <= j < all.len() ==> !#[trigger] carries(all[j], "authorization"@, other))
                ==> request.authorization is None
            &&& carries(all[at], "content-length"@, decimal(length as nat)) && (forall|
                j: int,
                other: Seq<char>,
            |
                at < j < all.len() ==> !#[trigger] carries(all[j], "content-length"@, other))
                ==> request.length == length
            &&& carries(all[at], "content-length"@, value) && (exists|k: int|
                0 <= k < value.len() && (#[trigger] value[k] < '0' || value[k] > '9') && (k > 0
                    || value[k] != '+')) && (forall|j: int, other: Seq<char>|
                at < j < all.len() ==> !#[trigger] carries(all[j], "content-length"@, other))
                ==> request.length == 0
            &&& (forall|j: int, other: Seq<char>|
                1 <= j < all.len() ==> !#[trigger] carries(all[j], "content-length"@, other))
                ==> request.length == 0
        }),
{
    let all = lines_of(head);
    let headers = all.skip(1);
    assert(headers[at - 1] == all[at]);
    lemma_carries(all[at], "authorization"@, value);
    lemma_carries(all[at], "content-length"@, decimal(length as nat));
    law_a_number_is_read_from_its_digits(length);
    lemma_headers(all, at, "authorization"@, value);
    lemma_headers(all, at, "content-length"@, decimal(length as nat));
    lemma_headers(all, at, "content-length"@, value);
    if exists|k: int|
        0 <= k < value.len() && (#[trigger] value[k] < '0' || value[k] > '9') && (k > 0 || value[k]
            != '+') {
        let k = choose|k: int|
            0 <= k < value.len() && (#[trigger] value[k] < '0' || value[k] > '9') && (k > 0
                || value[k] != '+');
        law_what_is_no_digit_is_no_number(value, k);
    }
}

proof fn lemma_headers(all: Seq<Seq<char>>, at: int, name: Seq<char>, value: Seq<char>)
    requires
        1 <= at < all.len(),
    ensures
        carries(all[at], name, value) && (forall|j: int, other: Seq<char>|
            at < j < all.len() ==> !#[trigger] carries(all[j], name, other)) ==> last_header(
            all.skip(1),
            name,
        ) == Some(value),
        (forall|j: int, other: Seq<char>|
            1 <= j < all.len() ==> !#[trigger] carries(all[j], name, other)) ==> last_header(
            all.skip(1),
            name,
        ) is None,
{
    let headers = all.skip(1);
    assert(headers[at - 1] == all[at]);
    lemma_carries(all[at], name, value);
    if forall|j: int, other: Seq<char>|
        at < j < all.len() ==> !#[trigger] carries(all[j], name, other) {
        assert forall|j: int| at - 1 < j < headers.len() implies header_in(
            #[trigger] headers[j],
            name,
        ) is None by {
            assert(headers[j] == all[j + 1]);
            if header_in(headers[j], name) is Some {
                lemma_carries(all[j + 1], name, header_in(headers[j], name)->0);
            }
        }
        if carries(all[at], name, value) {
            lemma_last_header(headers, name, at - 1, value);
        }
    }
    if forall|j: int, other: Seq<char>|
        1 <= j < all.len() ==> !#[trigger] carries(all[j], name, other) {
        assert forall|j: int| 0 <= j < headers.len() implies header_in(
            #[trigger] headers[j],
            name,
        ) is None by {
            assert(headers[j] == all[j + 1]);
            if header_in(headers[j], name) is Some {
                lemma_carries(all[j + 1], name, header_in(headers[j], name)->0);
            }
        }
        lemma_no_header(headers, name);
    }
}

proof fn lemma_digits_of_decimal(n: nat)
    ensures
        digits_value(decimal(n)) == n,
        is_digits(decimal(n)),
        decimal(n).len() > 0,
    decreases n,
{
    if n >= 10 {
        lemma_digits_of_decimal(n / 10);
        let shorter = decimal(n / 10);
        assert(decimal(n).drop_last() =~= shorter);
        assert forall|i: int| 0 <= i < decimal(n).len() implies '0' <= #[trigger] decimal(n)[i]
            <= '9' by {
            if i < shorter.len() {
                assert(decimal(n)[i] == shorter[i]);
            }
        }
    } else {
        reveal_with_fuel(digits_value, 2);
        assert(decimal(n).drop_last() =~= Seq::<char>::empty());
        assert(decimal(n).last() == digit(n));
    }
}

/// A number is read from its digits, with a plus sign before them or without.
pub proof fn law_a_number_is_read_from_its_digits(n: usize)
    ensures
        number_in(decimal(n as nat)) == Some(n),
        number_in(seq!['+'] + decimal(n as nat)) == Some(n),
{
    lemma_digits_of_decimal(n as nat);
    let digits = decimal(n as nat);
    assert('0' <= digits[0]);
    assert((seq!['+'] + digits).skip(1) =~= digits);
}

/// A text with a character in it that is no digit is no number, a sign at its beginning
/// apart.
pub proof fn law_what_is_no_digit_is_no_number(text: Seq<char>, i: int)
    requires
        0 <= i < text.len(),
        text[i] < '0' || text[i] > '9',
        i > 0 || text[i] != '+',
    ensures
        number_in(text) is None,
{
    if text[0] == '+' {
        assert(text.skip(1)[i - 1] == text[i]);
    }
}

/// At most four megabytes of a body are read, and of a shorter one all of it. A connection
/// is a report exactly where it begins with the word of one.
pub proof fn law_how_much_of_a_request_is_read(
    request: HookRequest,
    length: usize,
    head: &[u8],
    report: bool,
)
    requires
        body_length.ensures((&request,), length),
        is_report.ensures((head,), report),
    ensures
        length <= 4194304,
        request.length <= 4194304 ==> length == request.length,
        request.length > 4194304 ==> length == 4194304,
        report <==> head@.len() >= 4 && head@[0] == 'P' as u8 && head@[1] == 'O' as u8 && head@[2]
            == 'S' as u8 && head@[3] == 'T' as u8,
{
    let word = seq![0x50u8, 0x4f, 0x53, 0x54];
    if head@.len() >= 4 {
        let four = head@.take(4);
        assert(four[0] == head@[0] && four[1] == head@[1] && four[2] == head@[2] && four[3]
            == head@[3]);
        assert(word[0] == 0x50 && word[1] == 0x4f && word[2] == 0x53 && word[3] == 0x54);
        if head@[0] == 'P' as u8 && head@[1] == 'O' as u8 && head@[2] == 'S' as u8 && head@[3]
            == 'T' as u8 {
            assert(four =~= word);
        }
    }
}

/// What bytes report of a seat is what they say as JSON, and nothing where they say none.
pub proof fn law_a_body_reports_what_it_says(
    topic_id: String,
    account_id: String,
    body: &[u8],
    res: Option<SessionStats>,
)
    requires
        SessionStats::read.ensures((topic_id, account_id, body), res),
    ensures
        res is Some <==> parsed_bytes(body@) is Some,
        res is Some ==> reports_by_key(
            res->0,
            topic_id@,
            account_id@,
            parsed_bytes(body@)->0,
        ),
{
    if res is Some {
        lemma_reports_by_key(res->0, topic_id@, account_id@, parsed_bytes(body@)->0);
    }
}

/// A line is taken into the head that is given.
pub proof fn law_a_line_is_taken_as_it_is_given(head: &mut String, line: &str, step: HeadStep)
    requires
        take_line.ensures((head, line), step),
    ensures
        line_taken(old(head)@, final(head)@, line@, step),
{
}

/// A head is read as it is given, and so is a number.
pub proof fn law_a_head_is_read_as_it_is_given(
    head: &str,
    request: HookRequest,
    text: &str,
    number: Option<usize>,
)
    requires
        parse_head.ensures((head,), request),
        parse_number.ensures((text,), number),
    ensures
        says_head(request, head@),
        number == number_in(text@),
{
}

} // verus!
