//! JSON values as the library reasons about them: a tree of plain values, and
//! the operations on `serde_json`'s own types that the rest is written in.

use vstd::prelude::*;

use crate::text::{ascending, decimal, is_alphanumeric, texts};

verus! {

#[verifier::external_type_specification]
#[verifier::external_body]
pub struct ExNumber(serde_json::Number);

#[verifier::external_type_specification]
#[verifier::external_body]
pub struct ExValue(serde_json::Value);

#[verifier::external_type_specification]
#[verifier::external_body]
#[verifier::reject_recursive_types(K)]
#[verifier::reject_recursive_types(V)]
pub struct ExMap<K, V>(serde_json::Map<K, V>);

/// What a JSON value says. A number is told by the text it prints as, an object
/// by its entries: it has no order of its own.
pub enum Json {
    Null,
    Bool(bool),
    Number(Seq<char>),
    Text(Seq<char>),
    List(Seq<Json>),
    Object(Map<Seq<char>, Json>),
}

/// What comes of reading a text as JSON: what it says, or what is wrong with it.
pub enum Reading {
    Says(Json),
    Fails(Seq<char>),
}

/// The text that a JSON number prints as.
pub uninterp spec fn number_text(number: serde_json::Number) -> Seq<char>;

/// What a JSON value holds.
pub uninterp spec fn json_of(value: serde_json::Value) -> Json;

/// What a JSON object holds under each of its keys.
pub uninterp spec fn entries_of(
    object: serde_json::Map<String, serde_json::Value>,
) -> Map<Seq<char>, Json>;

/// What a text says when it is read as JSON, or what is wrong with it.
pub uninterp spec fn parsed(text: Seq<char>) -> Reading;

/// A JSON value written on one line.
pub uninterp spec fn compact_text(json: Json) -> Seq<char>;

/// A JSON value written over several lines with indentation.
pub uninterp spec fn pretty_text(json: Json) -> Seq<char>;

/// What the items of a list hold.
pub open spec fn jsons(items: Seq<serde_json::Value>) -> Seq<Json> {
    items.map_values(|item: serde_json::Value| json_of(item))
}

/// One level of a JSON value, taken apart.
pub enum Node {
    Null,
    Bool(bool),
    Number(serde_json::Number),
    Text(String),
    List(Vec<serde_json::Value>),
    Object(serde_json::Map<String, serde_json::Value>),
}

impl Node {
    /// What the value holds.
    pub open spec fn json(self) -> Json {
        match self {
            Node::Null => Json::Null,
            Node::Bool(truth) => Json::Bool(truth),
            Node::Number(number) => Json::Number(number_text(number)),
            Node::Text(text) => Json::Text(text@),
            Node::List(items) => Json::List(jsons(items@)),
            Node::Object(object) => Json::Object(entries_of(object)),
        }
    }
}

/// One level of a JSON value, looked at.
pub enum Glimpse<'a> {
    Null,
    Bool(bool),
    Number(&'a serde_json::Number),
    Text(&'a str),
    List(&'a Vec<serde_json::Value>),
    Object(&'a serde_json::Map<String, serde_json::Value>),
}

impl<'a> Glimpse<'a> {
    /// What the value holds.
    pub open spec fn json(self) -> Json {
        match self {
            Glimpse::Null => Json::Null,
            Glimpse::Bool(truth) => Json::Bool(truth),
            Glimpse::Number(number) => Json::Number(number_text(*number)),
            Glimpse::Text(text) => Json::Text(text@),
            Glimpse::List(items) => Json::List(jsons(items@)),
            Glimpse::Object(object) => Json::Object(entries_of(*object)),
        }
    }
}

// ---------------------------------------------------------------------------
// What is taken from serde_json
// ---------------------------------------------------------------------------

/// The variants of `serde_json::Value`, moved out one for one.
#[verifier::external_body]
pub(crate) fn open(value: serde_json::Value) -> (node: Node)
    ensures
        node.json() == json_of(value),
{
    match value {
        serde_json::Value::Null => Node::Null,
        serde_json::Value::Bool(truth) => Node::Bool(truth),
        serde_json::Value::Number(number) => Node::Number(number),
        serde_json::Value::String(text) => Node::Text(text),
        serde_json::Value::Array(items) => Node::List(items),
        serde_json::Value::Object(object) => Node::Object(object),
    }
}

/// The variants of `serde_json::Value`, moved in one for one.
#[verifier::external_body]
pub(crate) fn close(node: Node) -> (value: serde_json::Value)
    ensures
        json_of(value) == node.json(),
{
    match node {
        Node::Null => serde_json::Value::Null,
        Node::Bool(truth) => serde_json::Value::Bool(truth),
        Node::Number(number) => serde_json::Value::Number(number),
        Node::Text(text) => serde_json::Value::String(text),
        Node::List(items) => serde_json::Value::Array(items),
        Node::Object(object) => serde_json::Value::Object(object),
    }
}

/// The variants of `serde_json::Value`, borrowed one for one.
#[verifier::external_body]
pub(crate) fn look<'a>(value: &'a serde_json::Value) -> (glimpse: Glimpse<'a>)
    ensures
        glimpse.json() == json_of(*value),
{
    match value {
        serde_json::Value::Null => Glimpse::Null,
        serde_json::Value::Bool(truth) => Glimpse::Bool(*truth),
        serde_json::Value::Number(number) => Glimpse::Number(number),
        serde_json::Value::String(text) => Glimpse::Text(text.as_str()),
        serde_json::Value::Array(items) => Glimpse::List(items),
        serde_json::Value::Object(object) => Glimpse::Object(object),
    }
}

/// `serde_json::Map::new`: an object without entries.
#[verifier::external_body]
pub(crate) fn new_object() -> (object: serde_json::Map<String, serde_json::Value>)
    ensures
        entries_of(object) == no_entries(),
{
    serde_json::Map::new()
}

/// `serde_json::Map::insert`: the value stands under the key afterwards, in
/// place of what stood there; the other entries stay.
#[verifier::external_body]
pub(crate) fn put(
    object: &mut serde_json::Map<String, serde_json::Value>,
    key: String,
    value: serde_json::Value,
)
    ensures
        entries_of(*final(object)) == entries_of(*old(object)).insert(key@, json_of(value)),
{
    object.insert(key, value);
}

/// `serde_json::Map::get`: the value under a key, where there is one.
#[verifier::external_body]
pub(crate) fn entry<'a>(
    object: &'a serde_json::Map<String, serde_json::Value>,
    key: &str,
) -> (res: Option<&'a serde_json::Value>)
    ensures
        match res {
            Some(value) => entries_of(*object).contains_key(key@) && entries_of(*object)[key@]
                == json_of(*value),
            None => !entries_of(*object).contains_key(key@),
        },
{
    object.get(key)
}

/// `serde_json::Map::remove`: the entry leaves, and its value is handed out; the
/// other entries stay.
#[verifier::external_body]
pub(crate) fn take(
    object: &mut serde_json::Map<String, serde_json::Value>,
    key: &str,
) -> (res: Option<serde_json::Value>)
    ensures
        entries_of(*final(object)) == entries_of(*old(object)).remove(key@),
        match res {
            Some(value) => entries_of(*old(object)).contains_key(key@) && entries_of(
                *old(object),
            )[key@] == json_of(value),
            None => !entries_of(*old(object)).contains_key(key@),
        },
{
    object.remove(key)
}

/// `serde_json::Map::keys`: every key once, in ascending order. The map is backed
/// by an ordered tree unless the crate's insertion-order feature is on, which this
/// library does not turn on.
#[verifier::external_body]
pub(crate) fn keys(object: &serde_json::Map<String, serde_json::Value>) -> (res: Vec<String>)
    ensures
        ascending(texts(res@)),
        forall|key: Seq<char>|
            texts(res@).contains(key) <==> #[trigger] entries_of(*object).contains_key(key),
{
    object.keys().cloned().collect()
}

/// `serde_json::Number` from a whole number: it prints as its decimal digits.
#[verifier::external_body]
pub(crate) fn whole(n: u64) -> (number: serde_json::Number)
    ensures
        number_text(number) == decimal(n as nat),
{
    serde_json::Number::from(n)
}

/// `serde_json::Number`'s `clone`: the same number.
pub assume_specification[ <serde_json::Number as Clone>::clone ](
    number: &serde_json::Number,
) -> (res: serde_json::Number)
    ensures
        res == *number,
;

/// `serde_json::Number`'s `==`: two numbers are equal when they print alike; the
/// two floating zeros print differently and are equal all the same.
#[verifier::external_body]
pub(crate) fn same_number(a: &serde_json::Number, b: &serde_json::Number) -> (res: bool)
    ensures
        res == equal_numbers(number_text(*a), number_text(*b)),
{
    a == b
}

/// `serde_json::from_str` into a `serde_json::Value`: what the text says, or the
/// complaint, both functions of the text alone. The reader refuses a text that nests
/// deeper than it goes.
#[verifier::external_body]
pub(crate) fn parse(text: &str) -> (res: Result<serde_json::Value, String>)
    ensures
        match res {
            Ok(value) => parsed(text@) == Reading::Says(json_of(value)) && nests_within(
                json_of(value),
                read_depth(),
            ),
            Err(why) => parsed(text@) == Reading::Fails(why@),
        },
{
    match serde_json::from_str(text) {
        Ok(value) => Ok(value),
        Err(why) => Err(why.to_string()),
    }
}

/// `serde_json::Value`'s `to_string`: the compact text. Where it does not nest deeper than
/// the reader goes, it is read again as the same but for its numbers, and as the same
/// altogether where those are whole. What the writer puts into it of its own are letters,
/// digits and JSON's punctuation: any other character comes from a text or a key.
#[verifier::external_body]
pub(crate) fn compact(value: &serde_json::Value) -> (text: String)
    ensures
        text@ == compact_text(json_of(*value)),
        nests_within(json_of(*value), read_depth()) ==> reads_alike(parsed(text@), json_of(*value)),
        readable(json_of(*value), read_depth()) ==> parsed(text@) == Reading::Says(json_of(*value)),
        forall|c: char|
            #![trigger text@.contains(c)]
            !is_json_punctuation(c) && free_of(json_of(*value), c) ==> !text@.contains(c),
{
    value.to_string()
}

/// `serde_json::to_string_pretty` of a `serde_json::Value`, which always succeeds:
/// the indented text. It is read again as the same under the conditions of `compact`.
#[verifier::external_body]
pub(crate) fn pretty(value: &serde_json::Value) -> (res: Result<String, String>)
    ensures
        res is Ok,
        res->Ok_0@ == pretty_text(json_of(*value)),
        nests_within(json_of(*value), read_depth()) ==> reads_alike(
            parsed(res->Ok_0@),
            json_of(*value),
        ),
        readable(json_of(*value), read_depth()) ==> parsed(res->Ok_0@) == Reading::Says(json_of(*value)),
{
    match serde_json::to_string_pretty(value) {
        Ok(text) => Ok(text),
        Err(why) => Err(why.to_string()),
    }
}

// ---------------------------------------------------------------------------
// Words for contracts
// ---------------------------------------------------------------------------

/// How many levels of lists and objects a text may nest and still be read.
pub open spec fn read_depth() -> nat {
    127
}

/// Whether a value has at most `depth` levels of lists and objects.
pub open spec fn nests_within(json: Json, depth: nat) -> bool
    decreases depth,
{
    match json {
        Json::List(items) => depth > 0 && forall|i: int|
            0 <= i < items.len() ==> nests_within(#[trigger] items[i], (depth - 1) as nat),
        Json::Object(entries) => depth > 0 && forall|key: Seq<char>| #[trigger]
            entries.contains_key(key) ==> nests_within(entries[key], (depth - 1) as nat),
        _ => true,
    }
}

/// Whether two values are the same but for their numbers, down to a number of levels.
pub open spec fn alike_to(a: Json, b: Json, depth: nat) -> bool
    decreases depth,
{
    match (a, b) {
        (Json::Number(_), Json::Number(_)) => true,
        (Json::List(xs), Json::List(ys)) => xs.len() == ys.len() && (depth > 0 ==> forall|i: int|
            0 <= i < xs.len() ==> alike_to(#[trigger] xs[i], ys[i], (depth - 1) as nat)),
        (Json::Object(xs), Json::Object(ys)) => xs.dom() == ys.dom() && (depth > 0 ==> forall|
            key: Seq<char>,
        | #[trigger]
            xs.contains_key(key) ==> alike_to(xs[key], ys[key], (depth - 1) as nat)),
        _ => a == b,
    }
}

/// Whether two values are the same but for their numbers.
pub open spec fn alike(a: Json, b: Json) -> bool {
    forall|depth: nat| #[trigger] alike_to(a, b, depth)
}

/// Whether a text was read as the same but for its numbers.
pub open spec fn reads_alike(reading: Reading, json: Json) -> bool {
    reading is Says && alike(json, reading->Says_0)
}

/// Whether no text and no key of a value holds a character, down to a number of levels.
pub open spec fn free_to(json: Json, c: char, depth: nat) -> bool
    decreases depth,
{
    match json {
        Json::Text(text) => !text.contains(c),
        Json::List(items) => depth > 0 ==> forall|i: int|
            0 <= i < items.len() ==> free_to(#[trigger] items[i], c, (depth - 1) as nat),
        Json::Object(entries) => forall|key: Seq<char>| #[trigger]
            entries.contains_key(key) ==> !key.contains(c) && (depth > 0 ==> free_to(
                entries[key],
                c,
                (depth - 1) as nat,
            )),
        _ => true,
    }
}

/// Whether no text and no key of a value holds a character.
pub open spec fn free_of(json: Json, c: char) -> bool {
    forall|depth: nat| #[trigger] free_to(json, c, depth)
}

/// The characters that JSON itself is written in: letters, digits, and its punctuation.
pub open spec fn is_json_punctuation(c: char) -> bool {
    ||| is_alphanumeric(c)
    ||| c == '{' || c == '}' || c == '[' || c == ']'
    ||| c == ':' || c == ',' || c == '"' || c == '\\'
    ||| c == '+' || c == '-' || c == '.'
}

/// The entries of an empty object.
pub open spec fn no_entries() -> Map<Seq<char>, Json> {
    Map::empty()
}

/// Whether the text of a number is one of the two floating zeros.
pub open spec fn is_zero(text: Seq<char>) -> bool {
    text == "0.0"@ || text == "-0.0"@
}

/// Equality of two JSON numbers, by their texts.
pub open spec fn equal_numbers(a: Seq<char>, b: Seq<char>) -> bool {
    a == b || (is_zero(a) && is_zero(b))
}

/// Whether the text of a number is that of a whole one, negative or not.
pub open spec fn is_whole(text: Seq<char>) -> bool {
    ||| exists|n: u64| text == #[trigger] decimal(n as nat)
    ||| exists|n: u64|
        1 <= n <= 0x8000_0000_0000_0000 && text == seq!['-'] + #[trigger] decimal(n as nat)
}

/// Whether a value comes back as it is when its text is read: its numbers are whole,
/// and it nests at most `depth` levels.
pub open spec fn readable(json: Json, depth: nat) -> bool
    decreases depth,
{
    match json {
        Json::Null | Json::Bool(_) | Json::Text(_) => true,
        Json::Number(text) => is_whole(text),
        Json::List(items) => depth > 0 && forall|i: int|
            0 <= i < items.len() ==> readable(#[trigger] items[i], (depth - 1) as nat),
        Json::Object(entries) => depth > 0 && forall|key: Seq<char>| #[trigger]
            entries.contains_key(key) ==> readable(entries[key], (depth - 1) as nat),
    }
}

/// What stands under a key of a value: nothing where the value is no object or has no
/// such key.
pub open spec fn at(json: Json, key: Seq<char>) -> Option<Json> {
    match json {
        Json::Object(entries) => if entries.contains_key(key) {
            Some(entries[key])
        } else {
            None
        },
        _ => None,
    }
}

/// The text that a value is, where it is one.
pub open spec fn as_text(json: Option<Json>) -> Option<Seq<char>> {
    match json {
        Some(Json::Text(text)) => Some(text),
        _ => None,
    }
}

/// What stands under a key of a value.
pub fn field<'a>(value: &'a serde_json::Value, key: &str) -> (res: Option<&'a serde_json::Value>)
    ensures
        match res {
            Some(inner) => at(json_of(*value), key@) == Some(json_of(*inner)),
            None => at(json_of(*value), key@) is None,
        },
{
    match look(value) {
        Glimpse::Object(object) => entry(object, key),
        _ => None,
    }
}

/// The text that a value is, where it is one.
pub fn text_in<'a>(value: Option<&'a serde_json::Value>) -> (res: Option<&'a str>)
    ensures
        match res {
            Some(text) => value is Some && json_of(*value->0) == Json::Text(text@),
            None => as_text(
                match value {
                    Some(inner) => Some(json_of(*inner)),
                    None => None,
                },
            ) is None,
        },
{
    match value {
        Some(inner) => match look(inner) {
            Glimpse::Text(text) => Some(text),
            _ => None,
        },
        None => None,
    }
}

/// A text as a JSON value.
pub fn text_value(text: &str) -> (value: serde_json::Value)
    ensures
        json_of(value) == Json::Text(text@),
{
    close(Node::Text(text.to_owned()))
}

/// A list of JSON values as one.
pub fn list_value(items: Vec<serde_json::Value>) -> (value: serde_json::Value)
    ensures
        json_of(value) == Json::List(jsons(items@)),
{
    close(Node::List(items))
}

/// A list that holds one value.
pub fn single_value(item: serde_json::Value) -> (value: serde_json::Value)
    ensures
        json_of(value) == Json::List(seq![json_of(item)]),
{
    let mut items: Vec<serde_json::Value> = Vec::new();
    items.push(item);
    proof {
        assert(jsons(items@) =~= seq![json_of(item)]);
    }
    list_value(items)
}

/// An object as a JSON value.
pub fn object_value(object: serde_json::Map<String, serde_json::Value>) -> (value:
    serde_json::Value)
    ensures
        json_of(value) == Json::Object(entries_of(object)),
{
    close(Node::Object(object))
}

/// A list of texts as JSON says it.
pub open spec fn text_list(list: Seq<Seq<char>>) -> Json {
    Json::List(list.map_values(|text: Seq<char>| Json::Text(text)))
}

/// A list of texts as a JSON value.
pub fn texts_value(list: &[String]) -> (value: serde_json::Value)
    ensures
        json_of(value) == text_list(texts(list@)),
{
    let mut items: Vec<serde_json::Value> = Vec::new();
    let mut i: usize = 0;
    while i < list.len()
        invariant
            i <= list@.len(),
            items@.len() == i,
            forall|j: int| 0 <= j < i ==> json_of(#[trigger] items@[j]) == Json::Text(list@[j]@),
        decreases list@.len() - i,
    {
        items.push(text_value(list[i].as_str()));
        i = i + 1;
    }
    proof {
        assert(jsons(items@) =~= texts(list@).map_values(|text: Seq<char>| Json::Text(text)));
    }
    list_value(items)
}

/// Put a text under a key of an object.
pub fn put_text(object: &mut serde_json::Map<String, serde_json::Value>, key: &str, text: &str)
    ensures
        entries_of(*final(object)) == entries_of(*old(object)).insert(key@, Json::Text(text@)),
{
    put(object, key.to_owned(), text_value(text));
}

/// Put a value under a key of an object.
pub fn put_value(
    object: &mut serde_json::Map<String, serde_json::Value>,
    key: &str,
    value: serde_json::Value,
)
    ensures
        entries_of(*final(object)) == entries_of(*old(object)).insert(key@, json_of(value)),
{
    put(object, key.to_owned(), value);
}

/// Whether every value of some entries comes back as it is when it is read.
pub open spec fn entries_readable(entries: Map<Seq<char>, Json>, depth: nat) -> bool {
    forall|key: Seq<char>| #[trigger]
        entries.contains_key(key) ==> readable(entries[key], depth)
}

/// A readable value put under a key leaves the entries readable.
pub proof fn lemma_insert_readable(
    entries: Map<Seq<char>, Json>,
    key: Seq<char>,
    json: Json,
    depth: nat,
)
    requires
        entries_readable(entries, depth),
        readable(json, depth),
    ensures
        entries_readable(entries.insert(key, json), depth),
{
}

/// A value that is readable at some depth is readable at any more.
pub proof fn lemma_deeper(json: Json, depth: nat, more: nat)
    requires
        readable(json, depth),
        depth <= more,
    ensures
        readable(json, more),
    decreases depth,
{
    match json {
        Json::List(items) => {
            assert forall|i: int| 0 <= i < items.len() implies readable(
                #[trigger] items[i],
                (more - 1) as nat,
            ) by {
                lemma_deeper(items[i], (depth - 1) as nat, (more - 1) as nat);
            }
        },
        Json::Object(entries) => {
            assert forall|key: Seq<char>| #[trigger] entries.contains_key(key) implies readable(
                entries[key],
                (more - 1) as nat,
            ) by {
                lemma_deeper(entries[key], (depth - 1) as nat, (more - 1) as nat);
            }
        },
        _ => {},
    }
}

/// A list of texts is readable.
pub proof fn lemma_text_list_readable(list: Seq<Seq<char>>, depth: nat)
    requires
        depth > 0,
    ensures
        readable(text_list(list), depth),
{
    let items = list.map_values(|text: Seq<char>| Json::Text(text));
    assert forall|i: int| 0 <= i < items.len() implies readable(
        #[trigger] items[i],
        (depth - 1) as nat,
    ) by {
        assert(items[i] == Json::Text(list[i]));
    }
}

/// A list of one readable value is readable one level up.
pub proof fn lemma_single_readable(json: Json, depth: nat)
    requires
        readable(json, depth),
    ensures
        readable(Json::List(seq![json]), depth + 1),
{
}

// ---------------------------------------------------------------------------
// Being alike
// ---------------------------------------------------------------------------

/// Every value is alike to itself.
pub proof fn law_a_value_is_alike_to_itself(json: Json)
    ensures
        alike(json, json),
{
    assert forall|depth: nat| #[trigger] alike_to(json, json, depth) by {
        lemma_alike_to_itself(json, depth);
    }
}

proof fn lemma_alike_to_itself(json: Json, depth: nat)
    ensures
        alike_to(json, json, depth),
    decreases depth,
{
    if depth > 0 {
        match json {
            Json::List(items) => {
                assert forall|i: int| 0 <= i < items.len() implies alike_to(
                    #[trigger] items[i],
                    items[i],
                    (depth - 1) as nat,
                ) by {
                    lemma_alike_to_itself(items[i], (depth - 1) as nat);
                }
            },
            Json::Object(entries) => {
                assert forall|key: Seq<char>| #[trigger] entries.contains_key(key) implies alike_to(
                    entries[key],
                    entries[key],
                    (depth - 1) as nat,
                ) by {
                    lemma_alike_to_itself(entries[key], (depth - 1) as nat);
                }
            },
            _ => {},
        }
    }
}

/// Alike values are of one form; where they are objects they have the same keys and alike
/// values under each, and where they hold no number at their top they are the same.
pub proof fn lemma_alike_parts(a: Json, b: Json)
    requires
        alike(a, b),
    ensures
        a is Object <==> b is Object,
        a is List <==> b is List,
        a is Number <==> b is Number,
        !(a is Object) && !(a is List) && !(a is Number) ==> a == b,
        a is Object ==> a->Object_0.dom() == b->Object_0.dom(),
        a is Object ==> forall|key: Seq<char>|
            #![trigger a->Object_0[key]]
            #![trigger b->Object_0[key]]
            a->Object_0.contains_key(key) ==> alike(a->Object_0[key], b->Object_0[key]),
        a is List ==> a->List_0.len() == b->List_0.len() && forall|i: int|
            #![trigger a->List_0[i]]
            0 <= i < a->List_0.len() ==> alike(a->List_0[i], b->List_0[i]),
{
    assert(alike_to(a, b, 0));
    if a is Object {
        assert forall|key: Seq<char>|
            #![trigger a->Object_0[key]]
            #![trigger b->Object_0[key]]
            a->Object_0.contains_key(key) implies alike(a->Object_0[key], b->Object_0[key]) by {
            assert forall|depth: nat| #[trigger]
                alike_to(a->Object_0[key], b->Object_0[key], depth) by {
                assert(alike_to(a, b, depth + 1));
            }
        }
    }
    if a is List {
        assert forall|i: int| #![trigger a->List_0[i]] 0 <= i < a->List_0.len() implies alike(
            a->List_0[i],
            b->List_0[i],
        ) by {
            assert forall|depth: nat| #[trigger] alike_to(a->List_0[i], b->List_0[i], depth) by {
                assert(alike_to(a, b, depth + 1));
            }
        }
    }
}

/// Whether a value holds no number, and nests at most `depth` levels.
pub open spec fn wordy(json: Json, depth: nat) -> bool
    decreases depth,
{
    match json {
        Json::Number(_) => false,
        Json::List(items) => depth > 0 && forall|i: int|
            0 <= i < items.len() ==> wordy(#[trigger] items[i], (depth - 1) as nat),
        Json::Object(entries) => depth > 0 && forall|key: Seq<char>| #[trigger]
            entries.contains_key(key) ==> wordy(entries[key], (depth - 1) as nat),
        _ => true,
    }
}

/// What is alike to a value without numbers is that value.
pub proof fn lemma_wordy_alike(a: Json, b: Json, depth: nat)
    requires
        wordy(a, depth),
        alike(a, b),
    ensures
        a == b,
    decreases depth,
{
    lemma_alike_parts(a, b);
    match (a, b) {
        (Json::List(xs), Json::List(ys)) => {
            assert forall|i: int| 0 <= i < xs.len() implies xs[i] == ys[i] by {
                assert(wordy(xs[i], (depth - 1) as nat));
                lemma_wordy_alike(xs[i], ys[i], (depth - 1) as nat);
            }
            assert(xs =~= ys);
        },
        (Json::Object(xs), Json::Object(ys)) => {
            assert forall|key: Seq<char>| xs.contains_key(key) implies xs[key] == ys[key] by {
                assert(wordy(xs[key], (depth - 1) as nat));
                lemma_wordy_alike(xs[key], ys[key], (depth - 1) as nat);
            }
            assert(xs =~= ys);
        },
        _ => {},
    }
}

/// A value that nests within some levels nests within more.
pub proof fn lemma_nests_deeper(json: Json, depth: nat, more: nat)
    requires
        nests_within(json, depth),
        depth <= more,
    ensures
        nests_within(json, more),
    decreases depth,
{
    match json {
        Json::List(items) => {
            assert forall|i: int| 0 <= i < items.len() implies nests_within(
                #[trigger] items[i],
                (more - 1) as nat,
            ) by {
                lemma_nests_deeper(items[i], (depth - 1) as nat, (more - 1) as nat);
            }
        },
        Json::Object(entries) => {
            assert forall|key: Seq<char>| #[trigger] entries.contains_key(key) implies nests_within(
                entries[key],
                (more - 1) as nat,
            ) by {
                lemma_nests_deeper(entries[key], (depth - 1) as nat, (more - 1) as nat);
            }
        },
        _ => {},
    }
}

/// A value that holds no number nests within the levels that say so.
pub proof fn lemma_wordy_nests(json: Json, depth: nat)
    requires
        wordy(json, depth),
    ensures
        nests_within(json, depth),
        readable(json, depth),
    decreases depth,
{
    match json {
        Json::List(items) => {
            assert forall|i: int| 0 <= i < items.len() implies nests_within(
                #[trigger] items[i],
                (depth - 1) as nat,
            ) && readable(items[i], (depth - 1) as nat) by {
                lemma_wordy_nests(items[i], (depth - 1) as nat);
            }
        },
        Json::Object(entries) => {
            assert forall|key: Seq<char>| #[trigger] entries.contains_key(key) implies nests_within(
                entries[key],
                (depth - 1) as nat,
            ) && readable(entries[key], (depth - 1) as nat) by {
                lemma_wordy_nests(entries[key], (depth - 1) as nat);
            }
        },
        _ => {},
    }
}

// ---------------------------------------------------------------------------
// Being free of a character
// ---------------------------------------------------------------------------

/// Whether no key of some entries, and nothing under one, holds a character.
pub open spec fn entries_free(entries: Map<Seq<char>, Json>, c: char) -> bool {
    forall|key: Seq<char>| #[trigger]
        entries.contains_key(key) ==> !key.contains(c) && free_of(entries[key], c)
}

/// A free value put under a free key leaves entries free.
pub proof fn lemma_insert_free(entries: Map<Seq<char>, Json>, key: Seq<char>, json: Json, c: char)
    requires
        entries_free(entries, c),
        !key.contains(c),
        free_of(json, c),
    ensures
        entries_free(entries.insert(key, json), c),
{
}

/// A text without a character is free of it.
pub proof fn lemma_text_free(text: Seq<char>, c: char)
    requires
        !text.contains(c),
    ensures
        free_of(Json::Text(text), c),
{
    assert forall|depth: nat| #[trigger] free_to(Json::Text(text), c, depth) by {}
}

/// A number holds no text.
pub proof fn lemma_number_free(text: Seq<char>, c: char)
    ensures
        free_of(Json::Number(text), c),
{
    assert forall|depth: nat| #[trigger] free_to(Json::Number(text), c, depth) by {}
}

/// A list of free values is free.
pub proof fn lemma_list_free(items: Seq<Json>, c: char)
    requires
        forall|i: int| 0 <= i < items.len() ==> free_of(#[trigger] items[i], c),
    ensures
        free_of(Json::List(items), c),
{
    assert forall|depth: nat| #[trigger] free_to(Json::List(items), c, depth) by {
        if depth > 0 {
            assert forall|i: int| 0 <= i < items.len() implies free_to(
                #[trigger] items[i],
                c,
                (depth - 1) as nat,
            ) by {
                assert(free_of(items[i], c));
            }
        }
    }
}

/// An object of free entries is free.
pub proof fn lemma_object_free(entries: Map<Seq<char>, Json>, c: char)
    requires
        entries_free(entries, c),
    ensures
        free_of(Json::Object(entries), c),
{
    assert forall|depth: nat| #[trigger] free_to(Json::Object(entries), c, depth) by {
        assert forall|key: Seq<char>| #[trigger] entries.contains_key(key) implies !key.contains(c)
            && (depth > 0 ==> free_to(entries[key], c, (depth - 1) as nat)) by {
            if depth > 0 {
                assert(free_to(entries[key], c, (depth - 1) as nat));
            }
        }
    }
}

} // verus!
