//! Text as a sequence of characters: the small operations that the rest of the
//! library is written in, each with what it computes.

use vstd::prelude::*;
use vstd::string::*;
use vstd::utf8::*;

verus! {

/// `String::push`: the character goes behind what the text already holds.
pub assume_specification[ String::push ](text: &mut String, c: char)
    ensures
        final(text)@ == old(text)@.push(c),
;

// ---------------------------------------------------------------------------
// Characters
// ---------------------------------------------------------------------------

/// The characters with the Unicode property `White_Space`.
pub open spec fn is_space(c: char) -> bool {
    ||| '\u{9}' <= c <= '\u{d}'
    ||| c == '\u{20}'
    ||| c == '\u{85}'
    ||| c == '\u{a0}'
    ||| c == '\u{1680}'
    ||| '\u{2000}' <= c <= '\u{200a}'
    ||| c == '\u{2028}'
    ||| c == '\u{2029}'
    ||| c == '\u{202f}'
    ||| c == '\u{205f}'
    ||| c == '\u{3000}'
}

/// Whether a character is white space.
pub fn whitespace(c: char) -> (res: bool)
    ensures
        res == is_space(c),
{
    ('\u{9}' <= c && c <= '\u{d}') || c == '\u{20}' || c == '\u{85}' || c == '\u{a0}' || c
        == '\u{1680}' || ('\u{2000}' <= c && c <= '\u{200a}') || c == '\u{2028}' || c == '\u{2029}'
        || c == '\u{202f}' || c == '\u{205f}' || c == '\u{3000}'
}

/// An ASCII letter or digit.
pub open spec fn is_alphanumeric(c: char) -> bool {
    ||| '0' <= c <= '9'
    ||| 'A' <= c <= 'Z'
    ||| 'a' <= c <= 'z'
}

/// Whether a character is an ASCII letter or digit.
pub fn alphanumeric(c: char) -> (res: bool)
    ensures
        res == is_alphanumeric(c),
{
    ('0' <= c && c <= '9') || ('A' <= c && c <= 'Z') || ('a' <= c && c <= 'z')
}

/// An ASCII capital folded to its small letter; any other character as it is.
pub open spec fn lowered(c: char) -> char {
    if 'A' <= c <= 'Z' {
        ((c as int) + 32) as char
    } else {
        c
    }
}

/// Fold an ASCII capital to its small letter.
pub fn lower(c: char) -> (res: char)
    ensures
        res == lowered(c),
{
    if 'A' <= c && c <= 'Z' {
        (c as u8 + 32) as char
    } else {
        c
    }
}

/// A text with every ASCII capital folded.
pub open spec fn lowered_text(s: Seq<char>) -> Seq<char> {
    s.map_values(|c: char| lowered(c))
}

// ---------------------------------------------------------------------------
// Between texts and their characters
// ---------------------------------------------------------------------------

/// The characters of a text, in order.
pub fn chars_of(text: &str) -> (chars: Vec<char>)
    ensures
        chars@ == text@,
{
    let mut chars: Vec<char> = Vec::new();
    for c in it: text.chars()
        invariant
            chars@ == text@.take(it.index() as int),
            it.seq() == text@,
    {
        chars.push(c);
        proof {
            assert(text@.take(it.index() + 1) =~= text@.take(it.index() as int).push(c));
        }
    }
    proof {
        assert(text@.take(text@.len() as int) =~= text@);
    }
    chars
}

/// The text between two places of a list of characters.
pub fn text_between(chars: &Vec<char>, from: usize, to: usize) -> (text: String)
    requires
        from <= to <= chars@.len(),
    ensures
        text@ == chars@.subrange(from as int, to as int),
{
    let mut text: String = String::new();
    let mut i: usize = from;
    proof {
        assert(chars@.subrange(from as int, from as int) =~= Seq::<char>::empty());
    }
    while i < to
        invariant
            from <= i <= to <= chars@.len(),
            text@ == chars@.subrange(from as int, i as int),
        decreases to - i,
    {
        text.push(chars[i]);
        proof {
            assert(chars@.subrange(from as int, i + 1) =~= chars@.subrange(
                from as int,
                i as int,
            ).push(chars@[i as int]));
        }
        i = i + 1;
    }
    text
}

/// The text that a list of characters spells.
pub fn text_of(chars: &Vec<char>) -> (text: String)
    ensures
        text@ == chars@,
{
    proof {
        assert(chars@.subrange(0, chars@.len() as int) =~= chars@);
    }
    text_between(chars, 0, chars.len())
}

/// Two texts with the same UTF-8 bytes are the same text.
pub proof fn lemma_bytes_tell_texts_apart(a: Seq<char>, b: Seq<char>)
    requires
        encode_utf8(a) == encode_utf8(b),
    ensures
        a == b,
{
    encode_utf8_decode_utf8(a);
    encode_utf8_decode_utf8(b);
}

/// Whether two texts are the same.
pub fn same_text(a: &str, b: &str) -> (res: bool)
    ensures
        res == (a@ == b@),
{
    let left: &[u8] = a.as_bytes();
    let right: &[u8] = b.as_bytes();
    if left.len() != right.len() {
        return false;
    }
    let mut i: usize = 0;
    while i < left.len()
        invariant
            i <= left@.len(),
            left@.len() == right@.len(),
            left@ == encode_utf8(a@),
            right@ == encode_utf8(b@),
            forall|j: int| 0 <= j < i ==> left@[j] == right@[j],
        decreases left@.len() - i,
    {
        if left[i] != right[i] {
            return false;
        }
        i = i + 1;
    }
    proof {
        assert(left@ =~= right@);
        lemma_bytes_tell_texts_apart(a@, b@);
    }
    true
}

/// The views of a list of texts.
pub open spec fn texts(list: Seq<String>) -> Seq<Seq<char>> {
    list.map_values(|text: String| text@)
}

/// A copy of a list of texts.
pub fn copy_texts(list: &[String]) -> (res: Vec<String>)
    ensures
        texts(res@) == texts(list@),
        res@ == list@,
{
    let mut res: Vec<String> = Vec::new();
    let mut i: usize = 0;
    while i < list.len()
        invariant
            i <= list@.len(),
            res@ == list@.take(i as int),
        decreases list@.len() - i,
    {
        res.push(list[i].clone());
        proof {
            assert(list@.take(i + 1) =~= list@.take(i as int).push(list@[i as int]));
        }
        i = i + 1;
    }
    proof {
        assert(list@.take(list@.len() as int) =~= list@);
    }
    res
}

/// What an optional text holds.
pub open spec fn opt_text(text: Option<String>) -> Option<Seq<char>> {
    match text {
        Some(text) => Some(text@),
        None => None,
    }
}

/// What an optional borrowed text holds.
pub open spec fn opt_str(text: Option<&str>) -> Option<Seq<char>> {
    match text {
        Some(text) => Some(text@),
        None => None,
    }
}

/// An optional borrowed text, owned.
pub fn owned(text: Option<&str>) -> (res: Option<String>)
    ensures
        opt_text(res) == opt_str(text),
{
    match text {
        Some(text) => Some(text.to_owned()),
        None => None,
    }
}

/// An optional text, borrowed.
pub fn borrowed(text: &Option<String>) -> (res: Option<&str>)
    ensures
        opt_str(res) == opt_text(*text),
{
    match text {
        Some(text) => Some(text.as_str()),
        None => None,
    }
}

// ---------------------------------------------------------------------------
// White space at the ends
// ---------------------------------------------------------------------------

/// A text without the white space before its first other character.
pub open spec fn trimmed_start(s: Seq<char>) -> Seq<char>
    decreases s.len(),
{
    if s.len() > 0 && is_space(s[0]) {
        trimmed_start(s.skip(1))
    } else {
        s
    }
}

/// A text without the white space behind its last other character.
pub open spec fn trimmed_end(s: Seq<char>) -> Seq<char>
    decreases s.len(),
{
    if s.len() > 0 && is_space(s.last()) {
        trimmed_end(s.drop_last())
    } else {
        s
    }
}

/// A text without the white space at its ends.
pub open spec fn trimmed(s: Seq<char>) -> Seq<char> {
    trimmed_end(trimmed_start(s))
}

proof fn lemma_trimmed_start_at(s: Seq<char>, i: int)
    requires
        0 <= i <= s.len(),
        forall|j: int| 0 <= j < i ==> is_space(#[trigger] s[j]),
        i < s.len() ==> !is_space(s[i]),
    ensures
        trimmed_start(s) == s.skip(i),
    decreases s.len(),
{
    if i > 0 {
        assert(is_space(s[0]));
        let rest = s.skip(1);
        assert forall|j: int| 0 <= j < i - 1 implies is_space(#[trigger] rest[j]) by {
            assert(rest[j] == s[j + 1]);
        }
        lemma_trimmed_start_at(rest, i - 1);
        assert(rest.skip(i - 1) =~= s.skip(i));
    } else {
        assert(s.skip(0) =~= s);
    }
}

proof fn lemma_trimmed_end_at(s: Seq<char>, i: int)
    requires
        0 <= i <= s.len(),
        forall|j: int| i <= j < s.len() ==> is_space(#[trigger] s[j]),
        i > 0 ==> !is_space(s[i - 1]),
    ensures
        trimmed_end(s) == s.take(i),
    decreases s.len(),
{
    if i < s.len() {
        assert(is_space(s[s.len() - 1]));
        let rest = s.drop_last();
        assert forall|j: int| i <= j < rest.len() implies is_space(#[trigger] rest[j]) by {
            assert(rest[j] == s[j]);
        }
        lemma_trimmed_end_at(rest, i);
        assert(rest.take(i) =~= s.take(i));
    } else {
        assert(s.take(i) =~= s);
    }
}

/// A trimmed text holds no white space at either end.
pub proof fn lemma_trimmed_ends(s: Seq<char>)
    ensures
        trimmed(s).len() <= s.len(),
        trimmed(s).len() > 0 ==> !is_space(trimmed(s)[0]) && !is_space(trimmed(s).last()),
{
    lemma_trimmed_start_clean(s);
    lemma_trimmed_end_clean(trimmed_start(s));
}

proof fn lemma_trimmed_start_clean(s: Seq<char>)
    ensures
        trimmed_start(s).len() <= s.len(),
        trimmed_start(s).len() > 0 ==> !is_space(trimmed_start(s)[0]),
    decreases s.len(),
{
    if s.len() > 0 && is_space(s[0]) {
        lemma_trimmed_start_clean(s.skip(1));
    }
}

proof fn lemma_trimmed_end_clean(s: Seq<char>)
    ensures
        trimmed_end(s).len() <= s.len(),
        trimmed_end(s) == s.take(trimmed_end(s).len() as int),
        trimmed_end(s).len() > 0 ==> !is_space(trimmed_end(s).last()),
        trimmed_end(s).len() > 0 ==> trimmed_end(s)[0] == s[0],
    decreases s.len(),
{
    if s.len() > 0 && is_space(s.last()) {
        lemma_trimmed_end_clean(s.drop_last());
        let n = trimmed_end(s).len() as int;
        assert(s.drop_last().take(n) =~= s.take(n));
    } else {
        assert(s.take(s.len() as int) =~= s);
    }
}

/// Trimming a trimmed text changes nothing.
pub proof fn lemma_trimmed_twice(s: Seq<char>)
    ensures
        trimmed(trimmed(s)) == trimmed(s),
{
    lemma_trimmed_ends(s);
}

/// Trimming takes white space away at the two ends and nothing else: a text is what was
/// trimmed with white space before and behind it, and what was trimmed neither begins nor
/// ends with any.
pub proof fn law_trimming_takes_only_white_space(s: Seq<char>)
    ensures
        exists|from: int|
            {
                &&& 0 <= from
                &&& from + trimmed(s).len() <= s.len()
                &&& trimmed(s) == #[trigger] s.subrange(from, from + trimmed(s).len())
                &&& forall|i: int|
                    (0 <= i < from || from + trimmed(s).len() <= i < s.len()) ==> is_space(
                        #[trigger] s[i],
                    )
            },
        trimmed(s).len() > 0 ==> !is_space(trimmed(s)[0]) && !is_space(trimmed(s).last()),
        (forall|i: int| 0 <= i < s.len() ==> is_space(#[trigger] s[i])) <==> trimmed(s).len() == 0,
{
    lemma_trimmed_ends(s);
    let a = lemma_trimmed_start_parts(s);
    let rest = s.skip(a);
    let n = lemma_trimmed_end_parts(rest);
    assert(trimmed(s) == rest.take(n));
    assert(rest.take(n) =~= s.subrange(a, a + n));
    assert forall|i: int| (0 <= i < a || a + n <= i < s.len()) implies is_space(#[trigger] s[i]) by {
        if i >= a {
            assert(rest[i - a] == s[i]);
        }
    }
    if n > 0 {
        assert(s[a] == trimmed(s)[0]);
    }
}

proof fn lemma_trimmed_start_parts(s: Seq<char>) -> (from: int)
    ensures
        0 <= from <= s.len(),
        trimmed_start(s) == s.skip(from),
        forall|i: int| 0 <= i < from ==> is_space(#[trigger] s[i]),
    decreases s.len(),
{
    if s.len() > 0 && is_space(s[0]) {
        let rest = s.skip(1);
        let from = lemma_trimmed_start_parts(rest);
        assert(rest.skip(from) =~= s.skip(from + 1));
        assert forall|i: int| 0 <= i < from + 1 implies is_space(#[trigger] s[i]) by {
            if i > 0 {
                assert(rest[i - 1] == s[i]);
            }
        }
        from + 1
    } else {
        assert(s.skip(0) =~= s);
        0
    }
}

proof fn lemma_trimmed_end_parts(s: Seq<char>) -> (to: int)
    ensures
        0 <= to <= s.len(),
        trimmed_end(s) == s.take(to),
        forall|i: int| to <= i < s.len() ==> is_space(#[trigger] s[i]),
    decreases s.len(),
{
    if s.len() > 0 && is_space(s.last()) {
        let rest = s.drop_last();
        let to = lemma_trimmed_end_parts(rest);
        assert(rest.take(to) =~= s.take(to));
        assert forall|i: int| to <= i < s.len() implies is_space(#[trigger] s[i]) by {
            if i < rest.len() {
                assert(rest[i] == s[i]);
            }
        }
        to
    } else {
        assert(s.take(s.len() as int) =~= s);
        s.len() as int
    }
}

/// A text without the white space at its ends.
pub fn trim(text: &str) -> (res: &str)
    ensures
        res@ == trimmed(text@),
{
    let chars = chars_of(text);
    let mut from: usize = 0;
    while from < chars.len() && whitespace(chars[from])
        invariant
            from <= chars@.len(),
            forall|j: int| 0 <= j < from ==> is_space(#[trigger] chars@[j]),
        decreases chars@.len() - from,
    {
        from = from + 1;
    }
    let mut to: usize = chars.len();
    while to > from && whitespace(chars[to - 1])
        invariant
            from <= to <= chars@.len(),
            forall|j: int| to <= j < chars@.len() ==> is_space(#[trigger] chars@[j]),
        decreases to,
    {
        to = to - 1;
    }
    proof {
        lemma_trimmed_start_at(text@, from as int);
        let rest = text@.skip(from as int);
        assert forall|j: int| to - from <= j < rest.len() implies is_space(#[trigger] rest[j]) by {
            assert(rest[j] == text@[j + from]);
        }
        if to > from {
            assert(rest[to - from - 1] == text@[to - 1]);
        }
        lemma_trimmed_end_at(rest, to - from);
        assert(rest.take(to - from) =~= text@.subrange(from as int, to as int));
    }
    text.substring_char(from, to)
}

/// What a field holds besides the white space at its ends, if it holds anything: blank is
/// the same state as absent.
pub open spec fn given(field: Option<Seq<char>>) -> Option<Seq<char>> {
    match field {
        Some(text) => if trimmed(text).len() > 0 {
            Some(trimmed(text))
        } else {
            None
        },
        None => None,
    }
}

/// A field holds something exactly where it is there and not white space alone, and then it
/// holds what is left when it is trimmed.
pub proof fn law_a_blank_field_holds_nothing(field: Option<Seq<char>>)
    ensures
        given(field) is Some <==> field is Some && exists|i: int|
            0 <= i < field->0.len() && !is_space(#[trigger] field->0[i]),
        given(field) is Some ==> given(field)->0 == trimmed(field->0),
{
    if let Some(text) = field {
        law_trimming_takes_only_white_space(text);
    }
}

/// What a field holds besides the white space at its ends, if it holds anything.
pub fn given_text(field: Option<&str>) -> (res: Option<&str>)
    ensures
        opt_str(res) == given(opt_str(field)),
{
    match field {
        Some(text) => {
            let kept = trim(text);
            if kept.unicode_len() > 0 {
                Some(kept)
            } else {
                None
            }
        },
        None => None,
    }
}

// ---------------------------------------------------------------------------
// Finding
// ---------------------------------------------------------------------------

/// Where an item first stands in a sequence; the sequence's length where it does not.
pub open spec fn first_at<T>(s: Seq<T>, c: T) -> int
    decreases s.len(),
{
    if s.len() == 0 || s[0] == c {
        0
    } else {
        1 + first_at(s.skip(1), c)
    }
}

pub proof fn lemma_first_at<T>(s: Seq<T>, c: T)
    ensures
        0 <= first_at(s, c) <= s.len(),
        forall|i: int| 0 <= i < first_at(s, c) ==> s[i] != c,
        first_at(s, c) < s.len() ==> s[first_at(s, c)] == c,
    decreases s.len(),
{
    if s.len() > 0 && s[0] != c {
        let rest = s.skip(1);
        lemma_first_at(rest, c);
        assert forall|i: int| 0 <= i < first_at(s, c) implies s[i] != c by {
            if i > 0 {
                assert(s[i] == rest[i - 1]);
            }
        }
    }
}

pub proof fn lemma_first_at_is<T>(s: Seq<T>, c: T, at: int)
    requires
        0 <= at <= s.len(),
        forall|i: int| 0 <= i < at ==> s[i] != c,
        at < s.len() ==> s[at] == c,
    ensures
        first_at(s, c) == at,
{
    lemma_first_at(s, c);
    let found = first_at(s, c);
    if found < at {
        assert(s[found] != c);
    } else if at < found {
        assert(s[at] != c);
    }
}

/// Where a character first stands at or behind a place.
pub fn find_from(chars: &Vec<char>, from: usize, c: char) -> (at: usize)
    requires
        from <= chars@.len(),
    ensures
        from <= at <= chars@.len(),
        at == from + first_at(chars@.skip(from as int), c),
        forall|i: int| from <= i < at ==> chars@[i] != c,
        at < chars@.len() ==> chars@[at as int] == c,
{
    let mut at: usize = from;
    while at < chars.len() && chars[at] != c
        invariant
            from <= at <= chars@.len(),
            forall|i: int| from <= i < at ==> chars@[i] != c,
        decreases chars@.len() - at,
    {
        at = at + 1;
    }
    proof {
        lemma_first_at_is(chars@.skip(from as int), c, at - from);
    }
    at
}

/// What stands before the first of a character, or the whole text.
pub open spec fn before(s: Seq<char>, c: char) -> Seq<char> {
    s.take(first_at(s, c))
}

/// Whether a text begins with another.
pub open spec fn starts(s: Seq<char>, prefix: Seq<char>) -> bool {
    s.len() >= prefix.len() && s.take(prefix.len() as int) == prefix
}

/// Whether the characters from a place on begin with a text.
pub fn starts_at(chars: &Vec<char>, from: usize, prefix: &Vec<char>) -> (res: bool)
    requires
        from <= chars@.len(),
    ensures
        res == starts(chars@.skip(from as int), prefix@),
{
    if prefix.len() > chars.len() - from {
        return false;
    }
    let mut i: usize = 0;
    while i < prefix.len()
        invariant
            i <= prefix@.len(),
            from + prefix@.len() <= chars.len(),
            forall|j: int| 0 <= j < i ==> chars@[from + j] == #[trigger] prefix@[j],
        decreases prefix@.len() - i,
    {
        if chars[from + i] != prefix[i] {
            proof {
                assert(chars@.skip(from as int).take(prefix@.len() as int)[i as int]
                    == chars@[from + i]);
            }
            return false;
        }
        i = i + 1;
    }
    proof {
        assert(chars@.skip(from as int).take(prefix@.len() as int) =~= prefix@);
    }
    true
}

/// Whether a text begins with another.
pub fn starts_with(text: &str, prefix: &str) -> (res: bool)
    ensures
        res == starts(text@, prefix@),
{
    let chars = chars_of(text);
    let wanted = chars_of(prefix);
    proof {
        assert(chars@.skip(0) =~= chars@);
    }
    starts_at(&chars, 0, &wanted)
}

/// Whether a text holds a character.
pub fn holds_char(text: &str, c: char) -> (res: bool)
    ensures
        res == text@.contains(c),
{
    let chars = chars_of(text);
    let at = find_from(&chars, 0, c);
    proof {
        if at < chars@.len() {
            assert(text@[at as int] == c);
        }
    }
    at < chars.len()
}

/// Whether a list of texts holds one.
pub fn holds_text(list: &[String], text: &str) -> (res: bool)
    ensures
        res == texts(list@).contains(text@),
{
    let mut i: usize = 0;
    while i < list.len()
        invariant
            i <= list@.len(),
            forall|j: int| 0 <= j < i ==> (#[trigger] list@[j])@ != text@,
        decreases list@.len() - i,
    {
        if same_text(list[i].as_str(), text) {
            proof {
                assert(texts(list@)[i as int] == text@);
            }
            return true;
        }
        i = i + 1;
    }
    proof {
        assert forall|j: int| 0 <= j < texts(list@).len() implies texts(list@)[j] != text@ by {
            assert(texts(list@)[j] == list@[j]@);
        }
    }
    false
}

// ---------------------------------------------------------------------------
// Order
// ---------------------------------------------------------------------------

/// Dictionary order by code point, which is also the order of the UTF-8 bytes.
pub open spec fn text_less(a: Seq<char>, b: Seq<char>) -> bool
    decreases a.len(),
{
    &&& b.len() > 0
    &&& a.len() == 0 || a[0] < b[0] || (a[0] == b[0] && text_less(a.skip(1), b.skip(1)))
}

/// Texts in strictly ascending order.
pub open spec fn ascending(list: Seq<Seq<char>>) -> bool {
    forall|i: int, j: int|
        0 <= i < j < list.len() ==> text_less(#[trigger] list[i], #[trigger] list[j])
}

/// No text comes before itself.
pub proof fn lemma_less_irreflexive(a: Seq<char>)
    ensures
        !text_less(a, a),
    decreases a.len(),
{
    if a.len() > 0 {
        lemma_less_irreflexive(a.skip(1));
    }
}

/// The order of texts is transitive.
pub proof fn lemma_less_transitive(a: Seq<char>, b: Seq<char>, c: Seq<char>)
    requires
        text_less(a, b),
        text_less(b, c),
    ensures
        text_less(a, c),
    decreases a.len(),
{
    if a.len() > 0 && a[0] == b[0] && b[0] == c[0] {
        lemma_less_transitive(a.skip(1), b.skip(1), c.skip(1));
    }
}

/// Of two different texts one comes before the other.
pub proof fn lemma_less_total(a: Seq<char>, b: Seq<char>)
    ensures
        text_less(a, b) || a == b || text_less(b, a),
    decreases a.len(),
{
    if a.len() > 0 && b.len() > 0 && a[0] == b[0] {
        lemma_less_total(a.skip(1), b.skip(1));
        if a.skip(1) == b.skip(1) {
            assert(a =~= seq![a[0]] + a.skip(1));
            assert(b =~= seq![b[0]] + b.skip(1));
        }
    } else if a.len() == 0 && b.len() == 0 {
        assert(a =~= b);
    }
}

/// Whether a text comes before another or is that text.
pub open spec fn no_later(a: Seq<char>, b: Seq<char>) -> bool {
    a == b || text_less(a, b)
}

/// What stands behind one beginning is ordered as it is alone.
pub proof fn lemma_less_behind(start: Seq<char>, a: Seq<char>, b: Seq<char>)
    requires
        text_less(a, b),
    ensures
        text_less(start + a, start + b),
    decreases start.len(),
{
    if start.len() == 0 {
        assert(start + a =~= a);
        assert(start + b =~= b);
    } else {
        lemma_less_behind(start.skip(1), a, b);
        assert((start + a).skip(1) =~= start.skip(1) + a);
        assert((start + b).skip(1) =~= start.skip(1) + b);
    }
}

/// Of texts of one length, what stands behind them does not change their order.
pub proof fn lemma_less_before(a: Seq<char>, b: Seq<char>, x: Seq<char>, y: Seq<char>)
    requires
        a.len() == b.len(),
        text_less(a, b),
    ensures
        text_less(a + x, b + y),
    decreases a.len(),
{
    if a.len() > 0 && a[0] == b[0] {
        lemma_less_before(a.skip(1), b.skip(1), x, y);
        assert((a + x).skip(1) =~= a.skip(1) + x);
        assert((b + y).skip(1) =~= b.skip(1) + y);
    }
}

/// Whether one text comes before another.
pub fn less(a: &str, b: &str) -> (res: bool)
    ensures
        res == text_less(a@, b@),
{
    let left = chars_of(a);
    let right = chars_of(b);
    let mut i: usize = 0;
    proof {
        assert(left@.skip(0) =~= left@);
        assert(right@.skip(0) =~= right@);
    }
    while i < left.len() && i < right.len()
        invariant
            i <= left@.len(),
            i <= right@.len(),
            left@ == a@,
            right@ == b@,
            text_less(a@, b@) == text_less(left@.skip(i as int), right@.skip(i as int)),
        decreases left@.len() - i,
    {
        let ghost l = left@.skip(i as int);
        let ghost r = right@.skip(i as int);
        proof {
            assert(l[0] == left@[i as int]);
            assert(r[0] == right@[i as int]);
            assert(l.skip(1) =~= left@.skip(i + 1));
            assert(r.skip(1) =~= right@.skip(i + 1));
        }
        if left[i] < right[i] {
            return true;
        }
        if left[i] > right[i] {
            return false;
        }
        i = i + 1;
    }
    i < right.len()
}

// ---------------------------------------------------------------------------
// Numbers
// ---------------------------------------------------------------------------

/// The digit of a value below ten.
pub open spec fn digit(n: nat) -> char {
    (48 + n) as char
}

/// A number in decimal, without leading zeros.
pub open spec fn decimal(n: nat) -> Seq<char>
    decreases n,
{
    if n < 10 {
        seq![digit(n)]
    } else {
        decimal(n / 10).push(digit(n % 10))
    }
}

/// A number in decimal.
pub fn decimal_text(n: u64) -> (text: String)
    ensures
        text@ == decimal(n as nat),
    decreases n,
{
    let mut text: String = if n < 10 {
        String::new()
    } else {
        decimal_text(n / 10)
    };
    let last: u8 = (n % 10) as u8;
    text.push((48 + last) as char);
    proof {
        if n < 10 {
            assert(text@ =~= decimal(n as nat));
        }
    }
    text
}

/// A number in decimal, filled up with zeros on the left to a width.
pub open spec fn padded(n: nat, width: nat) -> Seq<char> {
    let digits = decimal(n);
    if digits.len() >= width {
        digits
    } else {
        Seq::new((width - digits.len()) as nat, |i: int| '0') + digits
    }
}

proof fn lemma_decimal_not_empty(n: nat)
    ensures
        decimal(n).len() > 0,
    decreases n,
{
    if n >= 10 {
        lemma_decimal_not_empty(n / 10);
    }
}

/// A number in decimal, filled up with zeros on the left to a width.
pub fn padded_text(n: u64, width: usize) -> (text: String)
    ensures
        text@ == padded(n as nat, width as nat),
{
    let digits = decimal_text(n);
    let count: usize = digits.as_str().unicode_len();
    if count >= width {
        return digits;
    }
    let mut text: String = String::new();
    let mut i: usize = 0;
    while i < width - count
        invariant
            i <= width - count,
            count < width,
            text@ =~= Seq::new(i as nat, |k: int| '0'),
        decreases width - count - i,
    {
        text.push('0');
        i = i + 1;
    }
    text.append(digits.as_str());
    proof {
        assert(text@ =~= padded(n as nat, width as nat));
    }
    text
}

/// A power of ten.
pub open spec fn pow10(k: nat) -> nat
    decreases k,
{
    if k == 0 {
        1
    } else {
        10 * pow10((k - 1) as nat)
    }
}

/// The last digits of a number, as many as a width.
pub open spec fn last_digits(n: nat, width: nat) -> Seq<char>
    decreases width,
{
    if width == 0 {
        Seq::empty()
    } else {
        last_digits(n / 10, (width - 1) as nat).push(digit(n % 10))
    }
}

proof fn lemma_last_digits_of_zero(width: nat)
    ensures
        last_digits(0, width) == Seq::new(width, |i: int| '0'),
    decreases width,
{
    if width > 0 {
        lemma_last_digits_of_zero((width - 1) as nat);
    }
    assert(last_digits(0, width) =~= Seq::new(width, |i: int| '0'));
}

/// A number that fits a width is written in exactly as many digits.
pub proof fn lemma_padded_digits(n: nat, width: nat)
    requires
        width >= 1,
        n < pow10(width),
    ensures
        padded(n, width) == last_digits(n, width),
        padded(n, width).len() == width,
        decimal(n).len() <= width,
    decreases width,
{
    let less = (width - 1) as nat;
    if n < 10 {
        lemma_last_digits_of_zero(less);
        assert(n / 10 == 0 && n % 10 == n);
        assert(padded(n, width) =~= last_digits(n, width));
    } else {
        if width == 1 {
            assert(pow10(1) == 10) by {
                reveal_with_fuel(pow10, 2);
            }
        }
        assert(n / 10 < pow10(less));
        lemma_padded_digits(n / 10, less);
        assert(padded(n, width) =~= padded(n / 10, less).push(digit(n % 10)));
    }
}

proof fn lemma_last_digits_order(a: nat, b: nat, width: nat)
    requires
        a < b < pow10(width),
    ensures
        text_less(last_digits(a, width), last_digits(b, width)),
        last_digits(a, width).len() == width,
        last_digits(b, width).len() == width,
    decreases width,
{
    if width > 0 {
        let less = (width - 1) as nat;
        let x = seq![digit(a % 10)];
        let y = seq![digit(b % 10)];
        let p = last_digits(a / 10, less);
        let q = last_digits(b / 10, less);
        assert(last_digits(a, width) =~= p + x);
        assert(last_digits(b, width) =~= q + y);
        lemma_last_digits_len(a / 10, less);
        lemma_last_digits_len(b / 10, less);
        if a / 10 < b / 10 {
            lemma_last_digits_order(a / 10, b / 10, less);
            lemma_less_before(p, q, x, y);
        } else {
            assert(a / 10 == b / 10);
            assert(a % 10 < b % 10);
            assert(text_less(x, y));
            lemma_less_behind(p, x, y);
        }
    }
}

proof fn lemma_last_digits_len(n: nat, width: nat)
    ensures
        last_digits(n, width).len() == width,
    decreases width,
{
    if width > 0 {
        lemma_last_digits_len(n / 10, (width - 1) as nat);
    }
}

/// Numbers written to one width are ordered as texts as they are as numbers.
pub proof fn lemma_padded_order(a: nat, b: nat, width: nat)
    requires
        width >= 1,
        a < b < pow10(width),
    ensures
        text_less(padded(a, width), padded(b, width)),
{
    lemma_padded_digits(a, width);
    lemma_padded_digits(b, width);
    lemma_last_digits_order(a, b, width);
}

/// The code points that are white space.
pub open spec fn is_space_code(code: int) -> bool {
    ||| 9 <= code <= 13
    ||| code == 32 || code == 133 || code == 160 || code == 5760
    ||| 8192 <= code <= 8202
    ||| code == 8232 || code == 8233 || code == 8239 || code == 8287 || code == 12288
}

/// White space, letters and digits are told by their code points; a capital is folded to the
/// small letter of the same place in the alphabet, and nothing else is.
pub proof fn law_characters_are_told_by_their_code_points(c: char)
    ensures
        is_space(c) <==> is_space_code(c as int),
        is_alphanumeric(c) <==> 48 <= c as int <= 57 || 65 <= c as int <= 90 || 97 <= c as int
            <= 122,
        65 <= c as int <= 90 ==> lowered(c) as int == c as int + 32,
        !(65 <= c as int <= 90) ==> lowered(c) == c,
{
}

/// A text is before another in the dictionary where it is the beginning of the other, which is
/// longer, and where its character is the smaller one at the first place they differ.
pub proof fn law_dictionary_order(a: Seq<char>, b: Seq<char>, k: int)
    requires
        0 <= k <= a.len(),
        k <= b.len(),
        forall|i: int| 0 <= i < k ==> a[i] == b[i],
    ensures
        k == a.len() ==> (text_less(a, b) <==> k < b.len()),
        k == b.len() ==> !text_less(a, b),
        k < a.len() && k < b.len() && a[k] != b[k] ==> (text_less(a, b) <==> a[k] < b[k]),
    decreases k,
{
    if k > 0 {
        let x = a.skip(1);
        let y = b.skip(1);
        assert forall|i: int| 0 <= i < k - 1 implies x[i] == y[i] by {
            assert(a[i + 1] == b[i + 1]);
        }
        law_dictionary_order(x, y, k - 1);
    }
}

} // verus!
