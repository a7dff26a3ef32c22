//! Percent coding of one address segment.

use vstd::prelude::*;
use vstd::string::*;
use vstd::utf8::*;

use crate::text::is_alphanumeric;

verus! {

/// The bytes that stand for themselves in an address segment.
pub open spec fn unreserved(b: u8) -> bool {
    ||| 0x30 <= b <= 0x39
    ||| 0x41 <= b <= 0x5a
    ||| 0x61 <= b <= 0x7a
    ||| b == 0x2d
    ||| b == 0x5f
    ||| b == 0x2e
    ||| b == 0x7e
}

/// The capital hexadecimal digit of a value below sixteen.
pub open spec fn hex_digit(n: int) -> char {
    if n < 10 {
        (48 + n) as char
    } else {
        (55 + n) as char
    }
}

/// The value of a hexadecimal digit of either case.
pub open spec fn hex_value(b: u8) -> Option<u8> {
    if 0x30 <= b <= 0x39 {
        Some((b - 0x30) as u8)
    } else if 0x41 <= b <= 0x46 {
        Some((b - 0x37) as u8)
    } else if 0x61 <= b <= 0x66 {
        Some((b - 0x57) as u8)
    } else {
        None
    }
}

/// One byte as it is written: itself, or a percent sign and its two digits.
pub open spec fn encoded_byte(b: u8) -> Seq<char> {
    if unreserved(b) {
        seq![b as char]
    } else {
        seq!['%', hex_digit(b as int / 16), hex_digit(b as int % 16)]
    }
}

/// Bytes as they are written.
pub open spec fn encoded_bytes(bytes: Seq<u8>) -> Seq<char>
    decreases bytes.len(),
{
    if bytes.len() == 0 {
        Seq::empty()
    } else {
        encoded_byte(bytes[0]) + encoded_bytes(bytes.skip(1))
    }
}

/// A text as it is written: its UTF-8 bytes, each outside the unreserved set as `%XX`.
pub open spec fn encoded(text: Seq<char>) -> Seq<char> {
    encoded_bytes(encode_utf8(text))
}

/// The bytes that written bytes stand for: none where a percent sign is not followed by
/// two hexadecimal digits.
pub open spec fn decoded_bytes(bytes: Seq<u8>) -> Option<Seq<u8>>
    decreases bytes.len(),
{
    if bytes.len() == 0 {
        Some(Seq::empty())
    } else if bytes[0] == 0x25 {
        if bytes.len() < 3 {
            None
        } else {
            match (hex_value(bytes[1]), hex_value(bytes[2]), decoded_bytes(bytes.skip(3))) {
                (Some(high), Some(low), Some(rest)) => Some(
                    seq![(16 * high + low) as u8] + rest,
                ),
                _ => None,
            }
        }
    } else {
        match decoded_bytes(bytes.skip(1)) {
            Some(rest) => Some(seq![bytes[0]] + rest),
            None => None,
        }
    }
}

/// The text that a written text stands for: none for a malformed escape or for bytes
/// that are not UTF-8.
pub open spec fn decoded(text: Seq<char>) -> Option<Seq<char>> {
    match decoded_bytes(encode_utf8(text)) {
        Some(bytes) => if valid_utf8(bytes) {
            Some(decode_utf8(bytes))
        } else {
            None
        },
        None => None,
    }
}

proof fn lemma_encoded_bytes_push(bytes: Seq<u8>, b: u8)
    ensures
        encoded_bytes(bytes.push(b)) == encoded_bytes(bytes) + encoded_byte(b),
    decreases bytes.len(),
{
    let longer = bytes.push(b);
    if bytes.len() == 0 {
        assert(longer.skip(1) =~= Seq::<u8>::empty());
        assert(encoded_bytes(Seq::<u8>::empty()) =~= Seq::<char>::empty());
        assert(encoded_bytes(longer) =~= encoded_byte(b));
        assert(encoded_bytes(bytes) + encoded_byte(b) =~= encoded_byte(b));
    } else {
        assert(longer.skip(1) =~= bytes.skip(1).push(b));
        lemma_encoded_bytes_push(bytes.skip(1), b);
        assert(encoded_bytes(longer) =~= encoded_bytes(bytes) + encoded_byte(b));
    }
}

/// Every byte outside the unreserved set as `%XX`.
pub fn percent_encode(text: &str) -> (res: String)
    ensures
        res@ == encoded(text@),
{
    let bytes: &[u8] = text.as_bytes();
    let mut out: String = String::new();
    let mut i: usize = 0;
    while i < bytes.len()
        invariant
            i <= bytes@.len(),
            out@ == encoded_bytes(bytes@.take(i as int)),
        decreases bytes@.len() - i,
    {
        let b: u8 = bytes[i];
        proof {
            assert(bytes@.take(i + 1) =~= bytes@.take(i as int).push(b));
            lemma_encoded_bytes_push(bytes@.take(i as int), b);
        }
        let ghost before = out@;
        if (0x30 <= b && b <= 0x39) || (0x41 <= b && b <= 0x5a) || (0x61 <= b && b <= 0x7a) || b
            == 0x2d || b == 0x5f || b == 0x2e || b == 0x7e {
            out.push(b as char);
        } else {
            out.push('%');
            out.push(hex_char(b / 16));
            out.push(hex_char(b % 16));
        }
        proof {
            assert(out@ =~= before + encoded_byte(b));
        }
        i = i + 1;
    }
    proof {
        assert(bytes@.take(bytes@.len() as int) =~= bytes@);
    }
    out
}

fn hex_char(n: u8) -> (c: char)
    requires
        n < 16,
    ensures
        c == hex_digit(n as int),
{
    if n < 10 {
        (48 + n) as char
    } else {
        (55 + n) as char
    }
}

fn hex_number(b: u8) -> (res: Option<u8>)
    ensures
        res == hex_value(b),
        res is Some ==> res->0 < 16,
{
    if 0x30 <= b && b <= 0x39 {
        Some(b - 0x30)
    } else if 0x41 <= b && b <= 0x46 {
        Some(b - 0x37)
    } else if 0x61 <= b && b <= 0x66 {
        Some(b - 0x57)
    } else {
        None
    }
}

/// `String::from_utf8`: the text that the bytes spell, where they are UTF-8.
#[verifier::external_body]
pub(crate) fn utf8_text(bytes: Vec<u8>) -> (res: Option<String>)
    ensures
        match res {
            Some(text) => valid_utf8(bytes@) && text@ == decode_utf8(bytes@),
            None => !valid_utf8(bytes@),
        },
{
    String::from_utf8(bytes).ok()
}

/// `%XX` back to bytes, and those to text. Nothing else is interpreted: `+` is a plus.
pub fn percent_decode(text: &str) -> (res: Option<String>)
    ensures
        match res {
            Some(plain) => decoded(text@) == Some(plain@),
            None => decoded(text@) is None,
        },
{
    let bytes: &[u8] = text.as_bytes();
    let mut out: Vec<u8> = Vec::new();
    let mut i: usize = 0;
    proof {
        assert(bytes@.skip(0) =~= bytes@);
    }
    while i < bytes.len()
        invariant
            i <= bytes@.len(),
            bytes@ == encode_utf8(text@),
            match decoded_bytes(bytes@.skip(i as int)) {
                Some(rest) => decoded_bytes(bytes@) == Some(out@ + rest),
                None => decoded_bytes(bytes@) is None,
            },
        decreases bytes@.len() - i,
    {
        let ghost rest = bytes@.skip(i as int);
        let ghost before = out@;
        proof {
            assert(rest[0] == bytes@[i as int]);
        }
        if bytes[i] == 0x25 {
            if bytes.len() - i < 3 {
                return None;
            }
            proof {
                assert(rest[1] == bytes@[i + 1]);
                assert(rest[2] == bytes@[i + 2]);
                assert(rest.skip(3) =~= bytes@.skip(i + 3));
            }
            match (hex_number(bytes[i + 1]), hex_number(bytes[i + 2])) {
                (Some(high), Some(low)) => {
                    let b: u8 = 16 * high + low;
                    out.push(b);
                    proof {
                        if let Some(tail) = decoded_bytes(rest.skip(3)) {
                            assert(before + (seq![b] + tail) =~= out@ + tail);
                        }
                    }
                    i = i + 3;
                },
                _ => {
                    return None;
                },
            }
        } else {
            let b: u8 = bytes[i];
            out.push(b);
            proof {
                assert(rest.skip(1) =~= bytes@.skip(i + 1));
                if let Some(tail) = decoded_bytes(rest.skip(1)) {
                    assert(before + (seq![b] + tail) =~= out@ + tail);
                }
            }
            i = i + 1;
        }
    }
    proof {
        assert(bytes@.skip(bytes@.len() as int) =~= Seq::<u8>::empty());
        assert(out@ + Seq::<u8>::empty() =~= out@);
    }
    utf8_text(out)
}

// ---------------------------------------------------------------------------
// Laws
// ---------------------------------------------------------------------------

/// The characters that a written segment can hold: the unreserved ones and the percent
/// sign.
pub open spec fn is_segment_char(c: char) -> bool {
    c == '%' || is_unreserved_char(c)
}

/// The characters that stand for themselves in a segment.
pub open spec fn is_unreserved_char(c: char) -> bool {
    is_alphanumeric(c) || c == '-' || c == '_' || c == '.' || c == '~'
}

proof fn lemma_encoded_byte_chars(b: u8)
    ensures
        forall|i: int| 0 <= i < encoded_byte(b).len() ==> is_segment_char(#[trigger] encoded_byte(b)[i]),
        encoded_byte(b).len() > 0,
{
}

proof fn lemma_encoded_bytes_chars(bytes: Seq<u8>)
    ensures
        forall|i: int|
            0 <= i < encoded_bytes(bytes).len() ==> is_segment_char(
                #[trigger] encoded_bytes(bytes)[i],
            ),
        bytes.len() > 0 ==> encoded_bytes(bytes).len() > 0,
    decreases bytes.len(),
{
    if bytes.len() > 0 {
        lemma_encoded_byte_chars(bytes[0]);
        lemma_encoded_bytes_chars(bytes.skip(1));
        let first = encoded_byte(bytes[0]);
        let rest = encoded_bytes(bytes.skip(1));
        assert forall|i: int| 0 <= i < encoded_bytes(bytes).len() implies is_segment_char(
            #[trigger] encoded_bytes(bytes)[i],
        ) by {
            if i < first.len() {
                assert(encoded_bytes(bytes)[i] == first[i]);
            } else {
                assert(encoded_bytes(bytes)[i] == rest[i - first.len()]);
            }
        }
    }
}

/// A written segment holds unreserved characters and percent signs alone: none of the
/// separators of an address and nothing that a shell acts on.
pub proof fn law_a_segment_holds_only_segment_characters(text: Seq<char>)
    ensures
        forall|i: int| 0 <= i < encoded(text).len() ==> is_segment_char(#[trigger] encoded(text)[i]),
{
    lemma_encoded_bytes_chars(encode_utf8(text));
}

/// The bytes of ASCII characters.
spec fn ascii_bytes(chars: Seq<char>) -> Seq<u8> {
    chars.map_values(|c: char| c as u8)
}

proof fn lemma_decode_undoes_encode(bytes: Seq<u8>)
    ensures
        decoded_bytes(ascii_bytes(encoded_bytes(bytes))) == Some(bytes),
    decreases bytes.len(),
{
    let written = ascii_bytes(encoded_bytes(bytes));
    if bytes.len() == 0 {
        assert(written =~= Seq::<u8>::empty());
        assert(bytes =~= Seq::<u8>::empty());
    } else {
        let b = bytes[0];
        let rest = bytes.skip(1);
        lemma_decode_undoes_encode(rest);
        assert(bytes =~= seq![b] + rest);
        if unreserved(b) {
            assert(written[0] == b);
            assert(written.skip(1) =~= ascii_bytes(encoded_bytes(rest)));
        } else {
            let high = b as int / 16;
            let low = b as int % 16;
            assert(written[0] == 0x25);
            assert(written[1] == hex_digit(high) as u8);
            assert(written[2] == hex_digit(low) as u8);
            assert(hex_value(written[1]) == Some(high as u8));
            assert(hex_value(written[2]) == Some(low as u8));
            assert(written.skip(3) =~= ascii_bytes(encoded_bytes(rest)));
        }
    }
}

/// Reading a written segment gives back the text that was written.
pub proof fn law_decoding_undoes_encoding(text: Seq<char>)
    ensures
        decoded(encoded(text)) == Some(text),
{
    let written = encoded(text);
    law_a_segment_holds_only_segment_characters(text);
    assert(is_ascii_chars(written)) by {
        assert forall|i: int| 0 <= i < written.len() implies '\0' <= #[trigger] written[i]
            <= '\u{7f}' by {
            assert(is_segment_char(written[i]));
        }
    }
    is_ascii_chars_encode_utf8(written);
    assert(encode_utf8(written) =~= ascii_bytes(written));
    lemma_decode_undoes_encode(encode_utf8(text));
    encode_utf8_valid_utf8(text);
    encode_utf8_decode_utf8(text);
}

/// A text of unreserved characters is written as it is.
pub proof fn law_unreserved_text_is_written_as_it_is(text: Seq<char>)
    requires
        forall|i: int| 0 <= i < text.len() ==> is_unreserved_char(#[trigger] text[i]),
    ensures
        encoded(text) == text,
    decreases text.len(),
{
    assert(is_ascii_chars(text));
    is_ascii_chars_encode_utf8(text);
    lemma_unreserved_bytes(encode_utf8(text));
    assert(encoded(text) =~= text);
}

proof fn lemma_unreserved_bytes(bytes: Seq<u8>)
    requires
        forall|i: int| 0 <= i < bytes.len() ==> unreserved(#[trigger] bytes[i]),
    ensures
        encoded_bytes(bytes).len() == bytes.len(),
        forall|i: int| 0 <= i < bytes.len() ==> #[trigger] encoded_bytes(bytes)[i] == bytes[i] as char,
    decreases bytes.len(),
{
    if bytes.len() > 0 {
        lemma_unreserved_bytes(bytes.skip(1));
        assert forall|i: int| 0 <= i < bytes.len() implies #[trigger] encoded_bytes(bytes)[i]
            == bytes[i] as char by {
            if i > 0 {
                assert(encoded_bytes(bytes)[i] == encoded_bytes(bytes.skip(1))[i - 1]);
            }
        }
    }
}

/// Bytes are written one behind the other: a letter, a digit and `- _ . ~` as they are, and
/// any other as a percent sign and its two hexadecimal digits, in capitals.
pub proof fn law_how_a_byte_is_written(before: Seq<u8>, b: u8)
    ensures
        ({
            let digits = "0123456789ABCDEF"@;
            encoded_bytes(before.push(b)) == encoded_bytes(before) + if is_unreserved_char(b as char) {
                seq![b as char]
            } else {
                seq!['%', digits[b as int / 16], digits[b as int % 16]]
            }
        }),
        encoded_bytes(Seq::empty()).len() == 0,
{
    reveal_strlit("0123456789ABCDEF");
    lemma_encoded_bytes_push(before, b);
}

/// Written bytes stand for themselves but for the percent sign, which stands with two
/// hexadecimal digits behind it, of either case, for the byte they spell, and with anything
/// else behind it for nothing.
pub proof fn law_what_written_bytes_stand_for(b: u8, high: int, low: int, rest: Seq<u8>)
    requires
        0 <= high < 22,
        0 <= low < 22,
    ensures
        ({
            let digits = "0123456789ABCDEFabcdef"@;
            let value = |n: int|
                if n < 16 {
                    n
                } else {
                    n - 6
                };
            let escape = seq![0x25u8, digits[high] as u8, digits[low] as u8];
            &&& b != 0x25 ==> decoded_bytes(seq![b] + rest) == match decoded_bytes(rest) {
                Some(bytes) => Some(seq![b] + bytes),
                None => None,
            }
            &&& decoded_bytes(escape + rest) == match decoded_bytes(rest) {
                Some(bytes) => Some(seq![(16 * value(high) + value(low)) as u8] + bytes),
                None => None,
            }
            &&& rest.len() < 2 || !digits.contains(rest[0] as char) || !digits.contains(
                rest[1] as char,
            ) ==> decoded_bytes(seq![0x25u8] + rest) is None
        }),
        decoded_bytes(Seq::empty()) == Some(Seq::<u8>::empty()),
{
    reveal_strlit("0123456789ABCDEFabcdef");
    let digits = "0123456789ABCDEFabcdef"@;
    let plain = seq![b] + rest;
    assert(plain[0] == b);
    assert(plain.skip(1) =~= rest);
    let escape = seq![0x25u8, digits[high] as u8, digits[low] as u8];
    let escaped = escape + rest;
    assert(escaped[0] == 0x25 && escaped[1] == digits[high] as u8 && escaped[2]
        == digits[low] as u8);
    assert(escaped.skip(3) =~= rest);
    lemma_digit_value(high);
    lemma_digit_value(low);
    let broken = seq![0x25u8] + rest;
    assert(broken[0] == 0x25);
    if rest.len() >= 2 {
        assert(broken[1] == rest[0] && broken[2] == rest[1]);
        lemma_no_digit(rest[0]);
        lemma_no_digit(rest[1]);
    }
}

proof fn lemma_digit_value(n: int)
    requires
        0 <= n < 22,
    ensures
        hex_value("0123456789ABCDEFabcdef"@[n] as u8) == Some(
            (if n < 16 {
                n
            } else {
                n - 6
            }) as u8,
        ),
{
    reveal_strlit("0123456789ABCDEFabcdef");
}

proof fn lemma_no_digit(b: u8)
    ensures
        !"0123456789ABCDEFabcdef"@.contains(b as char) ==> hex_value(b) is None,
{
    reveal_strlit("0123456789ABCDEFabcdef");
    let digits = "0123456789ABCDEFabcdef"@;
    if hex_value(b) is Some {
        let at = if b <= 0x39 {
            b - 0x30
        } else if b <= 0x46 {
            b - 0x37
        } else {
            b - 0x51
        };
        assert(digits[at] == b as char);
    }
}

/// A written text stands for the text whose bytes it spells, and for none where an escape is
/// broken or the bytes are no UTF-8.
pub proof fn law_what_a_written_text_stands_for(text: &str, res: Option<String>)
    requires
        percent_decode.ensures((text,), res),
    ensures
        res is Some <==> decoded_bytes(encode_utf8(text@)) is Some && valid_utf8(
            decoded_bytes(encode_utf8(text@))->0,
        ),
        res is Some ==> encode_utf8(res->0@) == decoded_bytes(encode_utf8(text@))->0,
{
    if res is Some {
        decode_utf8_encode_utf8(decoded_bytes(encode_utf8(text@))->0);
    }
}

} // verus!
