//! The name one account's room server is registered under in one room.

use vstd::prelude::*;
use vstd::string::*;
use vstd::utf8::*;

use crate::text::{alphanumeric, is_alphanumeric, lower, lowered, lowered_text};

verus! {

/// Prefix of the name the sidecar is registered under.
pub const SERVER_PREFIX: &'static str = "pullcept-room";

/// The longest a slug grows.
pub const SLUG_CHARS: usize = 24;

/// A text with its letters folded and digits kept, and every run of other characters
/// one dash; a run at the start leaves nothing.
pub open spec fn dashed(text: Seq<char>) -> Seq<char>
    decreases text.len(),
{
    if text.len() == 0 {
        Seq::empty()
    } else {
        let so_far = dashed(text.drop_last());
        if is_alphanumeric(text.last()) {
            so_far.push(lowered(text.last()))
        } else if so_far.len() > 0 && so_far.last() != '-' {
            so_far.push('-')
        } else {
            so_far
        }
    }
}

/// A text without the dashes at its end.
pub open spec fn without_trailing_dashes(text: Seq<char>) -> Seq<char>
    decreases text.len(),
{
    if text.len() > 0 && text.last() == '-' {
        without_trailing_dashes(text.drop_last())
    } else {
        text
    }
}

/// The legible half of a server name: the dashed text, cut to the longest a slug grows,
/// with no dash at its end.
pub open spec fn slug(text: Seq<char>) -> Seq<char> {
    let full = dashed(text);
    without_trailing_dashes(
        if full.len() > SLUG_CHARS {
            full.take(SLUG_CHARS as int)
        } else {
            full
        },
    )
}

proof fn lemma_dashed_grows(text: Seq<char>, n: int)
    requires
        0 <= n <= text.len(),
    ensures
        dashed(text.take(n)).len() <= dashed(text).len(),
        dashed(text).take(dashed(text.take(n)).len() as int) == dashed(text.take(n)),
    decreases text.len(),
{
    if n == text.len() {
        assert(text.take(n) =~= text);
        assert(dashed(text).take(dashed(text).len() as int) =~= dashed(text));
    } else {
        let shorter = text.drop_last();
        lemma_dashed_grows(shorter, n);
        assert(shorter.take(n) =~= text.take(n));
        let k = dashed(text.take(n)).len() as int;
        assert(dashed(text).take(k) =~= dashed(shorter).take(k));
    }
}

/// Lowercase ASCII alphanumerics, everything else a single separator.
pub fn slugify(text: &str) -> (res: String)
    ensures
        res@ == slug(text@),
{
    let chars = crate::text::chars_of(text);
    let mut out: Vec<char> = Vec::new();
    let mut i: usize = 0;
    while i < chars.len() && out.len() < SLUG_CHARS
        invariant
            i <= chars@.len(),
            chars@ == text@,
            out@ == dashed(text@.take(i as int)),
            out@.len() <= SLUG_CHARS,
        decreases chars@.len() - i,
    {
        let c: char = chars[i];
        proof {
            assert(text@.take(i + 1).drop_last() =~= text@.take(i as int));
            assert(text@.take(i + 1).last() == c);
        }
        if alphanumeric(c) {
            out.push(lower(c));
        } else if out.len() > 0 && out[out.len() - 1] != '-' {
            out.push('-');
        }
        i = i + 1;
    }
    proof {
        lemma_dashed_grows(text@, i as int);
        let full = dashed(text@);
        if i == text@.len() {
            assert(text@.take(i as int) =~= text@);
        } else {
            assert(out@.len() == SLUG_CHARS);
            if full.len() == SLUG_CHARS {
                assert(full.take(SLUG_CHARS as int) =~= full);
            }
        }
    }
    let mut end: usize = out.len();
    proof {
        assert(out@.take(end as int) =~= out@);
    }
    while end > 0 && out[end - 1] == '-'
        invariant
            end <= out@.len(),
            without_trailing_dashes(out@) == without_trailing_dashes(out@.take(end as int)),
        decreases end,
    {
        proof {
            assert(out@.take(end as int).drop_last() =~= out@.take(end - 1));
        }
        end = end - 1;
    }
    proof {
        assert(out@.subrange(0, end as int) =~= out@.take(end as int));
    }
    crate::text::text_between(&out, 0, end)
}

/// One step of the hash: the byte is mixed in, then the whole is spread.
pub open spec fn fnv_step(hash: u32, b: u8) -> u32 {
    (((hash ^ (b as u32)) as int * 16_777_619) % 0x1_0000_0000) as u32
}

/// The 32-bit FNV-1a hash of bytes.
pub open spec fn fnv(bytes: Seq<u8>) -> u32
    decreases bytes.len(),
{
    if bytes.len() == 0 {
        2_166_136_261
    } else {
        fnv_step(fnv(bytes.drop_last()), bytes.last())
    }
}

/// FNV-1a, 32-bit, over the UTF-8 bytes of a text.
pub fn fnv1a(text: &str) -> (hash: u32)
    ensures
        hash == fnv(encode_utf8(text@)),
{
    let bytes: &[u8] = text.as_bytes();
    let mut hash: u32 = 2_166_136_261;
    let mut i: usize = 0;
    while i < bytes.len()
        invariant
            i <= bytes@.len(),
            hash == fnv(bytes@.take(i as int)),
        decreases bytes@.len() - i,
    {
        proof {
            assert(bytes@.take(i + 1).drop_last() =~= bytes@.take(i as int));
        }
        let mixed: u32 = hash ^ (bytes[i] as u32);
        hash = mixed.wrapping_mul(16_777_619);
        i = i + 1;
    }
    proof {
        assert(bytes@.take(bytes@.len() as int) =~= bytes@);
    }
    hash
}

/// The small hexadecimal digit of a value below sixteen.
pub open spec fn small_hex_digit(n: int) -> char {
    if n < 10 {
        (48 + n) as char
    } else {
        (87 + n) as char
    }
}

/// A 32-bit number as eight small hexadecimal digits.
pub open spec fn hex8(n: u32) -> Seq<char> {
    Seq::new(8, |i: int| small_hex_digit(n as int / pow16(7 - i) % 16))
}

/// A power of sixteen.
pub open spec fn pow16(k: int) -> int
    decreases k,
{
    if k <= 0 {
        1
    } else {
        16 * pow16(k - 1)
    }
}

fn push_hex(out: &mut String, n: u32)
    requires
        n < 16,
    ensures
        final(out)@ == old(out)@.push(small_hex_digit(n as int)),
{
    let value: u8 = n as u8;
    if value < 10 {
        out.push((48 + value) as char);
    } else {
        out.push((87 + value) as char);
    }
}

fn append_hex8(out: &mut String, n: u32)
    ensures
        final(out)@ == old(out)@ + hex8(n),
{
    push_hex(out, n / 0x1000_0000 % 16);
    push_hex(out, n / 0x100_0000 % 16);
    push_hex(out, n / 0x10_0000 % 16);
    push_hex(out, n / 0x1_0000 % 16);
    push_hex(out, n / 0x1000 % 16);
    push_hex(out, n / 0x100 % 16);
    push_hex(out, n / 0x10 % 16);
    push_hex(out, n % 16);
    proof {
        reveal_with_fuel(pow16, 8);
        assert(out@ =~= old(out)@ + hex8(n));
    }
}

/// The name of one account in one room: the prefix, the account's slug where it has one,
/// and the hash of both ids with a separator that no id holds between them.
pub open spec fn server_name(account_id: Seq<char>, room_id: Seq<char>) -> Seq<char> {
    let hash = hex8(fnv(encode_utf8(account_id + "\n"@ + room_id)));
    if slug(account_id).len() == 0 {
        SERVER_PREFIX@ + "-"@ + hash
    } else {
        SERVER_PREFIX@ + "-"@ + slug(account_id) + "-"@ + hash
    }
}

/// The registration key, and the `server:<name>` tag, for one account in one room.
pub fn server_name_for(account_id: &str, room_id: &str) -> (name: String)
    ensures
        name@ == server_name(account_id@, room_id@),
{
    let short = slugify(account_id);
    let mut both: String = account_id.to_owned();
    both.append("\n");
    both.append(room_id);
    let hash: u32 = fnv1a(both.as_str());
    let mut name: String = SERVER_PREFIX.to_owned();
    name.append("-");
    if short.as_str().unicode_len() > 0 {
        name.append(short.as_str());
        name.append("-");
    }
    append_hex8(&mut name, hash);
    name
}

// ---------------------------------------------------------------------------
// Laws
// ---------------------------------------------------------------------------

/// The characters a server name is written in: small letters, digits and the dash.
pub open spec fn is_name_char(c: char) -> bool {
    'a' <= c <= 'z' || '0' <= c <= '9' || c == '-'
}

/// Whether a text is written in those characters alone.
pub open spec fn is_plain(text: Seq<char>) -> bool {
    forall|i: int| 0 <= i < text.len() ==> is_name_char(#[trigger] text[i])
}

proof fn lemma_dashed_chars(text: Seq<char>)
    ensures
        is_plain(dashed(text)),
    decreases text.len(),
{
    if text.len() > 0 {
        lemma_dashed_chars(text.drop_last());
    }
}

proof fn lemma_without_trailing_dashes(text: Seq<char>)
    ensures
        without_trailing_dashes(text).len() <= text.len(),
        without_trailing_dashes(text) == text.take(without_trailing_dashes(text).len() as int),
        without_trailing_dashes(text).len() > 0 ==> without_trailing_dashes(text).last() != '-',
    decreases text.len(),
{
    if text.len() > 0 && text.last() == '-' {
        lemma_without_trailing_dashes(text.drop_last());
        let n = without_trailing_dashes(text).len() as int;
        assert(text.drop_last().take(n) =~= text.take(n));
    } else {
        assert(text.take(text.len() as int) =~= text);
    }
}

/// Whether a text begins with no dash and holds no two in a row.
pub open spec fn dashes_apart(text: Seq<char>) -> bool {
    &&& text.len() > 0 ==> text[0] != '-'
    &&& forall|i: int| 0 <= i < text.len() - 1 && #[trigger] text[i] == '-' ==> text[i + 1] != '-'
}

proof fn lemma_dashed_apart(text: Seq<char>)
    ensures
        dashes_apart(dashed(text)),
    decreases text.len(),
{
    if text.len() > 0 {
        lemma_dashed_apart(text.drop_last());
    }
}

/// A slug is at most the longest a slug grows, is written in the characters of a name,
/// neither begins nor ends with a dash, and holds no two in a row.
pub proof fn law_a_slug_is_short_and_plain(text: Seq<char>)
    ensures
        slug(text).len() <= SLUG_CHARS,
        is_plain(slug(text)),
        slug(text).len() > 0 ==> slug(text).last() != '-',
        dashes_apart(slug(text)),
{
    let full = dashed(text);
    lemma_dashed_chars(text);
    lemma_dashed_apart(text);
    let cut = if full.len() > SLUG_CHARS {
        full.take(SLUG_CHARS as int)
    } else {
        full
    };
    lemma_without_trailing_dashes(cut);
    assert forall|i: int| 0 <= i < slug(text).len() implies is_name_char(#[trigger] slug(text)[i]) by {
        assert(slug(text)[i] == full[i]);
    }
    assert forall|i: int| 0 <= i < slug(text).len() - 1 && #[trigger] slug(text)[i]
        == '-' implies slug(text)[i + 1] != '-' by {
        assert(slug(text)[i] == full[i]);
        assert(slug(text)[i + 1] == full[i + 1]);
    }
}

/// A server name begins with the prefix and is written in small letters, digits and
/// dashes, whatever the ids hold.
pub proof fn law_a_server_name_is_plain(account_id: Seq<char>, room_id: Seq<char>)
    ensures
        is_plain(server_name(account_id, room_id)),
        crate::text::starts(server_name(account_id, room_id), SERVER_PREFIX@),
{
    reveal_strlit("pullcept-room");
    reveal_strlit("-");
    law_a_slug_is_short_and_plain(account_id);
    let name = server_name(account_id, room_id);
    let hash = hex8(fnv(encode_utf8(account_id + "\n"@ + room_id)));
    let short = slug(account_id);
    assert forall|i: int| 0 <= i < hash.len() implies is_name_char(#[trigger] hash[i]) by {
        let value = fnv(encode_utf8(account_id + "\n"@ + room_id)) as int / pow16(7 - i) % 16;
        assert(hash[i] == small_hex_digit(value));
        assert(0 <= value < 16);
    }
    assert forall|i: int| 0 <= i < name.len() implies is_name_char(#[trigger] name[i]) by {
        if i < 13 {
            assert(name[i] == SERVER_PREFIX@[i]);
        } else if i == 13 {
            assert(name[i] == '-');
        } else if short.len() == 0 {
            assert(name[i] == hash[i - 14]);
        } else if i < 14 + short.len() {
            assert(name[i] == short[i - 14]);
        } else if i == 14 + short.len() {
            assert(name[i] == '-');
        } else {
            assert(name[i] == hash[i - 15 - short.len()]);
        }
    }
    assert(name.take(13) =~= SERVER_PREFIX@);
}

/// The name of a server is the prefix, the slug of its account where that leaves anything,
/// and the hash of the account and the room, one in each line, with a dash between them.
pub proof fn law_what_a_server_is_called(account_id: &str, room_id: &str, name: String, hash: u32, both: &str)
    requires
        server_name_for.ensures((account_id, room_id), name),
        both@ == account_id@ + seq!['\n'] + room_id@,
        fnv1a.ensures((both,), hash),
    ensures
        slug(account_id@).len() > 0 ==> name@ == "pullcept-room-"@ + slug(account_id@) + seq!['-']
            + hex8(hash),
        slug(account_id@).len() == 0 ==> name@ == "pullcept-room-"@ + hex8(hash),
{
    reveal_strlit("pullcept-room");
    reveal_strlit("pullcept-room-");
    reveal_strlit("-");
    reveal_strlit("\n");
    assert("-"@ =~= seq!['-']);
    assert("\n"@ =~= seq!['\n']);
    assert(SERVER_PREFIX@ + "-"@ =~= "pullcept-room-"@);
}

/// The hash begins with the offset basis and takes each byte in by an exclusive or and a
/// product with the prime, in thirty-two bits; it is written in eight small hexadecimal
/// digits, the highest first.
pub proof fn law_how_the_hash_is_made(bytes: Seq<u8>, b: u8, n: u32)
    ensures
        fnv(Seq::empty()) == 0x811c_9dc5,
        fnv(bytes.push(b)) as int == ((fnv(bytes) ^ (b as u32)) as int * 0x0100_0193) % 0x1_0000_0000,
        hex8(n).len() == 8,
        ({
            let digits = "0123456789abcdef"@;
            &&& hex8(n)[7] == digits[n as int % 16]
            &&& hex8(n)[6] == digits[n as int / 0x10 % 16]
            &&& hex8(n)[5] == digits[n as int / 0x100 % 16]
            &&& hex8(n)[4] == digits[n as int / 0x1000 % 16]
            &&& hex8(n)[3] == digits[n as int / 0x1_0000 % 16]
            &&& hex8(n)[2] == digits[n as int / 0x10_0000 % 16]
            &&& hex8(n)[1] == digits[n as int / 0x100_0000 % 16]
            &&& hex8(n)[0] == digits[n as int / 0x1000_0000 % 16]
        }),
{
    reveal_strlit("0123456789abcdef");
    reveal_with_fuel(pow16, 8);
    assert(bytes.push(b).drop_last() =~= bytes);
    assert(pow16(0) == 1);
    assert(pow16(1) == 0x10);
    assert(pow16(2) == 0x100);
    assert(pow16(3) == 0x1000);
    assert(pow16(4) == 0x1_0000);
    assert(pow16(5) == 0x10_0000);
    assert(pow16(6) == 0x100_0000);
    assert(pow16(7) == 0x1000_0000);
}

/// Letters and digits go behind what was dashed, in small letters.
pub proof fn law_letters_are_folded(before: Seq<char>, letters: Seq<char>)
    requires
        forall|i: int| 0 <= i < letters.len() ==> is_alphanumeric(#[trigger] letters[i]),
    ensures
        dashed(before + letters) == dashed(before) + lowered_text(letters),
    decreases letters.len(),
{
    let all = before + letters;
    if letters.len() == 0 {
        assert(all =~= before);
        assert(dashed(before) + lowered_text(letters) =~= dashed(before));
    } else {
        let shorter = letters.drop_last();
        assert forall|i: int| 0 <= i < shorter.len() implies is_alphanumeric(
            #[trigger] shorter[i],
        ) by {
            assert(shorter[i] == letters[i]);
        }
        assert(is_alphanumeric(letters[letters.len() - 1]));
        law_letters_are_folded(before, shorter);
        assert(all.drop_last() =~= before + shorter);
        assert(dashed(before) + lowered_text(letters) =~= (dashed(before) + lowered_text(
            shorter,
        )).push(lowered(letters.last())));
    }
}

/// A run of other characters is one dash behind a word, and nothing behind a dash or at the
/// start.
pub proof fn law_a_run_is_one_dash(before: Seq<char>, run: Seq<char>)
    requires
        forall|i: int| 0 <= i < run.len() ==> !is_alphanumeric(#[trigger] run[i]),
    ensures
        dashed(before + run) == if run.len() > 0 && dashed(before).len() > 0 && dashed(
            before,
        ).last() != '-' {
            dashed(before).push('-')
        } else {
            dashed(before)
        },
    decreases run.len(),
{
    let all = before + run;
    if run.len() == 0 {
        assert(all =~= before);
    } else {
        let shorter = run.drop_last();
        assert forall|i: int| 0 <= i < shorter.len() implies !is_alphanumeric(
            #[trigger] shorter[i],
        ) by {
            assert(shorter[i] == run[i]);
        }
        assert(!is_alphanumeric(run[run.len() - 1]));
        law_a_run_is_one_dash(before, shorter);
        assert(all.drop_last() =~= before + shorter);
    }
}

/// A slug is written in small letters; a run of other characters between two words of it is
/// one dash; at its ends they leave nothing; and it ends behind twenty-four characters.
pub proof fn law_how_a_slug_is_made(
    lead: Seq<char>,
    first: Seq<char>,
    run: Seq<char>,
    second: Seq<char>,
    trail: Seq<char>,
)
    requires
        forall|i: int| 0 <= i < lead.len() ==> !is_alphanumeric(#[trigger] lead[i]),
        forall|i: int| 0 <= i < first.len() ==> is_alphanumeric(#[trigger] first[i]),
        forall|i: int| 0 <= i < run.len() ==> !is_alphanumeric(#[trigger] run[i]),
        forall|i: int| 0 <= i < second.len() ==> is_alphanumeric(#[trigger] second[i]),
        forall|i: int| 0 <= i < trail.len() ==> !is_alphanumeric(#[trigger] trail[i]),
        first.len() > 0,
        run.len() > 0,
        second.len() > 0,
    ensures
        first.len() + 1 + second.len() <= 24 ==> slug(lead + first + run + second + trail)
            == lowered_text(first) + seq!['-'] + lowered_text(second),
        first.len() <= 24 ==> slug(lead + first + trail) == lowered_text(first),
        first.len() >= 24 ==> slug(lead + first + trail) == lowered_text(first).take(24),
        slug(lead).len() == 0,
{
    let none = Seq::<char>::empty();
    assert(none + lead =~= lead);
    law_a_run_is_one_dash(none, lead);
    assert(dashed(lead) =~= none);
    law_letters_are_folded(lead, first);
    let one = lowered_text(first);
    assert(none + one =~= one);
    assert(is_alphanumeric(first[first.len() - 1]));
    assert(one.last() == lowered(first[first.len() - 1]));
    assert(one.last() != '-');
    law_a_run_is_one_dash(lead + first, trail);
    let flat = dashed(lead + first + trail);
    lemma_no_trailing(one);
    if trail.len() > 0 {
        assert(flat == one.push('-'));
        assert(flat.drop_last() =~= one);
        assert(without_trailing_dashes(flat) == without_trailing_dashes(one));
    }
    if first.len() >= 24 {
        let cut = flat.take(24);
        assert(cut =~= one.take(24));
        assert(is_alphanumeric(first[23]));
        assert(cut.last() == lowered(first[23]));
        lemma_no_trailing(cut);
        if flat.len() == 24 {
            assert(flat =~= cut);
        }
    } else {
        assert(one.len() < 24);
    }
    law_a_run_is_one_dash(lead + first, run);
    law_letters_are_folded(lead + first + run, second);
    law_a_run_is_one_dash(lead + first + run + second, trail);
    let two = lowered_text(second);
    let both = one + seq!['-'] + two;
    assert(one.push('-') + two =~= both);
    assert(is_alphanumeric(second[second.len() - 1]));
    assert(both.last() == lowered(second[second.len() - 1]));
    let whole = dashed(lead + first + run + second + trail);
    lemma_no_trailing(both);
    if first.len() + 1 + second.len() <= 24 {
        if trail.len() > 0 {
            assert(whole == both.push('-'));
            assert(whole.drop_last() =~= both);
            if whole.len() > 24 {
                assert(whole.take(24) =~= both);
            }
        }
    }
    lemma_no_trailing(none);
}

proof fn lemma_no_trailing(text: Seq<char>)
    requires
        text.len() == 0 || text.last() != '-',
    ensures
        without_trailing_dashes(text) == text,
{
}

/// A slug is the beginning of the dashed text: all of it up to twenty-four characters, but
/// for a dash at its end.
pub proof fn law_a_slug_is_a_beginning(text: &str, res: String)
    requires
        slugify.ensures((text,), res),
    ensures
        ({
            let full = dashed(text@);
            let cut: int = if full.len() > 24 {
                24
            } else {
                full.len() as int
            };
            let whole = full.take(cut);
            &&& cut > 0 && whole.last() == '-' ==> res@ == whole.drop_last()
            &&& cut == 0 || whole.last() != '-' ==> res@ == whole
        }),
{
    let full = dashed(text@);
    let cut: int = if full.len() > 24 {
        24
    } else {
        full.len() as int
    };
    let whole = full.take(cut);
    if full.len() <= 24 {
        assert(whole =~= full);
    }
    lemma_dashed_apart(text@);
    if cut > 0 && whole.last() == '-' {
        let shorter = whole.drop_last();
        assert(whole[cut - 1] == full[cut - 1]);
        assert(cut > 1);
        assert(full[cut - 2] != '-');
        assert(shorter.last() == full[cut - 2]);
        lemma_no_trailing(shorter);
    } else {
        lemma_no_trailing(whole);
    }
}

} // verus!
