//! The lines and the words of a running text.

use vstd::prelude::*;
use vstd::string::*;

use crate::text::{
    chars_of, find_from, first_at, is_space, lemma_first_at_is, text_between, texts, trim, trimmed,
    whitespace,
};

verus! {

// ---------------------------------------------------------------------------
// Lines
// ---------------------------------------------------------------------------

/// A line without the carriage return before its line feed.
pub open spec fn without_return(line: Seq<char>) -> Seq<char> {
    if line.len() > 0 && line.last() == '\r' {
        line.drop_last()
    } else {
        line
    }
}

/// The lines of a text: a line feed ends one, with the carriage return before it. The
/// last line needs no line feed, and what stands before the end of the text without one
/// is a line as it is.
pub open spec fn lines_of(text: Seq<char>) -> Seq<Seq<char>>
    decreases text.len(),
{
    let end = first_at(text, '\n');
    if text.len() == 0 {
        Seq::empty()
    } else if 0 <= end < text.len() {
        seq![without_return(text.take(end))] + lines_of(text.skip(end + 1))
    } else {
        seq![text]
    }
}

/// The lines of a text.
pub fn lines(text: &str) -> (res: Vec<String>)
    ensures
        texts(res@) == lines_of(text@),
{
    let chars = chars_of(text);
    let ghost all = chars@;
    let mut res: Vec<String> = Vec::new();
    let mut from: usize = 0;
    proof {
        assert(all.skip(0) =~= all);
        assert(texts(res@) + lines_of(all) =~= lines_of(all));
    }
    while from < chars.len()
        invariant
            from <= chars@.len(),
            all == chars@,
            lines_of(all) == texts(res@) + lines_of(all.skip(from as int)),
        decreases chars@.len() - from,
    {
        let ghost rest = all.skip(from as int);
        let ghost done = texts(res@);
        let at = find_from(&chars, from, '\n');
        if at < chars.len() {
            let end: usize = if at > from && chars[at - 1] == '\r' {
                at - 1
            } else {
                at
            };
            let line = text_between(&chars, from, end);
            let ghost spelled = line@;
            proof {
                let raw = rest.take(at - from);
                if at > from {
                    assert(raw.last() == all[at - 1]);
                }
                assert(spelled =~= without_return(raw));
                assert(rest.skip(at - from + 1) =~= all.skip(at + 1));
            }
            res.push(line);
            proof {
                assert(texts(res@) =~= done.push(spelled));
                assert(done + (seq![spelled] + lines_of(all.skip(at + 1))) =~= texts(res@)
                    + lines_of(all.skip(at + 1)));
            }
            from = at + 1;
        } else {
            let line = text_between(&chars, from, chars.len());
            let ghost spelled = line@;
            proof {
                assert(spelled =~= rest);
            }
            res.push(line);
            proof {
                assert(texts(res@) =~= done + seq![spelled]);
                assert(all.skip(chars@.len() as int) =~= Seq::<char>::empty());
                assert(texts(res@) + lines_of(Seq::<char>::empty()) =~= texts(res@));
            }
            from = chars.len();
        }
    }
    proof {
        assert(texts(res@) + lines_of(all.skip(from as int)) =~= texts(res@));
    }
    res
}

/// The lines that hold more than white space.
pub open spec fn spoken(list: Seq<Seq<char>>) -> Seq<Seq<char>>
    decreases list.len(),
{
    if list.len() == 0 {
        Seq::empty()
    } else if trimmed(list.last()).len() > 0 {
        spoken(list.drop_last()).push(list.last())
    } else {
        spoken(list.drop_last())
    }
}

/// The lines of a text that hold more than white space.
pub fn spoken_lines(text: &str) -> (res: Vec<String>)
    ensures
        texts(res@) == spoken(lines_of(text@)),
{
    let all = lines(text);
    let ghost list = texts(all@);
    let mut res: Vec<String> = Vec::new();
    let mut i: usize = 0;
    proof {
        assert(texts(res@) =~= spoken(list.take(0)));
    }
    while i < all.len()
        invariant
            i <= all@.len(),
            list == texts(all@),
            texts(res@) == spoken(list.take(i as int)),
        decreases all@.len() - i,
    {
        let ghost done = texts(res@);
        proof {
            assert(list.take(i + 1).drop_last() =~= list.take(i as int));
            assert(list.take(i + 1).last() == all@[i as int]@);
        }
        if trim(all[i].as_str()).unicode_len() > 0 {
            res.push(all[i].clone());
            proof {
                assert(texts(res@) =~= done.push(all@[i as int]@));
            }
        }
        i = i + 1;
    }
    proof {
        assert(list.take(list.len() as int) =~= list);
    }
    res
}

/// Lines put behind each other, each with a line feed at its end.
pub open spec fn framed(list: Seq<Seq<char>>) -> Seq<char>
    decreases list.len(),
{
    if list.len() == 0 {
        Seq::empty()
    } else {
        list[0].push('\n') + framed(list.skip(1))
    }
}

/// A line as it is put at the end of a log.
pub fn framed_line(line: String) -> (res: String)
    ensures
        res@ == line@.push('\n'),
        res@ == framed(seq![line@]),
{
    let mut res = line;
    res.push('\n');
    proof {
        assert(seq![line@].skip(1) =~= Seq::<Seq<char>>::empty());
        reveal_with_fuel(framed, 2);
        assert(framed(seq![line@]) =~= line@.push('\n'));
    }
    res
}

/// Whether a text can stand on a line of its own and be found there again: it holds no
/// line feed, ends in no carriage return, and is more than white space.
pub open spec fn is_one_line(line: Seq<char>) -> bool {
    &&& !line.contains('\n')
    &&& line.len() > 0 ==> line.last() != '\r'
    &&& trimmed(line).len() > 0
}

/// A log gives back the lines that were put into it, one for one and in their order.
pub proof fn law_a_log_gives_back_its_lines(list: Seq<Seq<char>>)
    requires
        forall|i: int| 0 <= i < list.len() ==> is_one_line(#[trigger] list[i]),
    ensures
        lines_of(framed(list)) == list,
        spoken(lines_of(framed(list))) == list,
    decreases list.len(),
{
    lemma_lines_of_framed(list);
    lemma_all_spoken(list);
}

/// A line feed ends a line, with the carriage return before it or without, and the last line
/// needs none.
pub proof fn law_a_line_feed_ends_a_line(line: Seq<char>, rest: Seq<char>)
    requires
        !line.contains('\n'),
    ensures
        line.len() == 0 || line.last() != '\r' ==> lines_of(line + seq!['\n'] + rest) == seq![line]
            + lines_of(rest),
        lines_of(line + seq!['\r', '\n'] + rest) == seq![line] + lines_of(rest),
        line.len() > 0 ==> lines_of(line) == seq![line],
        lines_of(Seq::empty()).len() == 0,
{
    assert forall|i: int| 0 <= i < line.len() implies line[i] != '\n' by {
        assert(line.contains(line[i]));
    }
    let plain = line + seq!['\n'] + rest;
    lemma_first_at_is(plain, '\n', line.len() as int);
    assert(plain.take(line.len() as int) =~= line);
    assert(plain.skip(line.len() as int + 1) =~= rest);
    let returned = line + seq!['\r', '\n'] + rest;
    assert(returned[line.len() as int] == '\r');
    assert(returned[line.len() as int + 1] == '\n');
    lemma_first_at_is(returned, '\n', line.len() as int + 1);
    assert(returned.take(line.len() as int + 1) =~= line.push('\r'));
    assert(line.push('\r').drop_last() =~= line);
    assert(returned.skip(line.len() as int + 2) =~= rest);
    lemma_first_at_is(line, '\n', line.len() as int);
}

proof fn lemma_lines_of_framed(list: Seq<Seq<char>>)
    requires
        forall|i: int| 0 <= i < list.len() ==> is_one_line(#[trigger] list[i]),
    ensures
        lines_of(framed(list)) == list,
    decreases list.len(),
{
    if list.len() == 0 {
        assert(list =~= Seq::<Seq<char>>::empty());
    } else {
        let line = list[0];
        let rest = list.skip(1);
        let text = framed(list);
        assert(is_one_line(line));
        assert forall|i: int| 0 <= i < rest.len() implies is_one_line(#[trigger] rest[i]) by {
            assert(rest[i] == list[i + 1]);
        }
        lemma_lines_of_framed(rest);
        assert forall|i: int| 0 <= i < line.len() implies text[i] != '\n' by {
            assert(text[i] == line[i]);
            assert(line.contains(line[i]));
        }
        assert(text[line.len() as int] == '\n');
        lemma_first_at_is(text, '\n', line.len() as int);
        assert(text.take(line.len() as int) =~= line);
        assert(text.skip(line.len() as int + 1) =~= framed(rest));
        assert(seq![line] + rest =~= list);
    }
}

proof fn lemma_all_spoken(list: Seq<Seq<char>>)
    requires
        forall|i: int| 0 <= i < list.len() ==> is_one_line(#[trigger] list[i]),
    ensures
        spoken(list) == list,
    decreases list.len(),
{
    if list.len() > 0 {
        let shorter = list.drop_last();
        assert forall|i: int| 0 <= i < shorter.len() implies is_one_line(#[trigger] shorter[i]) by {
            assert(shorter[i] == list[i]);
        }
        lemma_all_spoken(shorter);
        assert(is_one_line(list[list.len() - 1]));
        assert(shorter.push(list.last()) =~= list);
    } else {
        assert(list =~= Seq::<Seq<char>>::empty());
    }
}

// ---------------------------------------------------------------------------
// Words
// ---------------------------------------------------------------------------

/// A text with every run of white space inside it one space, and none at its ends.
pub open spec fn collapsed(text: Seq<char>) -> Seq<char>
    decreases text.len(),
{
    if text.len() == 0 {
        Seq::empty()
    } else {
        let so_far = collapsed(text.drop_last());
        if is_space(text.last()) {
            so_far
        } else if so_far.len() > 0 && is_space(text[text.len() - 2]) {
            so_far.push(' ').push(text.last())
        } else {
            so_far.push(text.last())
        }
    }
}

/// Collapse the white space of a text.
pub fn collapse(text: &str) -> (res: Vec<char>)
    ensures
        res@ == collapsed(text@),
{
    let chars = chars_of(text);
    let mut res: Vec<char> = Vec::new();
    let mut i: usize = 0;
    while i < chars.len()
        invariant
            i <= chars@.len(),
            chars@ == text@,
            res@ == collapsed(text@.take(i as int)),
            i == 0 ==> res@.len() == 0,
        decreases chars@.len() - i,
    {
        let c: char = chars[i];
        proof {
            assert(text@.take(i + 1).drop_last() =~= text@.take(i as int));
            assert(text@.take(i + 1).last() == c);
            if i > 0 {
                assert(text@.take(i + 1)[i - 1] == chars@[i - 1]);
            }
        }
        if !whitespace(c) {
            if res.len() > 0 && whitespace(chars[i - 1]) {
                res.push(' ');
            }
            res.push(c);
        }
        i = i + 1;
    }
    proof {
        assert(text@.take(text@.len() as int) =~= text@);
    }
    res
}

/// Whether a text begins with no white space and holds it only as single spaces.
pub open spec fn is_tidy(text: Seq<char>) -> bool {
    &&& text.len() > 0 ==> !is_space(text[0])
    &&& forall|i: int| 0 <= i < text.len() && is_space(#[trigger] text[i]) ==> text[i] == ' '
    &&& forall|i: int|
        0 <= i < text.len() - 1 && is_space(#[trigger] text[i]) ==> !is_space(text[i + 1])
}

/// A collapsed text is tidy and ends in no white space.
pub proof fn lemma_collapsed_is_tidy(text: Seq<char>)
    ensures
        is_tidy(collapsed(text)),
        collapsed(text).len() > 0 ==> !is_space(collapsed(text).last()),
    decreases text.len(),
{
    if text.len() > 0 {
        lemma_collapsed_is_tidy(text.drop_last());
    }
}

/// Collapsing a tidy text takes nothing away but a space at its end.
pub proof fn lemma_tidy_collapsed(text: Seq<char>)
    requires
        is_tidy(text),
    ensures
        collapsed(text) == if text.len() > 0 && is_space(text.last()) {
            text.drop_last()
        } else {
            text
        },
    decreases text.len(),
{
    if text.len() == 0 {
        assert(text =~= Seq::<char>::empty());
    } else {
        let shorter = text.drop_last();
        assert forall|i: int| 0 <= i < shorter.len() && is_space(#[trigger] shorter[i]) implies shorter[i]
            == ' ' by {
            assert(shorter[i] == text[i]);
        }
        assert forall|i: int| 0 <= i < shorter.len() - 1 && is_space(
            #[trigger] shorter[i],
        ) implies !is_space(shorter[i + 1]) by {
            assert(shorter[i] == text[i]);
        }
        lemma_tidy_collapsed(shorter);
        if shorter.len() > 0 {
            let last = shorter.len() - 1;
            assert(shorter.last() == text[last]);
            if is_space(text[last]) {
                assert(!is_space(text[last + 1]));
                assert(shorter.drop_last().push(' ').push(text.last()) =~= text);
            } else {
                assert(shorter.push(text.last()) =~= text);
            }
        } else {
            assert(shorter.push(text.last()) =~= text);
        }
    }
}

/// Collapsing a text twice is collapsing it once.
pub proof fn law_collapsing_twice_is_collapsing_once(text: Seq<char>)
    ensures
        collapsed(collapsed(text)) == collapsed(text),
{
    lemma_collapsed_is_tidy(text);
    lemma_tidy_collapsed(collapsed(text));
}

/// The words of a text: its longest runs without white space.
pub open spec fn runs(text: Seq<char>) -> Seq<Seq<char>>
    decreases text.len(),
{
    let end = run_end(text);
    if text.len() == 0 {
        Seq::empty()
    } else if is_space(text[0]) {
        runs(text.skip(1))
    } else if 0 < end <= text.len() {
        seq![text.take(end)] + runs(text.skip(end))
    } else {
        Seq::empty()
    }
}

/// How far a text reaches without white space.
pub open spec fn run_end(text: Seq<char>) -> int
    decreases text.len(),
{
    if text.len() == 0 || is_space(text[0]) {
        0
    } else {
        1 + run_end(text.skip(1))
    }
}

/// Words joined by single spaces.
pub open spec fn spaced(list: Seq<Seq<char>>) -> Seq<char>
    decreases list.len(),
{
    if list.len() == 0 {
        Seq::empty()
    } else if list.len() == 1 {
        list[0]
    } else {
        list[0] + seq![' '] + spaced(list.skip(1))
    }
}

proof fn lemma_collapsed_to_nothing(text: Seq<char>)
    requires
        collapsed(text).len() == 0,
    ensures
        forall|i: int| 0 <= i < text.len() ==> is_space(#[trigger] text[i]),
    decreases text.len(),
{
    if text.len() > 0 {
        lemma_collapsed_to_nothing(text.drop_last());
        assert forall|i: int| 0 <= i < text.len() implies is_space(#[trigger] text[i]) by {
            if i < text.len() - 1 {
                assert(text.drop_last()[i] == text[i]);
            }
        }
    }
}

proof fn lemma_space_before(first: char, text: Seq<char>)
    requires
        is_space(first),
    ensures
        collapsed(seq![first] + text) == collapsed(text),
    decreases text.len(),
{
    let longer = seq![first] + text;
    if text.len() == 0 {
        assert(longer.drop_last() =~= Seq::<char>::empty());
        assert(collapsed(longer.drop_last()) =~= Seq::<char>::empty());
    } else {
        assert(longer.drop_last() =~= seq![first] + text.drop_last());
        lemma_space_before(first, text.drop_last());
        assert(longer.last() == text.last());
        if text.len() > 1 {
            assert(longer[longer.len() - 2] == text[text.len() - 2]);
        }
    }
}

proof fn lemma_word_before(word: Seq<char>, rest: Seq<char>)
    requires
        word.len() > 0,
        forall|i: int| 0 <= i < word.len() ==> !is_space(#[trigger] word[i]),
        rest.len() > 0 ==> is_space(rest[0]),
    ensures
        collapsed(word + rest) == if collapsed(rest).len() > 0 {
            word + seq![' '] + collapsed(rest)
        } else {
            word
        },
    decreases rest.len(),
{
    let text = word + rest;
    if rest.len() == 0 {
        assert(text =~= word);
        lemma_tidy_collapsed(word);
        assert(!is_space(word[word.len() - 1]));
    } else {
        let shorter = rest.drop_last();
        assert(text.drop_last() =~= word + shorter);
        assert(text.last() == rest.last());
        lemma_word_before(word, shorter);
        if !is_space(rest.last()) {
            assert(rest.len() >= 2);
            assert(text[text.len() - 2] == rest[rest.len() - 2]);
            if collapsed(shorter).len() == 0 {
                lemma_collapsed_to_nothing(shorter);
                assert(is_space(shorter[shorter.len() - 1]));
                assert(collapsed(rest) =~= seq![rest.last()]);
                assert(collapsed(text) =~= word + seq![' '] + seq![rest.last()]);
            } else {
                assert(collapsed(text) =~= word + seq![' '] + collapsed(rest));
            }
        }
    }
}

proof fn lemma_run(text: Seq<char>)
    ensures
        0 <= run_end(text) <= text.len(),
        forall|i: int| 0 <= i < run_end(text) ==> !is_space(#[trigger] text[i]),
        run_end(text) < text.len() ==> is_space(text[run_end(text)]),
        text.len() > 0 && !is_space(text[0]) ==> run_end(text) > 0,
    decreases text.len(),
{
    if text.len() > 0 && !is_space(text[0]) {
        let rest = text.skip(1);
        lemma_run(rest);
        assert forall|i: int| 0 <= i < run_end(text) implies !is_space(#[trigger] text[i]) by {
            if i > 0 {
                assert(rest[i - 1] == text[i]);
            }
        }
    }
}

/// A collapsed text is the words of the text joined by single spaces.
pub proof fn law_collapsing_joins_the_words(text: Seq<char>)
    ensures
        collapsed(text) == spaced(runs(text)),
        runs(text).len() > 0 <==> collapsed(text).len() > 0,
    decreases text.len(),
{
    if text.len() > 0 {
        if is_space(text[0]) {
            law_collapsing_joins_the_words(text.skip(1));
            lemma_space_before(text[0], text.skip(1));
            assert(seq![text[0]] + text.skip(1) =~= text);
        } else {
            lemma_run(text);
            let end = run_end(text);
            let word = text.take(end);
            let rest = text.skip(end);
            law_collapsing_joins_the_words(rest);
            lemma_word_before(word, rest);
            assert(word + rest =~= text);
            let all = runs(text);
            assert(all[0] == word);
            assert(all.skip(1) =~= runs(rest));
        }
    }
}

/// The lines of a log that count are those that hold more than white space, in their order.
pub proof fn law_blank_lines_do_not_count(list: Seq<Seq<char>>)
    ensures
        spoken(list) == list.filter(|line: Seq<char>| trimmed(line).len() > 0),
    decreases list.len(),
{
    reveal(Seq::filter);
    if list.len() > 0 {
        law_blank_lines_do_not_count(list.drop_last());
    }
}

/// White space ends a word and is part of none.
pub proof fn law_white_space_ends_a_word(word: Seq<char>, space: char, rest: Seq<char>)
    requires
        word.len() > 0,
        forall|i: int| 0 <= i < word.len() ==> !is_space(#[trigger] word[i]),
        is_space(space),
    ensures
        runs(word + seq![space] + rest) == seq![word] + runs(rest),
        runs(seq![space] + rest) == runs(rest),
        runs(word) == seq![word],
        runs(Seq::empty()).len() == 0,
{
    let behind = seq![space] + rest;
    let text = word + seq![space] + rest;
    assert(behind.skip(1) =~= rest);
    assert(runs(behind) == runs(rest));
    lemma_run(text);
    let end = run_end(text);
    assert(text[0] == word[0]);
    if end < word.len() {
        assert(text[end] == word[end]);
    } else if end > word.len() {
        assert(!is_space(text[word.len() as int]));
    }
    assert(text.take(end) =~= word);
    assert(text.skip(end) =~= behind);
    lemma_run(word);
    let all = run_end(word);
    if all < word.len() {
        assert(is_space(word[all]));
    }
    assert(word.take(all) =~= word);
    assert(word.skip(all) =~= Seq::<char>::empty());
    assert(runs(Seq::<char>::empty()) =~= Seq::<Seq<char>>::empty());
    assert(runs(word) =~= seq![word]);
}

/// A line of a log ends in one line feed, and what is put behind a log leaves it as it is.
pub proof fn law_a_log_grows_at_its_end(
    line: String,
    res: String,
    list: Seq<Seq<char>>,
    more: Seq<Seq<char>>,
)
    requires
        framed_line.ensures((line,), res),
    ensures
        res@.len() == line@.len() + 1,
        res@.last() == '\n',
        res@.drop_last() == line@,
        framed(list + more) == framed(list) + framed(more),
        framed(seq![line@]) == res@,
    decreases list.len(),
{
    assert(res@.drop_last() =~= line@);
    lemma_framed_joins(list, more);
}

proof fn lemma_framed_joins(list: Seq<Seq<char>>, more: Seq<Seq<char>>)
    ensures
        framed(list + more) == framed(list) + framed(more),
    decreases list.len(),
{
    let all = list + more;
    if list.len() == 0 {
        assert(all =~= more);
        assert(framed(list) + framed(more) =~= framed(more));
    } else {
        lemma_framed_joins(list.skip(1), more);
        assert(all[0] == list[0]);
        assert(all.skip(1) =~= list.skip(1) + more);
        assert(framed(all) =~= framed(list) + framed(more));
    }
}

/// The lines of a log that are read are its own, without the blank ones.
pub proof fn law_a_log_is_read_line_by_line(text: &str, res: Vec<String>)
    requires
        spoken_lines.ensures((text,), res),
    ensures
        texts(res@) == lines_of(text@).filter(|line: Seq<char>| trimmed(line).len() > 0),
{
    law_blank_lines_do_not_count(lines_of(text@));
}

} // verus!
