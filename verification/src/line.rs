//! What may be written onto a launch line, and how a line is split into words.

use vstd::prelude::*;
use vstd::string::*;

use crate::prose::{run_end, runs};
use crate::text::{alphanumeric, chars_of, is_alphanumeric, is_space, text_of, texts, whitespace};

verus! {

// ---------------------------------------------------------------------------
// Characters a line may hold
// ---------------------------------------------------------------------------

/// The characters that no shell on the way acts on.
pub open spec fn is_line_safe(c: char) -> bool {
    is_alphanumeric(c) || c == '/' || c == ':' || c == '.' || c == '_' || c == '-'
}

/// Whether a text is one word of such characters.
pub open spec fn is_safe_word(text: Seq<char>) -> bool {
    text.len() > 0 && forall|i: int| 0 <= i < text.len() ==> is_line_safe(#[trigger] text[i])
}

/// Whether a text is an argument of such characters and spaces.
pub open spec fn is_safe_text(text: Seq<char>) -> bool {
    text.len() > 0 && forall|i: int|
        0 <= i < text.len() ==> is_line_safe(#[trigger] text[i]) || text[i] == ' '
}

/// One character of the set the checks around it are built from.
pub fn line_safe_char(ch: char) -> (res: bool)
    ensures
        res == is_line_safe(ch),
{
    alphanumeric(ch) || ch == '/' || ch == ':' || ch == '.' || ch == '_' || ch == '-'
}

/// Whether one word may be put on a launch line as it is written.
pub fn line_safe_word(text: &str) -> (res: bool)
    ensures
        res == is_safe_word(text@),
{
    let chars = chars_of(text);
    let mut i: usize = 0;
    while i < chars.len()
        invariant
            i <= chars@.len(),
            chars@ == text@,
            forall|j: int| 0 <= j < i ==> is_line_safe(#[trigger] chars@[j]),
        decreases chars@.len() - i,
    {
        if !line_safe_char(chars[i]) {
            proof {
                assert(!is_line_safe(text@[i as int]));
            }
            return false;
        }
        i = i + 1;
    }
    chars.len() > 0
}

/// Whether a whole argument may be put on a launch line as it is written: the set of a
/// word, and the space.
pub fn line_safe_text(text: &str) -> (res: bool)
    ensures
        res == is_safe_text(text@),
{
    let chars = chars_of(text);
    let mut i: usize = 0;
    while i < chars.len()
        invariant
            i <= chars@.len(),
            chars@ == text@,
            forall|j: int| 0 <= j < i ==> is_line_safe(#[trigger] chars@[j]) || chars@[j] == ' ',
        decreases chars@.len() - i,
    {
        if !line_safe_char(chars[i]) && chars[i] != ' ' {
            proof {
                assert(!is_line_safe(text@[i as int]));
            }
            return false;
        }
        i = i + 1;
    }
    chars.len() > 0
}

/// The characters that end or bend a line on its way through a Windows console.
pub open spec fn console_acts_on(c: char) -> bool {
    c == '&' || c == '|' || c == '<' || c == '>' || c == '^' || c == '(' || c == ')' || c == '"'
}

/// Those of them that can stand in a JSON text of letters, digits and JSON's punctuation
/// only where a text in it holds them.
pub open spec fn console_cuts_at(c: char) -> bool {
    console_acts_on(c) && c != '"'
}

/// Whether a text holds none of them.
pub open spec fn is_console_safe(text: Seq<char>) -> bool {
    forall|i: int| 0 <= i < text.len() ==> !console_acts_on(#[trigger] text[i])
}

/// Whether every one of some texts holds none of them.
pub open spec fn all_console_safe(list: Seq<Seq<char>>) -> bool {
    forall|i: int| 0 <= i < list.len() ==> is_console_safe(#[trigger] list[i])
}

/// Whether a value can be written onto a line that passes a Windows console.
pub fn console_safe(text: &str) -> (res: bool)
    ensures
        res == is_console_safe(text@),
{
    let chars = chars_of(text);
    let mut i: usize = 0;
    while i < chars.len()
        invariant
            i <= chars@.len(),
            chars@ == text@,
            forall|j: int| 0 <= j < i ==> !console_acts_on(#[trigger] chars@[j]),
        decreases chars@.len() - i,
    {
        let c: char = chars[i];
        if c == '&' || c == '|' || c == '<' || c == '>' || c == '^' || c == '(' || c == ')' || c
            == '"' {
            proof {
                assert(console_acts_on(text@[i as int]));
            }
            return false;
        }
        i = i + 1;
    }
    true
}

/// Whether every one of some values can be written onto such a line.
pub fn each_console_safe(list: &[String]) -> (res: bool)
    ensures
        res == all_console_safe(texts(list@)),
{
    let mut i: usize = 0;
    while i < list.len()
        invariant
            i <= list@.len(),
            forall|j: int| 0 <= j < i ==> is_console_safe(#[trigger] texts(list@)[j]),
        decreases list@.len() - i,
    {
        proof {
            assert(texts(list@)[i as int] == list@[i as int]@);
        }
        if !console_safe(list[i].as_str()) {
            return false;
        }
        i = i + 1;
    }
    true
}

/// The launch options that a line carries: all of them, or none where one of them
/// cannot be written onto it.
pub open spec fn carried(options: Seq<Seq<char>>) -> Seq<Seq<char>> {
    if all_console_safe(options) {
        options
    } else {
        Seq::empty()
    }
}

/// The launch options that a line carries: the set is carried whole or not at all.
pub fn carried_launch_options(options: &[String]) -> (res: &[String])
    ensures
        texts(res@) == carried(texts(options@)),
{
    if each_console_safe(options) {
        options
    } else {
        let none: &[String] = &options[0..0];
        proof {
            assert(texts(none@) =~= Seq::<Seq<char>>::empty());
        }
        none
    }
}

// ---------------------------------------------------------------------------
// The status line
// ---------------------------------------------------------------------------

/// The program that runs the status-line script.
pub const STATUS_RUNNER: &'static str = "node";

/// A path with every backslash folded to a slash.
pub open spec fn folded(path: Seq<char>) -> Seq<char> {
    path.map_values(
        |c: char|
            if c == '\\' {
                '/'
            } else {
                c
            },
    )
}

/// The status-line command of a seat: the runner, the script and the address, where both
/// can be written onto the line as they stand.
pub open spec fn status_line(script: Seq<char>, url: Seq<char>) -> Option<Seq<char>> {
    if is_safe_word(folded(script)) && is_safe_word(url) {
        Some(STATUS_RUNNER@ + " "@ + folded(script) + " "@ + url)
    } else {
        None
    }
}

/// The status-line command for one seat, or `None` when it cannot be written onto the
/// launch line as it stands.
pub fn status_line_command(script: &str, url: &str) -> (res: Option<String>)
    ensures
        crate::text::opt_text(res) == status_line(script@, url@),
{
    let mut chars = chars_of(script);
    let mut i: usize = 0;
    while i < chars.len()
        invariant
            i <= chars@.len() == script@.len(),
            forall|j: int| 0 <= j < i ==> chars@[j] == #[trigger] folded(script@)[j],
            forall|j: int| i <= j < chars@.len() ==> #[trigger] chars@[j] == script@[j],
        decreases chars@.len() - i,
    {
        if chars[i] == '\\' {
            chars.set(i, '/');
        }
        i = i + 1;
    }
    proof {
        assert(chars@ =~= folded(script@));
    }
    let path = text_of(&chars);
    if line_safe_word(path.as_str()) && line_safe_word(url) {
        let mut command: String = STATUS_RUNNER.to_owned();
        command.append(" ");
        command.append(path.as_str());
        command.append(" ");
        command.append(url);
        Some(command)
    } else {
        None
    }
}

// ---------------------------------------------------------------------------
// Splitting a line
// ---------------------------------------------------------------------------

/// How far a word reaches: up to the first white space outside double quotes.
pub open spec fn word_end(text: Seq<char>, quoted: bool) -> int
    decreases text.len(),
{
    if text.len() == 0 || (is_space(text[0]) && !quoted) {
        0
    } else if text[0] == '"' {
        1 + word_end(text.skip(1), !quoted)
    } else {
        1 + word_end(text.skip(1), quoted)
    }
}

/// A text without its double quotes.
pub open spec fn unquoted(text: Seq<char>) -> Seq<char>
    decreases text.len(),
{
    if text.len() == 0 {
        Seq::empty()
    } else if text.last() == '"' {
        unquoted(text.drop_last())
    } else {
        unquoted(text.drop_last()).push(text.last())
    }
}

/// The words of a line: white space separates them except inside double quotes, which
/// group and are not part of a word. Nothing else is interpreted.
pub open spec fn words(text: Seq<char>) -> Seq<Seq<char>>
    decreases text.len(),
{
    let end = word_end(text, false);
    if text.len() == 0 {
        Seq::empty()
    } else if is_space(text[0]) {
        words(text.skip(1))
    } else if 0 < end <= text.len() {
        seq![unquoted(text.take(end))] + words(text.skip(end))
    } else {
        Seq::empty()
    }
}

proof fn lemma_word_end(text: Seq<char>, quoted: bool)
    ensures
        0 <= word_end(text, quoted) <= text.len(),
        text.len() > 0 && !(is_space(text[0]) && !quoted) ==> word_end(text, quoted) > 0,
    decreases text.len(),
{
    if text.len() > 0 && !(is_space(text[0]) && !quoted) {
        lemma_word_end(text.skip(1), quoted);
        lemma_word_end(text.skip(1), !quoted);
    }
}

/// Split a launch-options string into arguments. Double quotes group; nothing else is
/// interpreted: a backslash in a path is a backslash.
pub fn split_launch_options(text: &str) -> (args: Vec<String>)
    ensures
        texts(args@) == words(text@),
{
    let chars = chars_of(text);
    let mut args: Vec<String> = Vec::new();
    let mut i: usize = 0;
    let ghost all = chars@;
    proof {
        assert(all.skip(0) =~= all);
        assert(texts(args@) + words(all) =~= words(all));
    }
    while i < chars.len()
        invariant
            i <= chars@.len(),
            all == chars@,
            words(all) == texts(args@) + words(all.skip(i as int)),
        decreases chars@.len() - i,
    {
        let ghost rest = all.skip(i as int);
        proof {
            assert(rest[0] == all[i as int]);
        }
        if whitespace(chars[i]) {
            proof {
                assert(rest.skip(1) =~= all.skip(i + 1));
            }
            i = i + 1;
        } else {
            let start: usize = i;
            let mut word: String = String::new();
            let mut quoted: bool = false;
            proof {
                lemma_word_end(rest, false);
                assert(rest.take(0) =~= Seq::<char>::empty());
                assert(rest.skip(0) =~= rest);
            }
            while i < chars.len() && (quoted || !whitespace(chars[i]))
                invariant
                    start <= i <= chars@.len(),
                    all == chars@,
                    rest == all.skip(start as int),
                    word@ == unquoted(rest.take(i - start)),
                    word_end(rest, false) == (i - start) + word_end(rest.skip(i - start), quoted),
                decreases chars@.len() - i,
            {
                let ghost k = i - start;
                proof {
                    assert(rest.skip(k)[0] == all[i as int]);
                    assert(rest.skip(k).skip(1) =~= rest.skip(k + 1));
                    assert(rest.take(k + 1).drop_last() =~= rest.take(k));
                    assert(rest.take(k + 1).last() == all[i as int]);
                }
                if chars[i] == '"' {
                    quoted = !quoted;
                } else {
                    word.push(chars[i]);
                }
                i = i + 1;
            }
            proof {
                let k = i - start;
                if i < chars@.len() {
                    assert(rest.skip(k)[0] == all[i as int]);
                }
                assert(word_end(rest, false) == k);
                assert(rest.skip(k) =~= all.skip(i as int));
            }
            let ghost before = texts(args@);
            let ghost spelled = word@;
            args.push(word);
            proof {
                assert(texts(args@) =~= before.push(spelled));
                assert(before + (seq![spelled] + words(all.skip(i as int))) =~= texts(args@)
                    + words(all.skip(i as int)));
            }
        }
    }
    proof {
        assert(texts(args@) + Seq::<Seq<char>>::empty() =~= texts(args@));
    }
    args
}

// ---------------------------------------------------------------------------
// Laws
// ---------------------------------------------------------------------------

/// Arguments written on one line, each in double quotes, with a space between them.
pub open spec fn quoted_line(args: Seq<Seq<char>>) -> Seq<char>
    decreases args.len(),
{
    if args.len() == 0 {
        Seq::empty()
    } else {
        seq!['"'] + args[0] + seq!['"', ' '] + quoted_line(args.skip(1))
    }
}

proof fn lemma_word_end_quoted(inner: Seq<char>, rest: Seq<char>)
    requires
        !inner.contains('"'),
    ensures
        word_end(inner + seq!['"', ' '] + rest, true) == inner.len() + 1,
    decreases inner.len(),
{
    let text = inner + seq!['"', ' '] + rest;
    if inner.len() == 0 {
        assert(text[0] == '"');
        assert(text.skip(1)[0] == ' ');
        assert(word_end(text.skip(1), false) == 0);
    } else {
        assert(text[0] == inner[0]);
        assert(inner.contains(inner[0]));
        assert(text.skip(1) =~= inner.skip(1) + seq!['"', ' '] + rest);
        assert(!inner.skip(1).contains('"')) by {
            if inner.skip(1).contains('"') {
                let i = choose|i: int| 0 <= i < inner.skip(1).len() && inner.skip(1)[i] == '"';
                assert(inner[i + 1] == '"');
            }
        }
        lemma_word_end_quoted(inner.skip(1), rest);
    }
}

proof fn lemma_unquoted_plain(text: Seq<char>)
    requires
        !text.contains('"'),
    ensures
        unquoted(text) == text,
    decreases text.len(),
{
    if text.len() > 0 {
        assert(text.contains(text.last()));
        assert(!text.drop_last().contains('"')) by {
            if text.drop_last().contains('"') {
                let i = choose|i: int| 0 <= i < text.drop_last().len() && text.drop_last()[i] == '"';
                assert(text[i] == '"');
            }
        }
        lemma_unquoted_plain(text.drop_last());
        assert(text.drop_last().push(text.last()) =~= text);
    } else {
        assert(text =~= Seq::<char>::empty());
    }
}

/// Arguments without double quotes come back as they are when each is written in double
/// quotes and the line is split.
pub proof fn law_quoted_arguments_come_back(args: Seq<Seq<char>>)
    requires
        forall|i: int| 0 <= i < args.len() ==> !(#[trigger] args[i]).contains('"'),
    ensures
        words(quoted_line(args)) == args,
    decreases args.len(),
{
    if args.len() == 0 {
        assert(args =~= Seq::<Seq<char>>::empty());
    } else {
        let arg = args[0];
        let rest = quoted_line(args.skip(1));
        let line = quoted_line(args);
        assert forall|i: int| 0 <= i < args.skip(1).len() implies !(
        #[trigger] args.skip(1)[i]).contains('"') by {
            assert(args.skip(1)[i] == args[i + 1]);
        }
        law_quoted_arguments_come_back(args.skip(1));
        assert(line[0] == '"');
        assert(line.skip(1) =~= arg + seq!['"', ' '] + rest);
        lemma_word_end_quoted(arg, rest);
        let end = word_end(line, false);
        assert(end == arg.len() + 2);
        let word = line.take(end);
        assert(word =~= seq!['"'] + arg + seq!['"']);
        assert(word.drop_last() =~= seq!['"'] + arg);
        lemma_unquoted_skips_first(arg);
        lemma_unquoted_plain(arg);
        assert(unquoted(word) == arg);
        let behind = line.skip(end);
        assert(behind[0] == ' ');
        assert(behind.skip(1) =~= rest);
        assert(words(behind) == words(rest));
        assert(seq![arg] + args.skip(1) =~= args);
    }
}

proof fn lemma_unquoted_skips_first(text: Seq<char>)
    ensures
        unquoted(seq!['"'] + text) == unquoted(text),
    decreases text.len(),
{
    let longer = seq!['"'] + text;
    if text.len() == 0 {
        assert(longer.drop_last() =~= Seq::<char>::empty());
        assert(unquoted(longer.drop_last()) =~= Seq::<char>::empty());
    } else {
        assert(longer.drop_last() =~= seq!['"'] + text.drop_last());
        assert(longer.last() == text.last());
        lemma_unquoted_skips_first(text.drop_last());
    }
}

/// An argument in double quotes.
pub open spec fn in_quotes(arg: Seq<char>) -> Seq<char> {
    seq!['"'] + arg + seq!['"']
}

/// Arguments written on one line, each in double quotes, joined by single spaces.
pub open spec fn joined_quoted(args: Seq<Seq<char>>) -> Seq<char>
    decreases args.len(),
{
    if args.len() == 0 {
        Seq::empty()
    } else if args.len() == 1 {
        in_quotes(args[0])
    } else {
        in_quotes(args[0]) + seq![' '] + joined_quoted(args.skip(1))
    }
}

proof fn lemma_word_end_closed(inner: Seq<char>)
    requires
        !inner.contains('"'),
    ensures
        word_end(inner + seq!['"'], true) == inner.len() + 1,
    decreases inner.len(),
{
    let text = inner + seq!['"'];
    if inner.len() == 0 {
        assert(text[0] == '"');
        assert(text.skip(1) =~= Seq::<char>::empty());
        assert(word_end(text.skip(1), false) == 0);
    } else {
        assert(text[0] == inner[0]);
        assert(inner.contains(inner[0]));
        assert(text.skip(1) =~= inner.skip(1) + seq!['"']);
        assert(!inner.skip(1).contains('"')) by {
            if inner.skip(1).contains('"') {
                let i = inner.skip(1).index_of('"');
                assert(inner[i + 1] == '"');
            }
        }
        lemma_word_end_closed(inner.skip(1));
    }
}

/// Arguments without double quotes, empty ones too, come back as they are when each is
/// written in double quotes, they are joined by single spaces, and the line is split.
pub proof fn law_joined_arguments_come_back(args: Seq<Seq<char>>)
    requires
        forall|i: int| 0 <= i < args.len() ==> !(#[trigger] args[i]).contains('"'),
    ensures
        words(joined_quoted(args)) == args,
    decreases args.len(),
{
    if args.len() == 0 {
        assert(args =~= Seq::<Seq<char>>::empty());
    } else {
        let arg = args[0];
        let line = joined_quoted(args);
        let later = args.skip(1);
        assert forall|i: int| 0 <= i < later.len() implies !(#[trigger] later[i]).contains('"') by {
            assert(later[i] == args[i + 1]);
        }
        law_joined_arguments_come_back(later);
        assert(line[0] == '"');
        let end = word_end(line, false);
        if args.len() == 1 {
            assert(line.skip(1) =~= arg + seq!['"']);
            lemma_word_end_closed(arg);
            assert(line.skip(end) =~= Seq::<char>::empty());
            assert(words(line.skip(end)) =~= Seq::<Seq<char>>::empty());
            assert(later =~= Seq::<Seq<char>>::empty());
        } else {
            let rest = joined_quoted(later);
            assert(line.skip(1) =~= arg + seq!['"', ' '] + rest);
            lemma_word_end_quoted(arg, rest);
            let behind = line.skip(end);
            assert(behind[0] == ' ');
            assert(behind.skip(1) =~= rest);
            assert(words(behind) == words(rest));
        }
        assert(end == arg.len() + 2);
        let word = line.take(end);
        assert(word =~= in_quotes(arg));
        assert(word.drop_last() =~= seq!['"'] + arg);
        lemma_unquoted_skips_first(arg);
        lemma_unquoted_plain(arg);
        assert(unquoted(word) == arg);
        assert(seq![arg] + later =~= args);
    }
}

proof fn lemma_plain_run(text: Seq<char>)
    requires
        !text.contains('"'),
    ensures
        word_end(text, false) == run_end(text),
        0 <= run_end(text) <= text.len(),
    decreases text.len(),
{
    if text.len() > 0 && !is_space(text[0]) {
        assert(text.contains(text[0]));
        lemma_no_quote_behind(text, 1);
        lemma_plain_run(text.skip(1));
    }
}

proof fn lemma_no_quote_behind(text: Seq<char>, n: int)
    requires
        !text.contains('"'),
        0 <= n <= text.len(),
    ensures
        !text.skip(n).contains('"'),
        !text.take(n).contains('"'),
{
    if text.skip(n).contains('"') {
        let i = text.skip(n).index_of('"');
        assert(text[i + n] == '"');
    }
    if text.take(n).contains('"') {
        let i = text.take(n).index_of('"');
        assert(text[i] == '"');
    }
}

/// A text without double quotes is split at its white space alone.
pub proof fn law_plain_text_splits_at_white_space(text: Seq<char>)
    requires
        !text.contains('"'),
    ensures
        words(text) == runs(text),
    decreases text.len(),
{
    if text.len() > 0 {
        if is_space(text[0]) {
            lemma_no_quote_behind(text, 1);
            law_plain_text_splits_at_white_space(text.skip(1));
        } else {
            lemma_plain_run(text);
            lemma_word_end(text, false);
            let end = run_end(text);
            lemma_no_quote_behind(text, end);
            lemma_unquoted_plain(text.take(end));
            law_plain_text_splits_at_white_space(text.skip(end));
        }
    }
}

/// No word of a line holds a double quote.
pub proof fn law_words_hold_no_quotes(text: Seq<char>, i: int)
    requires
        0 <= i < words(text).len(),
    ensures
        !words(text)[i].contains('"'),
    decreases text.len(),
{
    if text.len() > 0 {
        if is_space(text[0]) {
            law_words_hold_no_quotes(text.skip(1), i);
        } else {
            let end = word_end(text, false);
            lemma_word_end(text, false);
            if i == 0 {
                lemma_unquoted_holds_no_quotes(text.take(end));
            } else {
                assert(words(text)[i] == words(text.skip(end))[i - 1]);
                law_words_hold_no_quotes(text.skip(end), i - 1);
            }
        }
    }
}

proof fn lemma_unquoted_holds_no_quotes(text: Seq<char>)
    ensures
        !unquoted(text).contains('"'),
    decreases text.len(),
{
    if text.len() > 0 {
        lemma_unquoted_holds_no_quotes(text.drop_last());
        let shorter = unquoted(text.drop_last());
        if text.last() != '"' && unquoted(text).contains('"') {
            let i = choose|i: int| 0 <= i < unquoted(text).len() && unquoted(text)[i] == '"';
            if i < shorter.len() {
                assert(shorter[i] == '"');
            }
        }
    }
}

/// A value is kept off the line exactly where it holds one of the eight characters that a
/// Windows console acts on, and the options go onto it all together or not at all.
pub proof fn law_what_the_console_acts_on(text: &str, safe: bool, options: &[String], kept: &[String])
    requires
        console_safe.ensures((text,), safe),
        carried_launch_options.ensures((options,), kept),
    ensures
        safe <==> forall|i: int|
            0 <= i < text@.len() ==> !seq!['&', '|', '<', '>', '^', '(', ')', '"'].contains(
                #[trigger] text@[i],
            ),
        (forall|i: int| 0 <= i < options@.len() ==> is_console_safe((#[trigger] options@[i])@))
            ==> texts(kept@) == texts(options@),
        (exists|i: int| 0 <= i < options@.len() && !is_console_safe((#[trigger] options@[i])@))
            ==> kept@.len() == 0,
{
    let marks = seq!['&', '|', '<', '>', '^', '(', ')', '"'];
    assert forall|c: char| #[trigger] marks.contains(c) <==> console_acts_on(c) by {
        assert(marks[0] == '&' && marks[1] == '|' && marks[2] == '<' && marks[3] == '>' && marks[4]
            == '^' && marks[5] == '(' && marks[6] == ')' && marks[7] == '"');
        if marks.contains(c) {
            let k = marks.index_of(c);
            assert(marks[k] == c);
        }
    }
    let all = texts(options@);
    assert(all.len() == options@.len());
    assert(forall|i: int| 0 <= i < all.len() ==> all[i] == (#[trigger] options@[i])@);
    if exists|i: int| 0 <= i < options@.len() && !is_console_safe((#[trigger] options@[i])@) {
        let i = choose|i: int|
            0 <= i < options@.len() && !is_console_safe((#[trigger] options@[i])@);
        assert(!is_console_safe(all[i]));
        assert(texts(kept@).len() == kept@.len());
    }
}

/// A word is written onto a line as it stands exactly where it has letters, digits and
/// `/ : . _ -` alone, and is not empty; a text may hold spaces too.
pub proof fn law_what_is_written_as_it_stands(text: &str, word: bool, whole: bool)
    requires
        line_safe_word.ensures((text,), word),
        line_safe_text.ensures((text,), whole),
    ensures
        word <==> text@.len() > 0 && forall|i: int|
            0 <= i < text@.len() ==> is_alphanumeric(#[trigger] text@[i]) || "/:._-"@.contains(
                text@[i],
            ),
        whole <==> text@.len() > 0 && forall|i: int|
            0 <= i < text@.len() ==> is_alphanumeric(#[trigger] text@[i]) || "/:._- "@.contains(
                text@[i],
            ),
{
    reveal_strlit("/:._-");
    reveal_strlit("/:._- ");
    let short = "/:._-"@;
    let long = "/:._- "@;
    assert forall|c: char| #[trigger] short.contains(c) <==> (c == '/' || c == ':' || c == '.' || c
        == '_' || c == '-') by {
        assert(short[0] == '/' && short[1] == ':' && short[2] == '.' && short[3] == '_' && short[4]
            == '-');
    }
    assert forall|c: char| #[trigger] long.contains(c) <==> (c == '/' || c == ':' || c == '.' || c
        == '_' || c == '-' || c == ' ') by {
        assert(long[0] == '/' && long[1] == ':' && long[2] == '.' && long[3] == '_' && long[4]
            == '-' && long[5] == ' ');
    }
}

/// A status line runs the script, written with slashes, and hands it the address; there is
/// none where one of the two cannot be written onto the line as it stands.
pub proof fn law_a_status_line_runs_its_script(script: &str, url: &str, res: Option<String>)
    requires
        status_line_command.ensures((script, url), res),
    ensures
        res is Some ==> {
            let path = res->0@.subrange(5, 5 + script@.len() as int);
            &&& res->0@ == "node "@ + path + " "@ + url@
            &&& forall|i: int|
                0 <= i < script@.len() ==> path[i] == if #[trigger] script@[i] == '\\' {
                    '/'
                } else {
                    script@[i]
                }
        },
        res is Some <==> is_safe_word(url@) && script@.len() > 0 && forall|i: int|
            0 <= i < script@.len() ==> is_line_safe(#[trigger] script@[i]) || script@[i] == '\\',
{
    reveal_strlit("node");
    reveal_strlit(" ");
    reveal_strlit("node ");
    let path = folded(script@);
    assert("node"@ + " "@ =~= "node "@);
    if res is Some {
        assert(res->0@ =~= "node "@ + path + " "@ + url@);
        assert(res->0@.subrange(5, 5 + script@.len() as int) =~= path);
        assert forall|i: int| 0 <= i < script@.len() implies is_line_safe(#[trigger] script@[i])
            || script@[i] == '\\' by {
            assert(is_line_safe(path[i]));
        }
    } else if is_safe_word(url@) && script@.len() > 0 && (forall|i: int|
        0 <= i < script@.len() ==> is_line_safe(#[trigger] script@[i]) || script@[i] == '\\') {
        assert forall|i: int| 0 <= i < path.len() implies is_line_safe(#[trigger] path[i]) by {
            assert(is_line_safe(script@[i]) || script@[i] == '\\');
        }
    }
}

proof fn lemma_unquoted_joins(a: Seq<char>, b: Seq<char>)
    ensures
        unquoted(a + b) == unquoted(a) + unquoted(b),
    decreases b.len(),
{
    if b.len() == 0 {
        assert(a + b =~= a);
        assert(unquoted(a) + unquoted(b) =~= unquoted(a));
    } else {
        assert((a + b).drop_last() =~= a + b.drop_last());
        assert((a + b).last() == b.last());
        lemma_unquoted_joins(a, b.drop_last());
        assert(unquoted(a) + unquoted(b.drop_last()).push(b.last()) =~= (unquoted(a) + unquoted(
            b.drop_last(),
        )).push(b.last()));
    }
}

proof fn lemma_plain_passes(plain: Seq<char>, rest: Seq<char>, quoted: bool)
    requires
        !plain.contains('"'),
        quoted || forall|i: int| 0 <= i < plain.len() ==> !is_space(#[trigger] plain[i]),
    ensures
        word_end(plain + rest, quoted) == plain.len() + word_end(rest, quoted),
    decreases plain.len(),
{
    let text = plain + rest;
    if plain.len() == 0 {
        assert(text =~= rest);
    } else {
        assert(text[0] == plain[0]);
        assert(plain.contains(plain[0]));
        assert(text.skip(1) =~= plain.skip(1) + rest);
        lemma_no_quote_behind(plain, 1);
        assert forall|i: int| !quoted && 0 <= i < plain.skip(1).len() implies !is_space(
            #[trigger] plain.skip(1)[i],
        ) by {
            assert(plain.skip(1)[i] == plain[i + 1]);
        }
        lemma_plain_passes(plain.skip(1), rest, quoted);
    }
}

/// Double quotes group wherever they stand in a word, and are no part of it; quotes that are
/// never closed reach to the end of the line.
pub proof fn law_quotes_group_inside_a_word(before: Seq<char>, inner: Seq<char>, behind: Seq<char>)
    requires
        !before.contains('"'),
        !inner.contains('"'),
        !behind.contains('"'),
        forall|i: int| 0 <= i < before.len() ==> !is_space(#[trigger] before[i]),
        forall|i: int| 0 <= i < behind.len() ==> !is_space(#[trigger] behind[i]),
    ensures
        words(before + seq!['"'] + inner + seq!['"'] + behind) == seq![before + inner + behind],
        words(before + seq!['"'] + inner) == seq![before + inner],
{
    let none = Seq::<char>::empty();
    let closed = seq!['"'] + behind;
    let opened = seq!['"'] + (inner + closed);
    let line = before + seq!['"'] + inner + seq!['"'] + behind;
    assert(line =~= before + opened);
    lemma_plain_passes(before, opened, false);
    assert(opened.skip(1) =~= inner + closed);
    lemma_plain_passes(inner, closed, true);
    assert(closed.skip(1) =~= behind);
    lemma_plain_passes(behind, none, false);
    assert(behind + none =~= behind);
    assert(word_end(none, false) == 0);
    assert(word_end(line, false) == line.len());
    assert(line.take(line.len() as int) =~= line);
    lemma_unquoted_joins(before, opened);
    lemma_unquoted_skips_first(inner + closed);
    lemma_unquoted_joins(inner, closed);
    lemma_unquoted_skips_first(behind);
    lemma_unquoted_plain(before);
    lemma_unquoted_plain(inner);
    lemma_unquoted_plain(behind);
    assert(before + (inner + behind) =~= before + inner + behind);
    if before.len() > 0 {
        assert(line[0] == before[0]);
    } else {
        assert(line[0] == '"');
    }
    assert(line.skip(line.len() as int) =~= none);
    assert(words(none) =~= Seq::<Seq<char>>::empty());
    assert(words(line) =~= seq![before + inner + behind]);
    let open = seq!['"'] + inner;
    let text = before + seq!['"'] + inner;
    assert(text =~= before + open);
    lemma_plain_passes(before, open, false);
    assert(open.skip(1) =~= inner);
    lemma_plain_passes(inner, none, true);
    assert(inner + none =~= inner);
    assert(word_end(none, true) == 0);
    assert(word_end(text, false) == text.len());
    assert(text.take(text.len() as int) =~= text);
    lemma_unquoted_joins(before, open);
    lemma_unquoted_skips_first(inner);
    if before.len() > 0 {
        assert(text[0] == before[0]);
    } else {
        assert(text[0] == '"');
    }
    assert(text.skip(text.len() as int) =~= none);
    assert(words(text) =~= seq![before + inner]);
}

/// White space between two words, or around them, separates them and is part of neither.
pub proof fn law_white_space_separates_words(first: Seq<char>, space: char, rest: Seq<char>)
    requires
        first.len() > 0,
        !first.contains('"'),
        forall|i: int| 0 <= i < first.len() ==> !is_space(#[trigger] first[i]),
        is_space(space),
    ensures
        words(first + seq![space] + rest) == seq![first] + words(rest),
        words(seq![space] + rest) == words(rest),
        words(first) == seq![first],
        words(Seq::empty()).len() == 0,
{
    let none = Seq::<char>::empty();
    let behind = seq![space] + rest;
    let line = first + seq![space] + rest;
    assert(line =~= first + behind);
    lemma_plain_passes(first, behind, false);
    assert(word_end(behind, false) == 0);
    assert(line[0] == first[0]);
    assert(line.take(first.len() as int) =~= first);
    assert(line.skip(first.len() as int) =~= behind);
    assert(behind.skip(1) =~= rest);
    assert(words(behind) == words(rest));
    lemma_unquoted_plain(first);
    assert(word_end(line, false) == first.len());
    assert(words(line) == seq![first] + words(behind));
    lemma_plain_passes(first, none, false);
    assert(first + none =~= first);
    assert(word_end(none, false) == 0);
    assert(first.take(first.len() as int) =~= first);
    assert(first.skip(first.len() as int) =~= none);
    assert(words(none) =~= Seq::<Seq<char>>::empty());
    assert(words(first) =~= seq![first]);
}

/// A word goes on, character by character and group by group, as long as no white space
/// outside double quotes ends it: what stands before the rest of a word is part of its first
/// word, without the quotes of a group, and the words behind it are those of the rest.
pub proof fn law_a_word_goes_on(c: char, inner: Seq<char>, rest: Seq<char>)
    requires
        c != '"',
        !is_space(c),
        !inner.contains('"'),
        rest.len() > 0,
        !is_space(rest[0]),
    ensures
        words(rest).len() > 0,
        words(seq![c] + rest) == seq![seq![c] + words(rest)[0]] + words(rest).skip(1),
        words(seq!['"'] + inner + seq!['"'] + rest) == seq![inner + words(rest)[0]] + words(
            rest,
        ).skip(1),
{
    let end = word_end(rest, false);
    lemma_word_end(rest, false);
    let first = unquoted(rest.take(end));
    let later = words(rest.skip(end));
    assert(words(rest) == seq![first] + later);
    assert(words(rest)[0] == first);
    assert(words(rest).skip(1) =~= later);
    let one = seq![c] + rest;
    assert(one[0] == c);
    assert(one.skip(1) =~= rest);
    assert(word_end(one, false) == 1 + end);
    assert(one.take(1 + end) =~= seq![c] + rest.take(end));
    assert(one.skip(1 + end) =~= rest.skip(end));
    lemma_unquoted_joins(seq![c], rest.take(end));
    assert(!seq![c].contains('"')) by {
        if seq![c].contains('"') {
            let i = seq![c].index_of('"');
            assert(seq![c][i] == '"');
        }
    }
    lemma_unquoted_plain(seq![c]);
    let closed = seq!['"'] + rest;
    let group = seq!['"'] + inner + seq!['"'] + rest;
    let opened = inner + closed;
    assert(group =~= seq!['"'] + opened);
    assert(group[0] == '"');
    assert(group.skip(1) =~= opened);
    lemma_plain_passes(inner, closed, true);
    assert(closed[0] == '"');
    assert(closed.skip(1) =~= rest);
    assert(word_end(closed, true) == 1 + end);
    let all = 2 + inner.len() + end;
    assert(word_end(group, false) == all);
    let quoted = seq!['"'] + (inner + (seq!['"'] + rest.take(end)));
    assert(group.take(all) =~= quoted);
    assert(group.skip(all) =~= rest.skip(end));
    lemma_unquoted_skips_first(inner + (seq!['"'] + rest.take(end)));
    lemma_unquoted_joins(inner, seq!['"'] + rest.take(end));
    lemma_unquoted_skips_first(rest.take(end));
    lemma_unquoted_plain(inner);
    assert(words(group) == seq![inner + first] + later);
}

} // verus!
