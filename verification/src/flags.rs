//! Reading and extending a launch's arguments by the flags they name.

use vstd::prelude::*;
use vstd::string::*;

use crate::text::{
    before, chars_of, copy_texts, find_from, first_at, holds_text, lemma_first_at,
    lemma_first_at_is, same_text, text_between, texts,
};

verus! {

/// The flag that loads channel servers into a session.
pub const CHANNEL_FLAG: &'static str = "--dangerously-load-development-channels";

/// The flag that hands a launch its settings, as a path or as JSON.
pub const SETTINGS_FLAG: &'static str = "--settings";

/// What an argument names: the word before its first equals sign, or all of it.
pub open spec fn head(arg: Seq<char>) -> Seq<char> {
    before(arg, '=')
}

/// Whether arguments name a flag, as `--flag value` or as `--flag=value`.
pub open spec fn names_flag(args: Seq<Seq<char>>, flag: Seq<char>) -> bool {
    exists|i: int| 0 <= i < args.len() && head(#[trigger] args[i]) == flag
}

fn head_of(arg: &str) -> (res: String)
    ensures
        res@ == head(arg@),
{
    let chars = chars_of(arg);
    let at = find_from(&chars, 0, '=');
    proof {
        assert(chars@.skip(0) =~= chars@);
        assert(chars@.subrange(0, at as int) =~= arg@.take(at as int));
    }
    text_between(&chars, 0, at)
}

// ---------------------------------------------------------------------------
// Flags that a launch refuses
// ---------------------------------------------------------------------------

/// Flags that silently stop channel pushes from arriving.
pub const INCOMPATIBLE_FLAGS: [&'static str; 4] = [
    "--channels",
    "--print",
    "--input-format",
    "--output-format",
];

/// Whether a flag is one of those.
pub open spec fn is_incompatible(flag: Seq<char>) -> bool {
    exists|k: int| 0 <= k < 4 && (#[trigger] INCOMPATIBLE_FLAGS@[k])@ == flag
}

fn incompatible(flag: &str) -> (res: Option<&'static str>)
    ensures
        match res {
            Some(found) => found@ == flag@ && is_incompatible(flag@),
            None => !is_incompatible(flag@),
        },
{
    let flags: [&'static str; 4] = INCOMPATIBLE_FLAGS;
    let mut k: usize = 0;
    while k < 4
        invariant
            k <= 4,
            flags == INCOMPATIBLE_FLAGS,
            forall|j: int| 0 <= j < k ==> (#[trigger] INCOMPATIBLE_FLAGS@[j])@ != flag@,
        decreases 4 - k,
    {
        if same_text(flags[k], flag) {
            return Some(flags[k]);
        }
        k = k + 1;
    }
    None
}

/// Reject a launch whose flags would leave the session unable to hear the room. Returns
/// the first offending flag.
pub fn reject_incompatible_flags(args: &[String]) -> (res: Result<(), &'static str>)
    ensures
        match res {
            Ok(_) => forall|i: int|
                0 <= i < args@.len() ==> !is_incompatible(head(#[trigger] texts(args@)[i])),
            Err(flag) => is_incompatible(flag@) && exists|i: int|
                {
                    &&& 0 <= i < args@.len()
                    &&& head(#[trigger] texts(args@)[i]) == flag@
                    &&& forall|j: int|
                        0 <= j < i ==> !is_incompatible(head(#[trigger] texts(args@)[j]))
                },
        },
{
    let mut i: usize = 0;
    while i < args.len()
        invariant
            i <= args@.len(),
            forall|j: int| 0 <= j < i ==> !is_incompatible(head(#[trigger] texts(args@)[j])),
        decreases args@.len() - i,
    {
        proof {
            assert(texts(args@)[i as int] == args@[i as int]@);
        }
        if let Some(found) = incompatible(head_of(args[i].as_str()).as_str()) {
            return Err(found);
        }
        i = i + 1;
    }
    Ok(())
}

// ---------------------------------------------------------------------------
// The channel entry
// ---------------------------------------------------------------------------

/// What a server is called behind the channel flag.
pub open spec fn channel_entry(server_name: Seq<char>) -> Seq<char> {
    "server:"@ + server_name
}

/// Arguments with a channel entry merged in: unchanged where they hold it, behind the
/// first channel flag where there is one, and with a flag of its own otherwise.
pub open spec fn with_channel(args: Seq<Seq<char>>, server_name: Seq<char>) -> Seq<Seq<char>> {
    let entry = channel_entry(server_name);
    let at = first_at(args, CHANNEL_FLAG@);
    if args.contains(entry) {
        args
    } else if at < args.len() {
        args.insert(at + 1, entry)
    } else {
        args.push(CHANNEL_FLAG@).push(entry)
    }
}

/// The launch arguments for a channel-enabled session, given the account's own.
pub fn channel_launch_args(base: &[String], server_name: &str) -> (args: Vec<String>)
    ensures
        texts(args@) == with_channel(texts(base@), server_name@),
{
    let mut room: String = "server:".to_owned();
    room.append(server_name);
    let mut args = copy_texts(base);
    if holds_text(base, room.as_str()) {
        return args;
    }
    let mut at: usize = 0;
    while at < args.len() && !same_text(args[at].as_str(), CHANNEL_FLAG)
        invariant
            at <= args@.len(),
            forall|j: int| 0 <= j < at ==> #[trigger] texts(args@)[j] != CHANNEL_FLAG@,
        decreases args@.len() - at,
    {
        proof {
            assert(texts(args@)[at as int] == args@[at as int]@);
        }
        at = at + 1;
    }
    proof {
        lemma_first_at_is(texts(args@), CHANNEL_FLAG@, at as int);
    }
    if at < args.len() {
        args.insert(at + 1, room);
        proof {
            assert(texts(args@) =~= with_channel(texts(base@), server_name@));
        }
    } else {
        args.push(CHANNEL_FLAG.to_owned());
        args.push(room);
        proof {
            assert(texts(args@) =~= with_channel(texts(base@), server_name@));
        }
    }
    args
}

// ---------------------------------------------------------------------------
// Flags present and taken out
// ---------------------------------------------------------------------------

/// Whether the launch options already declare settings of their own.
pub fn declares_settings(args: &[String]) -> (res: bool)
    ensures
        res == names_flag(texts(args@), SETTINGS_FLAG@),
{
    declares_flag(args, SETTINGS_FLAG)
}

/// Whether these arguments name `flag`, as `--flag value` or `--flag=value`.
pub fn declares_flag(args: &[String], flag: &str) -> (res: bool)
    ensures
        res == names_flag(texts(args@), flag@),
{
    let mut i: usize = 0;
    while i < args.len()
        invariant
            i <= args@.len(),
            forall|j: int| 0 <= j < i ==> head(#[trigger] texts(args@)[j]) != flag@,
        decreases args@.len() - i,
    {
        proof {
            assert(texts(args@)[i as int] == args@[i as int]@);
        }
        if same_text(head_of(args[i].as_str()).as_str(), flag) {
            return true;
        }
        i = i + 1;
    }
    false
}

/// Whether one argument carries a flag and its value in one word.
pub open spec fn carries(arg: Seq<char>, flag: Seq<char>) -> bool {
    arg.contains('=') && head(arg) == flag
}

/// Arguments with a flag and the value it carries taken out: `--flag value` loses both
/// words, `--flag=value` the one it is, and a flag at the end only itself.
pub open spec fn dropped(args: Seq<Seq<char>>, flag: Seq<char>) -> Seq<Seq<char>>
    decreases args.len(),
{
    if args.len() == 0 {
        Seq::empty()
    } else if args[0] == flag {
        if args.len() == 1 {
            Seq::empty()
        } else {
            dropped(args.skip(2), flag)
        }
    } else if carries(args[0], flag) {
        dropped(args.skip(1), flag)
    } else {
        seq![args[0]] + dropped(args.skip(1), flag)
    }
}

/// These arguments with `flag`, and the value it carries, taken out.
pub fn without_flag(args: &[String], flag: &str) -> (res: Vec<String>)
    ensures
        texts(res@) == dropped(texts(args@), flag@),
{
    let ghost all = texts(args@);
    let mut out: Vec<String> = Vec::new();
    let mut i: usize = 0;
    proof {
        assert(all.skip(0) =~= all);
        assert(texts(out@) + dropped(all, flag@) =~= dropped(all, flag@));
    }
    while i < args.len()
        invariant
            i <= args@.len(),
            all == texts(args@),
            dropped(all, flag@) == texts(out@) + dropped(all.skip(i as int), flag@),
        decreases args@.len() - i,
    {
        let arg: &str = args[i].as_str();
        let ghost rest = all.skip(i as int);
        let ghost kept = texts(out@);
        proof {
            assert(rest[0] == arg@);
            assert(rest.skip(1) =~= all.skip(i + 1));
        }
        if same_text(arg, flag) {
            if i + 1 < args.len() {
                proof {
                    assert(rest.skip(2) =~= all.skip(i + 2));
                }
                i = i + 2;
            } else {
                proof {
                    assert(dropped(all.skip(i + 1), flag@) =~= Seq::<Seq<char>>::empty());
                }
                i = i + 1;
            }
        } else if carries_flag(arg, flag) {
            i = i + 1;
        } else {
            out.push(args[i].clone());
            proof {
                assert(texts(out@) =~= kept.push(arg@));
                assert(kept + (seq![arg@] + dropped(all.skip(i + 1), flag@)) =~= texts(out@)
                    + dropped(all.skip(i + 1), flag@));
            }
            i = i + 1;
        }
    }
    proof {
        assert(texts(out@) + Seq::<Seq<char>>::empty() =~= texts(out@));
    }
    out
}

fn carries_flag(arg: &str, flag: &str) -> (res: bool)
    ensures
        res == carries(arg@, flag@),
{
    crate::text::holds_char(arg, '=') && same_text(head_of(arg).as_str(), flag)
}

// ---------------------------------------------------------------------------
// Laws
// ---------------------------------------------------------------------------

/// Merging a channel entry in twice is merging it in once, and the entry is there.
pub proof fn law_a_channel_is_merged_once(args: Seq<Seq<char>>, server_name: Seq<char>)
    ensures
        with_channel(args, server_name).contains(channel_entry(server_name)),
        with_channel(with_channel(args, server_name), server_name) == with_channel(
            args,
            server_name,
        ),
{
    let entry = channel_entry(server_name);
    let at = first_at(args, CHANNEL_FLAG@);
    let after = with_channel(args, server_name);
    if !args.contains(entry) {
        lemma_first_at(args, CHANNEL_FLAG@);
        if at < args.len() {
            assert(after[at + 1] == entry);
        } else {
            assert(after[args.len() as int + 1] == entry);
        }
    }
}

/// Where an entry is added it stands directly behind a channel flag, no second flag is
/// added beside one that is there, and the person's own words stay in their order.
pub proof fn law_a_channel_entry_follows_its_flag(args: Seq<Seq<char>>, server_name: Seq<char>)
    requires
        !args.contains(channel_entry(server_name)),
    ensures
        ({
            let after = with_channel(args, server_name);
            let at = first_at(args, CHANNEL_FLAG@);
            &&& 0 <= at
            &&& after[at] == CHANNEL_FLAG@
            &&& after[at + 1] == channel_entry(server_name)
            &&& at < args.len() ==> after.remove(at + 1) == args
            &&& at == args.len() ==> after.take(at) == args && after.len() == at + 2
            &&& at <= args.len()
        }),
{
    let at = first_at(args, CHANNEL_FLAG@);
    let after = with_channel(args, server_name);
    lemma_first_at(args, CHANNEL_FLAG@);
    if at < args.len() {
        assert(after.remove(at + 1) =~= args);
    } else {
        assert(after.take(at) =~= args);
    }
}

proof fn lemma_head_without_equals(arg: Seq<char>)
    requires
        !arg.contains('='),
    ensures
        head(arg) == arg,
{
    lemma_first_at(arg, '=');
    let at = first_at(arg, '=');
    if at < arg.len() {
        assert(arg.contains(arg[at]));
    }
    assert(arg.take(arg.len() as int) =~= arg);
}

/// Nothing is left of a flag once it is taken out, in either spelling.
pub proof fn law_a_dropped_flag_is_gone(args: Seq<Seq<char>>, flag: Seq<char>)
    ensures
        !names_flag(dropped(args, flag), flag),
    decreases args.len(),
{
    if args.len() > 0 {
        if args[0] == flag {
            if args.len() > 1 {
                law_a_dropped_flag_is_gone(args.skip(2), flag);
            }
        } else if carries(args[0], flag) {
            law_a_dropped_flag_is_gone(args.skip(1), flag);
        } else {
            law_a_dropped_flag_is_gone(args.skip(1), flag);
            let rest = dropped(args.skip(1), flag);
            let all = dropped(args, flag);
            if !args[0].contains('=') {
                lemma_head_without_equals(args[0]);
            }
            assert forall|i: int| 0 <= i < all.len() implies head(#[trigger] all[i]) != flag by {
                if i > 0 {
                    assert(all[i] == rest[i - 1]);
                }
            }
        }
    }
}

/// Arguments that do not name a flag lose nothing when it is taken out.
pub proof fn law_dropping_an_absent_flag_changes_nothing(args: Seq<Seq<char>>, flag: Seq<char>)
    requires
        !names_flag(args, flag),
        !flag.contains('='),
    ensures
        dropped(args, flag) == args,
    decreases args.len(),
{
    if args.len() > 0 {
        assert(head(args[0]) != flag);
        lemma_head_without_equals(flag);
        assert(args[0] != flag);
        assert(!carries(args[0], flag));
        let rest = args.skip(1);
        assert forall|i: int| 0 <= i < rest.len() implies head(#[trigger] rest[i]) != flag by {
            assert(rest[i] == args[i + 1]);
        }
        law_dropping_an_absent_flag_changes_nothing(rest, flag);
        assert(seq![args[0]] + rest =~= args);
    } else {
        assert(args =~= Seq::<Seq<char>>::empty());
    }
}

/// Four flags keep the room from being heard.
pub proof fn law_which_flags_are_incompatible()
    ensures
        forall|flag: Seq<char>| #[trigger]
            is_incompatible(flag) <==> flag == "--channels"@ || flag == "--print"@ || flag
                == "--input-format"@ || flag == "--output-format"@,
{
    let flags = INCOMPATIBLE_FLAGS@;
    assert(flags[0]@ == "--channels"@);
    assert(flags[1]@ == "--print"@);
    assert(flags[2]@ == "--input-format"@);
    assert(flags[3]@ == "--output-format"@);
    assert forall|flag: Seq<char>| #[trigger] is_incompatible(flag) implies flag == "--channels"@
        || flag == "--print"@ || flag == "--input-format"@ || flag == "--output-format"@ by {
        let k = choose|k: int| 0 <= k < 4 && (#[trigger] INCOMPATIBLE_FLAGS@[k])@ == flag;
        assert(k == 0 || k == 1 || k == 2 || k == 3);
    }
}

/// An argument names the word before its first equals sign, and all of it where it has none.
pub proof fn law_an_argument_names_its_flag(flag: Seq<char>, value: Seq<char>)
    requires
        !flag.contains('='),
    ensures
        head(flag) == flag,
        head(flag + seq!['='] + value) == flag,
{
    lemma_head_without_equals(flag);
    let arg = flag + seq!['='] + value;
    assert forall|i: int| 0 <= i < flag.len() implies arg[i] != '=' by {
        assert(flag.contains(flag[i]));
        assert(arg[i] == flag[i]);
    }
    assert(arg[flag.len() as int] == '=');
    lemma_first_at_is(arg, '=', flag.len() as int);
    assert(arg.take(flag.len() as int) =~= flag);
}

/// A flag is taken out with the value it carries, in either spelling, and at the end of the
/// arguments alone; what stands before it and behind it stays.
pub proof fn law_a_flag_is_taken_out_with_its_value(
    kept: Seq<Seq<char>>,
    flag: Seq<char>,
    value: Seq<char>,
    rest: Seq<Seq<char>>,
)
    requires
        !flag.contains('='),
        !names_flag(kept, flag),
    ensures
        dropped(kept + seq![flag, value] + rest, flag) == kept + dropped(rest, flag),
        dropped(kept + seq![flag + seq!['='] + value] + rest, flag) == kept + dropped(rest, flag),
        dropped(kept + seq![flag], flag) == kept,
    decreases kept.len(),
{
    let apart = kept + seq![flag, value] + rest;
    let one = flag + seq!['='] + value;
    let together = kept + seq![one] + rest;
    let alone = kept + seq![flag];
    law_an_argument_names_its_flag(flag, value);
    if kept.len() == 0 {
        assert(apart[0] == flag);
        assert(apart.skip(2) =~= rest);
        assert(together[0] == one);
        assert(one[flag.len() as int] == '=');
        assert(one != flag);
        assert(together.skip(1) =~= rest);
        assert(kept + dropped(rest, flag) =~= dropped(rest, flag));
        assert(alone =~= seq![flag]);
        assert(dropped(alone, flag) =~= kept);
    } else {
        let later = kept.skip(1);
        assert(head(kept[0]) != flag);
        assert(kept[0] != flag);
        assert forall|i: int| 0 <= i < later.len() implies head(#[trigger] later[i]) != flag by {
            assert(later[i] == kept[i + 1]);
        }
        law_a_flag_is_taken_out_with_its_value(later, flag, value, rest);
        assert(apart[0] == kept[0]);
        assert(apart.skip(1) =~= later + seq![flag, value] + rest);
        assert(together[0] == kept[0]);
        assert(together.skip(1) =~= later + seq![one] + rest);
        assert(alone[0] == kept[0]);
        assert(alone.skip(1) =~= later + seq![flag]);
        assert(seq![kept[0]] + (later + dropped(rest, flag)) =~= kept + dropped(rest, flag));
        assert(seq![kept[0]] + later =~= kept);
    }
}

/// The room's channel goes behind the first channel flag of some arguments, and behind a flag
/// of its own at their end where they have none; arguments that load it stay as they are.
pub proof fn law_where_the_channel_goes(
    base: &[String],
    server_name: &str,
    args: Vec<String>,
    at: int,
)
    requires
        channel_launch_args.ensures((base, server_name), args),
        0 <= at <= base@.len(),
        forall|i: int|
            0 <= i < at ==> (#[trigger] base@[i])@ != "--dangerously-load-development-channels"@,
        at < base@.len() ==> base@[at]@ == "--dangerously-load-development-channels"@,
        forall|i: int| 0 <= i < base@.len() ==> (#[trigger] base@[i])@ != "server:"@ + server_name@,
    ensures
        at < base@.len() ==> texts(args@) == texts(base@).insert(at + 1, "server:"@ + server_name@),
        at == base@.len() ==> texts(args@) == texts(base@).push(
            "--dangerously-load-development-channels"@,
        ).push("server:"@ + server_name@),
{
    let words = texts(base@);
    assert(words.len() == base@.len());
    assert forall|i: int| 0 <= i < at implies words[i]
        != "--dangerously-load-development-channels"@ by {
        assert(words[i] == base@[i]@);
    }
    lemma_first_at_is(words, "--dangerously-load-development-channels"@, at);
    if words.contains("server:"@ + server_name@) {
        let i = words.index_of("server:"@ + server_name@);
        assert(words[i] == base@[i]@);
    }
}

} // verus!
