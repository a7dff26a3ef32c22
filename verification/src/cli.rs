//! What the app knows about the CLI itself: how a session id is handed over, how a
//! session is resumed, what it is told, and where its conversations are kept.
//!
//! The name of the program that is launched, in small letters, is the caller's to give.

use vstd::prelude::*;
use vstd::string::*;

use crate::flags::{declares_flag, dropped, head, names_flag, without_flag};
use crate::line::{is_line_safe, is_safe_text, line_safe_text};
use crate::server_name::{is_name_char, is_plain};
use crate::text::{
    alphanumeric, chars_of, copy_texts, is_alphanumeric, lower, lowered_text, opt_str, opt_text,
    same_text, starts, starts_at, text_between, text_of, texts, trim, trimmed,
};

verus! {

/// What an account writes where the id of a CLI session goes.
pub const SESSION_ID_PLACEHOLDER: &'static str = "{session_id}";

/// The flag that adds to what a launch tells its session about itself.
pub const APPEND_SYSTEM_PROMPT_FLAG: &'static str = "--append-system-prompt";

/// The same thing written as a path to a file. The CLI refuses a launch that carries
/// both, so a line that names this one is left alone.
pub const APPEND_SYSTEM_PROMPT_FILE_FLAG: &'static str = "--append-system-prompt-file";

/// How long a directory slug may be before the CLI stops spelling it out.
pub const SLUG_LIMIT: usize = 200;

/// A CLI this app knows the conventions of.
#[derive(Debug, Clone, Copy, PartialEq, Eq, Structural)]
pub enum Cli {
    ClaudeCode,
}

// ---------------------------------------------------------------------------
// Which CLI a command names
// ---------------------------------------------------------------------------

/// Where the last of two characters stands in a text, or -1.
pub open spec fn last_of(s: Seq<char>, a: char, b: char) -> int
    decreases s.len(),
{
    if s.len() == 0 {
        -1
    } else if s.last() == a || s.last() == b {
        s.len() - 1
    } else {
        last_of(s.drop_last(), a, b)
    }
}

/// The file that a path ends in.
pub open spec fn file_of(path: Seq<char>) -> Seq<char> {
    path.skip(last_of(path, '/', '\\') + 1)
}

/// A file's name without its extension.
pub open spec fn stem_of(file: Seq<char>) -> Seq<char> {
    let dot = last_of(file, '.', '.');
    if dot < 0 {
        file
    } else {
        file.take(dot)
    }
}

/// The CLI that a launch command names: by the file's name without its extension,
/// whatever its case, where that is the program's.
pub open spec fn cli_named(program: Seq<char>, command: Seq<char>) -> Option<Cli> {
    if lowered_text(stem_of(file_of(trimmed(command)))) == program {
        Some(Cli::ClaudeCode)
    } else {
        None
    }
}

/// One more than where the last of two characters stands.
fn behind_last(chars: &Vec<char>, a: char, b: char) -> (at: usize)
    ensures
        at == last_of(chars@, a, b) + 1,
        at <= chars@.len(),
{
    let mut at: usize = chars.len();
    proof {
        assert(chars@.take(at as int) =~= chars@);
    }
    while at > 0 && chars[at - 1] != a && chars[at - 1] != b
        invariant
            at <= chars@.len(),
            last_of(chars@, a, b) == last_of(chars@.take(at as int), a, b),
        decreases at,
    {
        proof {
            assert(chars@.take(at as int).drop_last() =~= chars@.take(at - 1));
        }
        at = at - 1;
    }
    at
}

// ---------------------------------------------------------------------------
// Placeholders
// ---------------------------------------------------------------------------

/// Whether a text holds another.
pub open spec fn holds(s: Seq<char>, part: Seq<char>) -> bool {
    exists|i: int| 0 <= i <= s.len() && starts(#[trigger] s.skip(i), part)
}

/// A text with every occurrence of another replaced, from the left.
pub open spec fn replaced(s: Seq<char>, part: Seq<char>, with: Seq<char>) -> Seq<char>
    decreases s.len(),
{
    if s.len() == 0 || part.len() == 0 {
        s
    } else if starts(s, part) {
        with + replaced(s.skip(part.len() as int), part, with)
    } else {
        seq![s[0]] + replaced(s.skip(1), part, with)
    }
}

/// Whether arguments have somewhere to put a session id.
pub open spec fn has_placeholder(args: Seq<Seq<char>>) -> bool {
    exists|i: int| 0 <= i < args.len() && holds(#[trigger] args[i], SESSION_ID_PLACEHOLDER@)
}

/// Arguments with the session id in every place left for it.
pub open spec fn filled(args: Seq<Seq<char>>, session_id: Seq<char>) -> Seq<Seq<char>> {
    args.map_values(|arg: Seq<char>| replaced(arg, SESSION_ID_PLACEHOLDER@, session_id))
}

proof fn lemma_placeholder()
    ensures
        SESSION_ID_PLACEHOLDER@.len() == 12,
        SESSION_ID_PLACEHOLDER@[0] == '{',
{
    reveal_strlit("{session_id}");
}

fn holds_part(chars: &Vec<char>, part: &Vec<char>) -> (res: bool)
    ensures
        res == holds(chars@, part@),
{
    let mut i: usize = 0;
    loop
        invariant_except_break
            i <= chars@.len(),
            forall|j: int| 0 <= j < i ==> !starts(#[trigger] chars@.skip(j), part@),
        ensures
            !holds(chars@, part@),
        decreases chars@.len() + 1 - i,
    {
        if starts_at(chars, i, part) {
            return true;
        }
        if i == chars.len() {
            break;
        }
        i = i + 1;
    }
    false
}

/// Whether these arguments have somewhere to put a session id.
pub fn declares_session_id(args: &[String]) -> (res: bool)
    ensures
        res == has_placeholder(texts(args@)),
{
    let part = chars_of(SESSION_ID_PLACEHOLDER);
    let mut i: usize = 0;
    while i < args.len()
        invariant
            i <= args@.len(),
            part@ == SESSION_ID_PLACEHOLDER@,
            forall|j: int|
                0 <= j < i ==> !holds(#[trigger] texts(args@)[j], SESSION_ID_PLACEHOLDER@),
        decreases args@.len() - i,
    {
        proof {
            assert(texts(args@)[i as int] == args@[i as int]@);
        }
        if holds_part(&chars_of(args[i].as_str()), &part) {
            return true;
        }
        i = i + 1;
    }
    false
}

fn replace_part(chars: &Vec<char>, part: &Vec<char>, with: &str) -> (res: String)
    requires
        part@.len() > 0,
    ensures
        res@ == replaced(chars@, part@, with@),
{
    let mut out: String = String::new();
    let mut i: usize = 0;
    proof {
        assert(chars@.skip(0) =~= chars@);
        assert(out@ + replaced(chars@, part@, with@) =~= replaced(chars@, part@, with@));
    }
    while i < chars.len()
        invariant
            i <= chars@.len(),
            part@.len() > 0,
            replaced(chars@, part@, with@) == out@ + replaced(
                chars@.skip(i as int),
                part@,
                with@,
            ),
        decreases chars@.len() - i,
    {
        let ghost rest = chars@.skip(i as int);
        let ghost done = out@;
        if starts_at(chars, i, part) {
            out.append(with);
            proof {
                let tail = rest.skip(part@.len() as int);
                assert(tail =~= chars@.skip(i + part@.len()));
                assert(done + (with@ + replaced(tail, part@, with@)) =~= out@ + replaced(
                    tail,
                    part@,
                    with@,
                ));
            }
            i = i + part.len();
        } else {
            out.push(chars[i]);
            proof {
                let tail = rest.skip(1);
                assert(rest[0] == chars@[i as int]);
                assert(tail =~= chars@.skip(i + 1));
                assert(done + (seq![rest[0]] + replaced(tail, part@, with@)) =~= out@ + replaced(
                    tail,
                    part@,
                    with@,
                ));
            }
            i = i + 1;
        }
    }
    proof {
        assert(out@ + chars@.skip(i as int) =~= out@);
    }
    out
}

/// Put the session id where the account said it goes: every occurrence in every
/// argument, inside a larger argument as well as alone.
pub fn substitute_session_id(args: &[String], session_id: &str) -> (res: Vec<String>)
    ensures
        texts(res@) == filled(texts(args@), session_id@),
{
    let part = chars_of(SESSION_ID_PLACEHOLDER);
    let mut res: Vec<String> = Vec::new();
    let mut i: usize = 0;
    proof {
        lemma_placeholder();
    }
    while i < args.len()
        invariant
            i <= args@.len(),
            part@ == SESSION_ID_PLACEHOLDER@,
            part@.len() > 0,
            res@.len() == i,
            forall|j: int|
                0 <= j < i ==> (#[trigger] res@[j])@ == filled(texts(args@), session_id@)[j],
        decreases args@.len() - i,
    {
        let chars = chars_of(args[i].as_str());
        res.push(replace_part(&chars, &part, session_id));
        i = i + 1;
    }
    proof {
        assert(texts(res@) =~= filled(texts(args@), session_id@));
    }
    res
}

// ---------------------------------------------------------------------------
// Transcripts
// ---------------------------------------------------------------------------

/// How one character of a directory is written in its slug: a letter or digit as it is,
/// and a dash for each UTF-16 unit of any other.
pub open spec fn slug_char(c: char) -> Seq<char> {
    if is_alphanumeric(c) {
        seq![c]
    } else if c > '\u{ffff}' {
        seq!['-', '-']
    } else {
        seq!['-']
    }
}

/// A directory's slug, however long.
pub open spec fn full_slug(cwd: Seq<char>) -> Seq<char>
    decreases cwd.len(),
{
    if cwd.len() == 0 {
        Seq::empty()
    } else {
        full_slug(cwd.drop_last()) + slug_char(cwd.last())
    }
}

/// The working directory as it names a directory under `projects/`, where the CLI spells
/// it out.
pub open spec fn slug_of(cwd: Seq<char>) -> Option<Seq<char>> {
    if full_slug(cwd).len() <= SLUG_LIMIT {
        Some(full_slug(cwd))
    } else {
        None
    }
}

/// The working directory as it names a directory under `projects/`.
pub fn project_slug(cwd: &str) -> (res: Option<String>)
    ensures
        opt_text(res) == slug_of(cwd@),
{
    let chars = chars_of(cwd);
    let mut slug: Vec<char> = Vec::new();
    let mut i: usize = 0;
    while i < chars.len()
        invariant
            i <= chars@.len(),
            chars@ == cwd@,
            slug@ == full_slug(cwd@.take(i as int)),
        decreases chars@.len() - i,
    {
        let c: char = chars[i];
        let ghost before = slug@;
        proof {
            assert(cwd@.take(i + 1).drop_last() =~= cwd@.take(i as int));
            assert(cwd@.take(i + 1).last() == c);
        }
        if alphanumeric(c) {
            slug.push(c);
        } else {
            slug.push('-');
            if c > '\u{ffff}' {
                slug.push('-');
            }
        }
        proof {
            assert(slug@ =~= before + slug_char(c));
        }
        i = i + 1;
    }
    proof {
        assert(cwd@.take(cwd@.len() as int) =~= cwd@);
    }
    if slug.len() <= SLUG_LIMIT {
        Some(text_of(&slug))
    } else {
        None
    }
}

/// The directories and the file, below the home directory, that hold the transcript of a
/// session started in a working directory.
pub open spec fn transcript_steps(
    program: Seq<char>,
    cwd: Seq<char>,
    session_id: Seq<char>,
) -> Option<Seq<Seq<char>>> {
    match slug_of(cwd) {
        Some(slug) => Some(seq!["."@ + program, "projects"@, slug, session_id + ".jsonl"@]),
        None => None,
    }
}

/// What a list of steps holds.
pub open spec fn steps_view(steps: Option<Vec<String>>) -> Option<Seq<Seq<char>>> {
    match steps {
        Some(steps) => Some(texts(steps@)),
        None => None,
    }
}

/// Where the CLI keeps the transcript of one session, as the steps below the home
/// directory. `None` when the slug would pass the limit: the CLI shortens those, and the
/// file cannot be named.
pub fn transcript_path(program: &str, cwd: &str, session_id: &str) -> (res: Option<Vec<String>>)
    ensures
        steps_view(res) == transcript_steps(program@, cwd@, session_id@),
{
    match project_slug(cwd) {
        Some(slug) => {
            let mut file: String = session_id.to_owned();
            file.append(".jsonl");
            let mut steps: Vec<String> = Vec::new();
            let mut hidden: String = ".".to_owned();
            hidden.append(program);
            steps.push(hidden);
            steps.push("projects".to_owned());
            steps.push(slug);
            steps.push(file);
            proof {
                assert(texts(steps@) =~= transcript_steps(program@, cwd@, session_id@)->0);
            }
            Some(steps)
        },
        None => None,
    }
}

// ---------------------------------------------------------------------------
// The conventions
// ---------------------------------------------------------------------------

/// What a session is told about the room it is joining.
pub open spec fn room_prompt(server_name: Seq<char>) -> Seq<char> {
    "You are a participant in a Pullcept room. Terminal output does not reach the room. The only way to be heard there is the tool mcp__"@
        + server_name
        + "__say_to_room. Call it by that full name even before any tool list has arrived."@
}

/// The flag and the placeholder by which the CLI is handed a session id.
pub open spec fn id_convention(cli: Cli) -> Seq<Seq<char>> {
    match cli {
        Cli::ClaudeCode => seq!["--session-id"@, SESSION_ID_PLACEHOLDER@],
    }
}

/// The line by which the CLI goes back into a session.
pub open spec fn way_back(cli: Cli, program: Seq<char>) -> Option<Seq<char>> {
    match cli {
        Cli::ClaudeCode => Some(program + " --resume {session_id}"@),
    }
}

impl Cli {
    /// Which CLI a launch command names, or `None` when it names none this app knows.
    pub fn of_command(program: &str, command: &str) -> (res: Option<Cli>)
        ensures
            res == cli_named(program@, command@),
    {
        let chars = chars_of(trim(command));
        let from = behind_last(&chars, '/', '\\');
        let file = chars_of(text_between(&chars, from, chars.len()).as_str());
        proof {
            assert(file@ =~= file_of(trimmed(command@)));
        }
        let dot = behind_last(&file, '.', '.');
        let end: usize = if dot == 0 {
            file.len()
        } else {
            dot - 1
        };
        let mut folded: String = String::new();
        let mut i: usize = 0;
        while i < end
            invariant
                i <= end <= file@.len(),
                folded@ =~= lowered_text(file@.take(i as int)),
            decreases end - i,
        {
            folded.push(lower(file[i]));
            i = i + 1;
        }
        proof {
            assert(file@.take(end as int) =~= stem_of(file@));
        }
        if same_text(folded.as_str(), program) {
            Some(Cli::ClaudeCode)
        } else {
            None
        }
    }

    /// What this CLI's conventions put on a fresh launch to hand it the session id,
    /// placeholder and all.
    pub fn session_id_args(self) -> (res: Vec<&'static str>)
        ensures
            res@.map_values(|word: &'static str| word@) == id_convention(self),
    {
        match self {
            Cli::ClaudeCode => {
                let mut words: Vec<&'static str> = Vec::new();
                words.push("--session-id");
                words.push(SESSION_ID_PLACEHOLDER);
                proof {
                    assert(words@.map_values(|word: &'static str| word@) =~= id_convention(self));
                }
                words
            },
        }
    }

    /// The person's own launch options with what this CLI's conventions now put on the
    /// line taken back out.
    pub fn without_session_id_args(self, base: &[String]) -> (res: Vec<String>)
        ensures
            texts(res@) == (if id_convention(self).len() > 0 {
                dropped(texts(base@), id_convention(self)[0])
            } else {
                texts(base@)
            }),
    {
        let convention = self.session_id_args();
        proof {
            assert(convention@.map_values(|word: &'static str| word@).len() == convention@.len());
        }
        if convention.len() > 0 {
            proof {
                assert(convention@.map_values(|word: &'static str| word@)[0] == convention@[0]@);
            }
            without_flag(base, convention[0])
        } else {
            copy_texts(base)
        }
    }

    /// The whole line that goes back into a session this CLI was already in, or `None`
    /// when this CLI has no way back.
    pub fn resume_command(self, program: &str) -> (res: Option<String>)
        ensures
            opt_text(res) == way_back(self, program@),
    {
        match self {
            Cli::ClaudeCode => {
                let mut line: String = program.to_owned();
                line.append(" --resume {session_id}");
                Some(line)
            },
        }
    }

    /// Whether this CLI reports what it is doing through the settings.
    pub fn reports_through_settings(self) -> (res: bool)
        ensures
            res == (self == Cli::ClaudeCode),
    {
        match self {
            Cli::ClaudeCode => true,
        }
    }

    /// What this CLI is told about the room before its first turn, or `None` when it
    /// cannot be written onto the launch line.
    pub fn room_system_prompt(self, server_name: &str) -> (res: Option<String>)
        ensures
            opt_text(res) == (if is_safe_text(room_prompt(server_name@)) {
                Some(room_prompt(server_name@))
            } else {
                None
            }),
    {
        let mut text: String = match self {
            Cli::ClaudeCode => "You are a participant in a Pullcept room. Terminal output does not reach the room. The only way to be heard there is the tool mcp__".to_owned(),
        };
        text.append(server_name);
        text.append("__say_to_room. Call it by that full name even before any tool list has arrived.");
        if line_safe_text(text.as_str()) {
            Some(text)
        } else {
            None
        }
    }

    /// Where this CLI keeps the transcript of one session, as the steps below the home
    /// directory, or `None` when the file cannot be named.
    pub fn transcript_path(self, program: &str, cwd: &str, session_id: &str) -> (res: Option<
        Vec<String>,
    >)
        ensures
            steps_view(res) == transcript_steps(program@, cwd@, session_id@),
    {
        match self {
            Cli::ClaudeCode => transcript_path(program, cwd, session_id),
        }
    }
}

/// The CLI that an account from before the kinds were split names: that of its command,
/// unless it has a way back of its own.
pub open spec fn cli_migrated(
    program: Seq<char>,
    command: Seq<char>,
    resume: Option<Seq<char>>,
) -> Option<Cli> {
    match cli_named(program, command) {
        Some(cli) => match resume {
            Some(line) => if trimmed(line).len() > 0 && Some(trimmed(line)) != way_back(
                cli,
                program,
            ) {
                None
            } else {
                Some(cli)
            },
            None => Some(cli),
        },
        None => None,
    }
}

/// Which CLI an account saved before the kinds were split should be read as naming,
/// given its launch command and the resume line it carries.
pub fn migrated_cli(program: &str, command: &str, resume: Option<&str>) -> (res: Option<Cli>)
    ensures
        res == cli_migrated(program@, command@, opt_str(resume)),
{
    match Cli::of_command(program, command) {
        Some(cli) => match resume {
            Some(line) => {
                let line = trim(line);
                let own = match cli.resume_command(program) {
                    Some(back) => same_text(line, back.as_str()),
                    None => false,
                };
                if line.unicode_len() > 0 && !own {
                    None
                } else {
                    Some(cli)
                }
            },
            None => Some(cli),
        },
        None => None,
    }
}

// ---------------------------------------------------------------------------
// What the conventions put on a line
// ---------------------------------------------------------------------------

/// A line with somewhere to put the session id: as it is where it has that, or names the
/// flag, and with the CLI's convention behind it otherwise.
pub open spec fn with_session_id(base: Seq<Seq<char>>, cli: Option<Cli>) -> Seq<Seq<char>> {
    match cli {
        Some(cli) => {
            let convention = id_convention(cli);
            if convention.len() == 0 || has_placeholder(base) || names_flag(base, convention[0]) {
                base
            } else {
                base + convention
            }
        },
        None => base,
    }
}

/// The launch arguments carrying the session id, given the account's own.
pub fn session_id_launch_args(base: &[String], cli: Option<Cli>) -> (args: Vec<String>)
    ensures
        texts(args@) == with_session_id(texts(base@), cli),
{
    let mut args = copy_texts(base);
    match cli {
        Some(cli) => {
            let convention = cli.session_id_args();
            let ghost words = convention@.map_values(|word: &'static str| word@);
            proof {
                assert(words.len() == convention@.len());
                assert(forall|j: int|
                    0 <= j < convention@.len() ==> words[j] == #[trigger] convention@[j]@);
            }
            if convention.len() == 0 || declares_session_id(base) || declares_flag(
                base,
                convention[0],
            ) {
                return args;
            }
            let mut i: usize = 0;
            proof {
                assert(texts(base@) + words.take(0) =~= texts(base@));
            }
            while i < convention.len()
                invariant
                    i <= convention@.len() == words.len(),
                    forall|j: int|
                        0 <= j < convention@.len() ==> words[j] == #[trigger] convention@[j]@,
                    texts(args@) == texts(base@) + words.take(i as int),
                decreases convention@.len() - i,
            {
                let ghost done = texts(args@);
                args.push(convention[i].to_owned());
                proof {
                    assert(words[i as int] == convention@[i as int]@);
                    assert(texts(args@) =~= done.push(words[i as int]));
                    assert(texts(args@) =~= texts(base@) + words.take(i + 1));
                }
                i = i + 1;
            }
            proof {
                assert(words.take(words.len() as int) =~= words);
            }
            args
        },
        None => args,
    }
}

/// A line with what the CLI is told about the room: as it is where it names either form
/// of the flag or where the text cannot be written onto it.
pub open spec fn with_system_prompt(
    base: Seq<Seq<char>>,
    cli: Option<Cli>,
    server_name: Seq<char>,
) -> Seq<Seq<char>> {
    let prompt = room_prompt(server_name);
    if cli is None || names_flag(base, APPEND_SYSTEM_PROMPT_FLAG@) || names_flag(
        base,
        APPEND_SYSTEM_PROMPT_FILE_FLAG@,
    ) || !is_safe_text(prompt) {
        base
    } else {
        base.push(APPEND_SYSTEM_PROMPT_FLAG@).push(prompt)
    }
}

/// The launch arguments carrying what this CLI's conventions tell a session about the
/// room it is joining, given the account's own.
pub fn system_prompt_launch_args(base: &[String], cli: Option<Cli>, server_name: &str) -> (args: Vec<
    String,
>)
    ensures
        texts(args@) == with_system_prompt(texts(base@), cli, server_name@),
{
    let mut args = copy_texts(base);
    match cli {
        Some(cli) => {
            if declares_flag(base, APPEND_SYSTEM_PROMPT_FLAG) || declares_flag(
                base,
                APPEND_SYSTEM_PROMPT_FILE_FLAG,
            ) {
                return args;
            }
            match cli.room_system_prompt(server_name) {
                Some(text) => {
                    args.push(APPEND_SYSTEM_PROMPT_FLAG.to_owned());
                    args.push(text);
                    proof {
                        assert(texts(args@) =~= with_system_prompt(
                            texts(base@),
                            Some(cli),
                            server_name@,
                        ));
                    }
                    args
                },
                None => args,
            }
        },
        None => args,
    }
}

// ---------------------------------------------------------------------------
// Laws
// ---------------------------------------------------------------------------

/// A text that does not hold another is left as it is when that is replaced.
pub proof fn lemma_nothing_to_replace(s: Seq<char>, part: Seq<char>, with: Seq<char>)
    requires
        !holds(s, part),
    ensures
        replaced(s, part, with) == s,
    decreases s.len(),
{
    if s.len() > 0 && part.len() > 0 {
        assert(s.skip(0) =~= s);
        assert(!starts(s.skip(0), part));
        let rest = s.skip(1);
        assert(!holds(rest, part)) by {
            if holds(rest, part) {
                let i = choose|i: int| 0 <= i <= rest.len() && starts(#[trigger] rest.skip(i), part);
                assert(rest.skip(i) =~= s.skip(i + 1));
            }
        }
        lemma_nothing_to_replace(rest, part, with);
        assert(seq![s[0]] + rest =~= s);
    }
}

/// Arguments that name no placeholder come through a substitution untouched.
pub proof fn law_arguments_without_a_placeholder_are_untouched(
    args: Seq<Seq<char>>,
    session_id: Seq<char>,
)
    requires
        !has_placeholder(args),
    ensures
        filled(args, session_id) == args,
{
    assert forall|i: int| 0 <= i < args.len() implies filled(args, session_id)[i] == args[i] by {
        assert(!holds(args[i], SESSION_ID_PLACEHOLDER@));
        lemma_nothing_to_replace(args[i], SESSION_ID_PLACEHOLDER@, session_id);
    }
    assert(filled(args, session_id) =~= args);
}

proof fn lemma_replaced_start(s: Seq<char>, part: Seq<char>, with: Seq<char>, t: Seq<char>)
    requires
        part.len() > 0,
        t.len() > 0,
        with.contains('-'),
        !t.contains('-'),
        !with.contains(t.last()),
        starts(replaced(s, part, with), t),
    ensures
        starts(s, t),
    decreases s.len(),
{
    let now = replaced(s, part, with);
    let k = t.len() as int;
    assert(now.take(k)[k - 1] == t[k - 1]);
    if s.len() == 0 {
    } else if starts(s, part) {
        if k <= with.len() {
            assert(now[k - 1] == with[k - 1]);
        } else {
            let p = with.index_of('-');
            assert(now.take(k)[p] == with[p]);
            assert(t[p] == '-');
        }
    } else {
        let rest = s.skip(1);
        let tail = replaced(rest, part, with);
        assert(now.take(k)[0] == s[0]);
        if k > 1 {
            let later = t.skip(1);
            assert(tail.take(k - 1) =~= later) by {
                assert forall|i: int| 0 <= i < k - 1 implies tail[i] == later[i] by {
                    assert(now.take(k)[i + 1] == t[i + 1]);
                }
            }
            assert(!later.contains('-')) by {
                if later.contains('-') {
                    let i = later.index_of('-');
                    assert(t[i + 1] == '-');
                }
            }
            lemma_replaced_start(rest, part, with, later);
            assert forall|i: int| 0 <= i < k implies s[i] == t[i] by {
                if i > 0 {
                    assert(rest.take(k - 1)[i - 1] == later[i - 1]);
                }
            }
        }
        assert(s.take(k) =~= t);
    }
}

/// Whether an id can be told from the placeholder wherever it is filled in: it holds a
/// dash, and no brace.
pub open spec fn fills_cleanly(session_id: Seq<char>) -> bool {
    session_id.contains('-') && !session_id.contains('{') && !session_id.contains('}')
}

proof fn lemma_nothing_left(s: Seq<char>, with: Seq<char>, i: int)
    requires
        fills_cleanly(with),
        0 <= i <= replaced(s, SESSION_ID_PLACEHOLDER@, with).len(),
    ensures
        !starts(replaced(s, SESSION_ID_PLACEHOLDER@, with).skip(i), SESSION_ID_PLACEHOLDER@),
    decreases s.len(),
{
    reveal_strlit("{session_id}");
    let part = SESSION_ID_PLACEHOLDER@;
    let now = replaced(s, part, with);
    if starts(now.skip(i), part) {
        let found = now.skip(i).take(12);
        assert(found[0] == now[i] && found[0] == '{');
        if s.len() == 0 {
        } else if starts(s, part) {
            let rest = s.skip(12);
            let tail = replaced(rest, part, with);
            if i < with.len() {
                assert(now[i] == with[i]);
                assert(with.contains(with[i]));
            } else {
                assert(tail.skip(i - with.len()) =~= now.skip(i));
                lemma_nothing_left(rest, with, i - with.len());
            }
        } else if i == 0 {
            assert(now.skip(0) =~= now);
            lemma_replaced_start(s, part, with, part);
        } else {
            let rest = s.skip(1);
            let tail = replaced(rest, part, with);
            assert(tail.skip(i - 1) =~= now.skip(i));
            lemma_nothing_left(rest, with, i - 1);
        }
    }
}

/// Once an id is filled in, no argument holds the placeholder: one pass over the whole line
/// fills every place there is. An id without a dash could spell a new one.
pub proof fn law_a_filled_line_holds_no_placeholder(args: Seq<Seq<char>>, session_id: Seq<char>)
    requires
        fills_cleanly(session_id),
    ensures
        !has_placeholder(filled(args, session_id)),
{
    let now = filled(args, session_id);
    assert forall|i: int| 0 <= i < now.len() implies !holds(
        #[trigger] now[i],
        SESSION_ID_PLACEHOLDER@,
    ) by {
        assert forall|j: int| 0 <= j <= now[i].len() implies !starts(
            #[trigger] now[i].skip(j),
            SESSION_ID_PLACEHOLDER@,
        ) by {
            lemma_nothing_left(args[i], session_id, j);
        }
    }
}

/// The ids that this app mints fill a line cleanly.
pub proof fn law_a_minted_id_fills_cleanly(session_id: Seq<char>)
    requires
        crate::ids::is_hyphenated_id(session_id),
    ensures
        fills_cleanly(session_id),
{
    assert(session_id[8] == '-');
    assert forall|i: int| 0 <= i < session_id.len() implies session_id[i] != '{' && session_id[i]
        != '}' by {
        assert(session_id[i] == '-' || crate::ids::is_id_digit(session_id[i]));
    }
}

proof fn lemma_whole_placeholder(session_id: Seq<char>)
    ensures
        holds(SESSION_ID_PLACEHOLDER@, SESSION_ID_PLACEHOLDER@),
        replaced(SESSION_ID_PLACEHOLDER@, SESSION_ID_PLACEHOLDER@, session_id) == session_id,
{
    lemma_placeholder();
    let p = SESSION_ID_PLACEHOLDER@;
    assert(p.skip(0) =~= p);
    assert(p.take(12) =~= p);
    assert(starts(p.skip(0), p));
    assert(starts(p, p));
    assert(p.skip(12) =~= Seq::<char>::empty());
    assert(replaced(p.skip(12), p, session_id) =~= Seq::<char>::empty());
    assert(session_id + Seq::<char>::empty() =~= session_id);
}

proof fn lemma_last_placeholder(args: Seq<Seq<char>>)
    requires
        args.len() > 0,
        args.last() == SESSION_ID_PLACEHOLDER@,
    ensures
        has_placeholder(args),
{
    lemma_whole_placeholder(Seq::empty());
    assert(holds(args[args.len() - 1], SESSION_ID_PLACEHOLDER@));
}

/// A line given a place for the session id is not given a second one; a line of a kind
/// that names a CLI has one afterwards or names the flag itself; and where the convention
/// was added, the id that is filled in stands last.
pub proof fn law_a_session_id_is_handed_over_once(
    base: Seq<Seq<char>>,
    cli: Cli,
    session_id: Seq<char>,
)
    ensures
        with_session_id(with_session_id(base, Some(cli)), Some(cli)) == with_session_id(
            base,
            Some(cli),
        ),
        has_placeholder(with_session_id(base, Some(cli))) || names_flag(base, id_convention(cli)[0]),
        with_session_id(base, Some(cli)) != base ==> filled(
            with_session_id(base, Some(cli)),
            session_id,
        ).last() == session_id,
{
    let after = with_session_id(base, Some(cli));
    lemma_whole_placeholder(session_id);
    if after != base {
        lemma_last_placeholder(after);
    }
}

/// Telling a session about the room twice is telling it once.
pub proof fn law_a_session_is_told_once(base: Seq<Seq<char>>, cli: Option<Cli>, server_name: Seq<
    char,
>)
    ensures
        with_system_prompt(with_system_prompt(base, cli, server_name), cli, server_name)
            == with_system_prompt(base, cli, server_name),
{
    let after = with_system_prompt(base, cli, server_name);
    if after != base {
        let n = base.len() as int;
        assert(after[n] == APPEND_SYSTEM_PROMPT_FLAG@);
        lemma_flag_is_its_own_head();
        assert(head(after[n]) == APPEND_SYSTEM_PROMPT_FLAG@);
    }
}

proof fn lemma_flag_is_its_own_head()
    ensures
        head(APPEND_SYSTEM_PROMPT_FLAG@) == APPEND_SYSTEM_PROMPT_FLAG@,
{
    reveal_strlit("--append-system-prompt");
    let flag = APPEND_SYSTEM_PROMPT_FLAG@;
    crate::text::lemma_first_at_is(flag, '=', flag.len() as int);
    assert(flag.take(flag.len() as int) =~= flag);
}

/// What a session is told can always be written onto the line for a name in the
/// characters of a server name, and it names the tool in full.
pub proof fn law_the_prompt_of_a_server_name_is_safe(server_name: Seq<char>)
    requires
        is_plain(server_name),
    ensures
        is_safe_text(room_prompt(server_name)),
        holds(room_prompt(server_name), "mcp__"@ + server_name + "__say_to_room"@),
{
    let before =
        "You are a participant in a Pullcept room. Terminal output does not reach the room. The only way to be heard there is the tool mcp__"@;
    let behind = "__say_to_room. Call it by that full name even before any tool list has arrived."@;
    reveal_strlit(
        "You are a participant in a Pullcept room. Terminal output does not reach the room. The only way to be heard there is the tool mcp__",
    );
    reveal_strlit("__say_to_room. Call it by that full name even before any tool list has arrived.");
    reveal_strlit("mcp__");
    reveal_strlit("__say_to_room");
    let prompt = room_prompt(server_name);
    assert forall|i: int| 0 <= i < prompt.len() implies is_line_safe(#[trigger] prompt[i]) || prompt[i]
        == ' ' by {
        if i < before.len() {
            assert(prompt[i] == before[i]);
        } else if i < before.len() + server_name.len() {
            assert(prompt[i] == server_name[i - before.len()]);
            assert(is_name_char(server_name[i - before.len()]));
        } else {
            assert(prompt[i] == behind[i - before.len() - server_name.len()]);
        }
    }
    let tool = "mcp__"@ + server_name + "__say_to_room"@;
    let at = before.len() - 5;
    assert(prompt.skip(at).take(tool.len() as int) =~= tool);
    assert(starts(prompt.skip(at), tool));
}

/// Taking the convention out of options that it was added to gives the options back, and
/// nothing of it is left in any options.
pub proof fn law_the_convention_comes_back_out(base: Seq<Seq<char>>, cli: Cli)
    ensures
        !names_flag(dropped(base, id_convention(cli)[0]), id_convention(cli)[0]),
        with_session_id(base, Some(cli)) != base ==> dropped(
            with_session_id(base, Some(cli)),
            id_convention(cli)[0],
        ) == base,
{
    let flag = id_convention(cli)[0];
    crate::flags::law_a_dropped_flag_is_gone(base, flag);
    if with_session_id(base, Some(cli)) != base {
        reveal_strlit("--session-id");
        assert(!flag.contains('='));
        lemma_dropped_behind(base, flag, SESSION_ID_PLACEHOLDER@);
        assert(base + id_convention(cli) =~= base + seq![flag, SESSION_ID_PLACEHOLDER@]);
    }
}

proof fn lemma_dropped_behind(base: Seq<Seq<char>>, flag: Seq<char>, value: Seq<char>)
    requires
        !names_flag(base, flag),
        !flag.contains('='),
    ensures
        dropped(base + seq![flag, value], flag) == base,
    decreases base.len(),
{
    let all = base + seq![flag, value];
    if base.len() == 0 {
        assert(all[0] == flag);
        assert(all.skip(2) =~= Seq::<Seq<char>>::empty());
        assert(dropped(all.skip(2), flag) =~= Seq::<Seq<char>>::empty());
        assert(base =~= Seq::<Seq<char>>::empty());
    } else {
        let rest = base.skip(1);
        assert(all[0] == base[0]);
        assert(head(base[0]) != flag);
        assert(base[0] != flag) by {
            if base[0] == flag {
                crate::text::lemma_first_at(flag, '=');
                let at = crate::text::first_at(flag, '=');
                if at < flag.len() {
                    assert(flag.contains(flag[at]));
                }
                assert(flag.take(flag.len() as int) =~= flag);
            }
        }
        assert forall|i: int| 0 <= i < rest.len() implies head(#[trigger] rest[i]) != flag by {
            assert(rest[i] == base[i + 1]);
        }
        assert(all.skip(1) =~= rest + seq![flag, value]);
        lemma_dropped_behind(rest, flag, value);
        assert(seq![base[0]] + rest =~= base);
    }
}

/// A command names a CLI exactly where the file that it ends in is the program's, in any case
/// and with any extension or none, and whatever directory it stands in.
pub proof fn law_a_command_names_its_program(
    program: &str,
    command: &str,
    res: Option<Cli>,
    directory: Seq<char>,
    name: Seq<char>,
    extension: Seq<char>,
)
    requires
        Cli::of_command.ensures((program, command), res),
        trimmed(command@) == directory + name + extension,
        directory.len() > 0 ==> directory.last() == '/' || directory.last() == '\\',
        !name.contains('/') && !name.contains('\\'),
        extension.len() == 0 ==> !name.contains('.'),
        extension.len() > 0 ==> extension[0] == '.',
        forall|i: int|
            0 < i < extension.len() ==> #[trigger] extension[i] != '.' && extension[i] != '/'
                && extension[i] != '\\',
    ensures
        res is Some <==> program@.len() == name.len() && forall|i: int|
            0 <= i < name.len() ==> crate::text::lowered(#[trigger] name[i]) == program@[i],
{
    let text = trimmed(command@);
    let file = name + extension;
    assert(text =~= directory + file);
    assert forall|i: int| 0 <= i < file.len() implies #[trigger] file[i] != '/' && file[i] != '\\' by {
        if i < name.len() {
            assert(name.contains(name[i]));
        } else if i > name.len() {
            assert(file[i] == extension[i - name.len()]);
        } else {
            assert(file[i] == extension[0]);
        }
    }
    lemma_last_of(directory, file, '/', '\\');
    assert(text.skip(directory.len() as int) =~= file);
    assert(file_of(text) == file);
    if extension.len() == 0 {
        assert forall|i: int| 0 <= i < file.len() implies #[trigger] file[i] != '.' by {
            assert(name.contains(name[i]));
        }
        lemma_last_of(Seq::empty(), file, '.', '.');
        assert(Seq::<char>::empty() + file =~= file);
        assert(file =~= name);
    } else {
        let dotted = name.push('.');
        let later = extension.skip(1);
        assert(dotted + later =~= file);
        assert forall|i: int| 0 <= i < later.len() implies #[trigger] later[i] != '.' by {
            assert(later[i] == extension[i + 1]);
        }
        lemma_last_of(dotted, later, '.', '.');
        assert(file.take(name.len() as int) =~= name);
    }
    assert(stem_of(file) == name);
    if program@.len() == name.len() && (forall|i: int|
        0 <= i < name.len() ==> crate::text::lowered(#[trigger] name[i]) == program@[i]) {
        assert(lowered_text(name) =~= program@);
    }
    if lowered_text(name) == program@ {
        assert forall|i: int| 0 <= i < name.len() implies crate::text::lowered(#[trigger] name[i])
            == program@[i] by {
            assert(lowered_text(name)[i] == program@[i]);
        }
    }
}

proof fn lemma_last_of(before: Seq<char>, behind: Seq<char>, a: char, b: char)
    requires
        before.len() > 0 ==> before.last() == a || before.last() == b,
        forall|i: int| 0 <= i < behind.len() ==> #[trigger] behind[i] != a && behind[i] != b,
    ensures
        last_of(before + behind, a, b) == before.len() - 1,
    decreases behind.len(),
{
    let all = before + behind;
    if behind.len() == 0 {
        assert(all =~= before);
    } else {
        let shorter = behind.drop_last();
        assert(all.last() == behind[behind.len() - 1]);
        assert(all.drop_last() =~= before + shorter);
        assert forall|i: int| 0 <= i < shorter.len() implies #[trigger] shorter[i] != a && shorter[i]
            != b by {
            assert(shorter[i] == behind[i]);
        }
        lemma_last_of(before, shorter, a, b);
    }
}

/// The session id goes into the place that is left for it, and everything around that place
/// stays as it is.
pub proof fn law_an_id_goes_into_its_place(before: Seq<char>, behind: Seq<char>, id: Seq<char>)
    requires
        !before.contains('{'),
    ensures
        filled(seq![before + "{session_id}"@ + behind], id)[0] == before + id + filled(
            seq![behind],
            id,
        )[0],
        has_placeholder(seq![before + "{session_id}"@ + behind]),
        !has_placeholder(seq![before]),
        filled(seq![before], id)[0] == before,
{
    lemma_placeholder();
    let place = "{session_id}"@;
    let text = before + place + behind;
    lemma_replaced_behind(before, place + behind, id);
    assert(before + (place + behind) =~= text);
    let rest = place + behind;
    assert(rest.take(12) =~= place);
    assert(rest.skip(12) =~= behind);
    assert(replaced(rest, place, id) == id + replaced(behind, place, id));
    assert(before + (id + replaced(behind, place, id)) =~= before + id + replaced(behind, place, id));
    assert(text.skip(before.len() as int) =~= rest);
    assert(starts(text.skip(before.len() as int), place));
    assert(holds(seq![text][0], SESSION_ID_PLACEHOLDER@));
    assert(!holds(before, place)) by {
        if holds(before, place) {
            let i = choose|i: int| 0 <= i <= before.len() && starts(#[trigger] before.skip(i), place);
            assert(before.skip(i).take(12)[0] == '{');
            assert(before[i] == '{');
        }
    }
    lemma_nothing_to_replace(before, place, id);
}

proof fn lemma_replaced_behind(before: Seq<char>, rest: Seq<char>, id: Seq<char>)
    requires
        !before.contains('{'),
    ensures
        replaced(before + rest, SESSION_ID_PLACEHOLDER@, id) == before + replaced(
            rest,
            SESSION_ID_PLACEHOLDER@,
            id,
        ),
    decreases before.len(),
{
    lemma_placeholder();
    let place = SESSION_ID_PLACEHOLDER@;
    let text = before + rest;
    if before.len() == 0 {
        assert(text =~= rest);
        assert(before + replaced(rest, place, id) =~= replaced(rest, place, id));
    } else {
        let later = before.skip(1);
        assert(before.contains(before[0]));
        if starts(text, place) {
            assert(text.take(12)[0] == text[0]);
        }
        assert(text.skip(1) =~= later + rest);
        assert(!later.contains('{')) by {
            if later.contains('{') {
                let i = later.index_of('{');
                assert(before[i + 1] == '{');
            }
        }
        lemma_replaced_behind(later, rest, id);
        assert(seq![before[0]] + (later + replaced(rest, place, id)) =~= before + replaced(
            rest,
            place,
            id,
        ));
    }
}

/// A slug is written one character behind the other: a letter or a digit as it is, a dash for
/// any other, and two for one outside the basic plane. A directory whose slug is longer than
/// two hundred characters has none.
pub proof fn law_how_a_slug_is_written(before: Seq<char>, c: char, cwd: &str, slug: Option<String>)
    requires
        project_slug.ensures((cwd,), slug),
    ensures
        full_slug(before.push(c)) == full_slug(before) + if is_alphanumeric(c) {
            seq![c]
        } else if c as int > 65535 {
            seq!['-', '-']
        } else {
            seq!['-']
        },
        full_slug(Seq::empty()).len() == 0,
        slug is Some <==> full_slug(cwd@).len() <= 200,
        slug is Some ==> slug->0@ == full_slug(cwd@),
{
    assert(before.push(c).drop_last() =~= before);
}

/// The transcript of a session is under the home directory, in the program's own directory,
/// among the projects, in the one of the slug, in the file of the session's id.
pub proof fn law_where_a_transcript_is(
    cli: Cli,
    program: &str,
    cwd: &str,
    session_id: &str,
    steps: Option<Vec<String>>,
)
    requires
        Cli::transcript_path.ensures((cli, program, cwd, session_id), steps),
    ensures
        steps is Some <==> full_slug(cwd@).len() <= 200,
        steps is Some ==> {
            &&& steps->0@.len() == 4
            &&& steps->0@[0]@ == "."@ + program@
            &&& steps->0@[1]@ == "projects"@
            &&& steps->0@[2]@ == full_slug(cwd@)
            &&& steps->0@[3]@ == session_id@ + ".jsonl"@
        },
{
    if steps is Some {
        let all = texts(steps->0@);
        assert(all.len() == steps->0@.len());
        assert(all.len() == 4);
        assert(all[0] == steps->0@[0]@);
        assert(all[1] == steps->0@[1]@);
        assert(all[2] == steps->0@[2]@);
        assert(all[3] == steps->0@[3]@);
    }
}

/// The conventions of the CLI, word for word: the flag that hands over a session id, and the
/// line that goes back into a session.
pub proof fn law_the_conventions_word_for_word(
    cli: Cli,
    words: Vec<&'static str>,
    program: &str,
    back: Option<String>,
    server_name: &str,
    prompt: Option<String>,
)
    requires
        Cli::session_id_args.ensures((cli,), words),
        Cli::resume_command.ensures((cli, program), back),
        Cli::room_system_prompt.ensures((cli, server_name), prompt),
    ensures
        words@.len() == 2,
        words@[0]@ == "--session-id"@,
        words@[1]@ == "{session_id}"@,
        back is Some,
        back->0@ == program@ + " --resume {session_id}"@,
        prompt is Some ==> prompt->0@
            == "You are a participant in a Pullcept room. Terminal output does not reach the room. The only way to be heard there is the tool mcp__"@
            + server_name@
            + "__say_to_room. Call it by that full name even before any tool list has arrived."@,
        is_plain(server_name@) ==> prompt is Some,
{
    let all = words@.map_values(|word: &'static str| word@);
    assert(all.len() == words@.len());
    assert(all[0] == words@[0]@);
    assert(all[1] == words@[1]@);
    if is_plain(server_name@) {
        law_the_prompt_of_a_server_name_is_safe(server_name@);
    }
}

/// Options that name the flag of the session id, or have a place for one, are given no
/// second; those that name either flag of the system prompt are given no prompt; and a kind
/// that names no CLI is given neither.
pub proof fn law_what_the_options_bring_is_not_added(
    base: Seq<Seq<char>>,
    cli: Option<Cli>,
    server_name: Seq<char>,
)
    ensures
        cli is None || has_placeholder(base) || names_flag(base, "--session-id"@)
            ==> with_session_id(base, cli) == base,
        cli is Some && !has_placeholder(base) && !names_flag(base, "--session-id"@)
            ==> with_session_id(base, cli) == base + seq!["--session-id"@, "{session_id}"@],
        cli is None || names_flag(base, "--append-system-prompt"@) || names_flag(
            base,
            "--append-system-prompt-file"@,
        ) ==> with_system_prompt(base, cli, server_name) == base,
        cli is Some && !names_flag(base, "--append-system-prompt"@) && !names_flag(
            base,
            "--append-system-prompt-file"@,
        ) && is_plain(server_name) ==> with_system_prompt(base, cli, server_name) == base
            + seq!["--append-system-prompt"@, room_prompt(server_name)],
{
    if is_plain(server_name) {
        law_the_prompt_of_a_server_name_is_safe(server_name);
    }
    assert(base.push("--append-system-prompt"@).push(room_prompt(server_name)) =~= base
        + seq!["--append-system-prompt"@, room_prompt(server_name)]);
}

/// An account from before the kinds were split names the CLI of its command, unless it has a
/// way back of its own that is not blank and not the program's.
pub proof fn law_which_cli_an_older_account_names(
    program: &str,
    command: &str,
    resume: Option<&str>,
    named: Option<Cli>,
    res: Option<Cli>,
)
    requires
        Cli::of_command.ensures((program, command), named),
        migrated_cli.ensures((program, command, resume), res),
    ensures
        res is Some <==> named is Some && (resume is None || trimmed(resume->0@).len() == 0
            || trimmed(resume->0@) == program@ + " --resume {session_id}"@),
        res is Some ==> res == named,
{
}

/// The options that go with the convention of the session id come out by its flag, and a
/// session's id is put where the line has a place for one.
pub proof fn law_the_convention_is_taken_out_by_its_flag(
    cli: Cli,
    base: &[String],
    kept: Vec<String>,
    session_id: &str,
    line: Vec<String>,
    i: int,
)
    requires
        Cli::without_session_id_args.ensures((cli, base), kept),
        substitute_session_id.ensures((base, session_id), line),
        0 <= i < base@.len(),
    ensures
        texts(kept@) == dropped(texts(base@), "--session-id"@),
        line@.len() == base@.len(),
        line@[i]@ == replaced(base@[i]@, "{session_id}"@, session_id@),
{
    let words = texts(base@);
    let now = texts(line@);
    assert(words.len() == base@.len());
    assert(now.len() == line@.len());
    assert(words[i] == base@[i]@);
    assert(now[i] == line@[i]@);
}

} // verus!
