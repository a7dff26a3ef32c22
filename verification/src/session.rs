//! Putting one CLI session into a room: which line runs, whether it may, and what it is
//! told.

use vstd::prelude::*;
use vstd::string::*;

use crate::cli::{
    declares_session_id, filled, fills_cleanly, has_placeholder, holds, lemma_nothing_to_replace,
    replaced, room_prompt, session_id_launch_args, substitute_session_id, way_back, with_session_id,
};
use crate::config::{cli_of_kind, Account, AccountKind};
use crate::flags::{
    declares_settings, head, is_incompatible, names_flag, reject_incompatible_flags, SETTINGS_FLAG,
};
use crate::hooks::{
    limited_hook_url, seat_address, status_hook_url, LIMITED_HOOK_PATH, STATUS_HOOK_PATH,
};
use crate::ids::{fresh_id, is_hyphenated_id};
use crate::json::{at, free_of, parsed, Json};
use crate::line::{
    all_console_safe, carried, carried_launch_options, console_acts_on, console_cuts_at,
    console_safe, each_console_safe, is_console_safe, split_launch_options, status_line,
    status_line_command, words,
};
use crate::percent::encoded;
use crate::seats::RunningSession;
use crate::server_name::{law_a_server_name_is_plain, server_name, server_name_for};
use crate::settings::{
    declared_character, joined_line, launch_args, launch_line, law_a_fresh_line_in_full,
    law_settings_declare_what_there_is, left_alone, lemma_joined_brings_no_settings, limit_hooks,
    opt_free, reported, settings_entries, status_line_json, writes_out,
};
use crate::text::{
    borrowed, copy_texts, decimal, decimal_text, given, given_text, opt_str, opt_text, owned, texts,
    trim, trimmed,
};
use crate::topics::TopicRef;

verus! {

// ---------------------------------------------------------------------------
// What a form holds
// ---------------------------------------------------------------------------

/// What a launch would do with each value the form holds.
#[derive(Debug, Clone, Copy, PartialEq, Eq, Structural)]
pub struct LaunchFieldReport {
    /// The character will be selected, or none is declared; otherwise the session speaks as
    /// its working directory's own default.
    pub character: bool,
    /// The launch options are on the line, or none of them are.
    pub options: bool,
    /// The account's command can be written onto the line at all.
    pub command: bool,
    /// The resume line can be, or there is none.
    pub resume: bool,
}

/// Split a launch-options string into arguments.
pub fn parse_launch_options(text: String) -> (args: Vec<String>)
    ensures
        texts(args@) == words(text@),
{
    split_launch_options(text.as_str())
}

/// The character that a line carries: the one a field declares, where it can be written onto
/// a line that passes a Windows console. One that cannot is left off, and the launch runs
/// without it.
pub open spec fn carried_character(field: Option<Seq<char>>) -> Option<Seq<char>> {
    match given(field) {
        Some(name) => if is_console_safe(name) {
            Some(name)
        } else {
            None
        },
        None => None,
    }
}

/// The character that a line carries, if any.
pub fn line_character(field: Option<&str>) -> (res: Option<&str>)
    ensures
        opt_str(res) == carried_character(opt_str(field)),
{
    match declared_character(field) {
        Some(name) => if console_safe(name) {
            Some(name)
        } else {
            None
        },
        None => None,
    }
}

/// Answer for the four fields, through the same functions the launch goes through. Blank
/// declares no character, and that is not a refusal.
pub fn launch_field_report(
    character: Option<String>,
    options: String,
    command: String,
    resume: Option<String>,
) -> (report: LaunchFieldReport)
    ensures
        report == (LaunchFieldReport {
            character: given(opt_text(character)) is None || is_console_safe(
                given(opt_text(character))->0,
            ),
            options: all_console_safe(words(options@)) || words(options@).len() == 0,
            command: is_console_safe(command@),
            resume: match resume {
                Some(line) => all_console_safe(words(line@)),
                None => true,
            },
        }),
{
    let field = borrowed(&character);
    let named = declared_character(field).is_none() || line_character(field).is_some();
    let written = split_launch_options(options.as_str());
    let kept = carried_launch_options(written.as_slice());
    proof {
        assert(texts(kept@).len() == kept@.len());
        assert(texts(written@).len() == written@.len());
    }
    let goes_back = match borrowed(&resume) {
        Some(line) => each_console_safe(split_launch_options(line).as_slice()),
        None => true,
    };
    LaunchFieldReport {
        character: named,
        options: kept.len() == written.len(),
        command: console_safe(command.as_str()),
        resume: goes_back,
    }
}

// ---------------------------------------------------------------------------
// Where the sidecar is
// ---------------------------------------------------------------------------

/// How many directories are looked in for the sidecar: the working directory and those
/// above it.
pub const SIDECAR_LEVELS: usize = 4;

/// The sidecar and its runner as they would stand in one directory, and whether both do.
#[derive(Debug, Clone)]
pub struct SidecarPlace {
    pub entry: String,
    pub runner: String,
    pub present: bool,
}

/// What an override from the environment says: the path, where it is set and there.
pub fn sidecar_override(key: &str, value: Option<&str>, is_file: bool) -> (res: Result<
    Option<String>,
    String,
>)
    ensures
        match value {
            None => res == Ok::<Option<String>, String>(None),
            Some(path) => if is_file {
                res is Ok && opt_text(res->Ok_0) == Some(path@)
            } else {
                res is Err && res->Err_0@ == key@ + " points at a missing file: "@ + path@
            },
        },
{
    match value {
        None => Ok(None),
        Some(path) => {
            if is_file {
                Ok(Some(path.to_owned()))
            } else {
                let mut message: String = key.to_owned();
                message.append(" points at a missing file: ");
                message.append(path);
                Err(message)
            }
        },
    }
}

/// Where the first present place stands among those that are looked in.
pub open spec fn first_present(places: Seq<SidecarPlace>) -> Option<int>
    decreases places.len(),
{
    if places.len() == 0 {
        None
    } else {
        match first_present(places.drop_last()) {
            Some(i) => Some(i),
            None => if places.last().present {
                Some(places.len() - 1)
            } else {
                None
            },
        }
    }
}

/// The places that are looked in.
pub open spec fn looked_in(places: Seq<SidecarPlace>) -> Seq<SidecarPlace> {
    if places.len() > SIDECAR_LEVELS {
        places.take(SIDECAR_LEVELS as int)
    } else {
        places
    }
}

/// The sidecar entry point and the runner that executes it: both overrides where both are
/// set, else the first directory that holds both, with an override in place of its own
/// half.
pub open spec fn sidecar_of(
    entry_override: Option<Seq<char>>,
    runner_override: Option<Seq<char>>,
    places: Seq<SidecarPlace>,
) -> Option<(Seq<char>, Seq<char>)> {
    match (entry_override, runner_override) {
        (Some(entry), Some(runner)) => Some((entry, runner)),
        _ => match first_present(looked_in(places)) {
            Some(i) => Some(
                (
                    match entry_override {
                        Some(entry) => entry,
                        None => places[i].entry@,
                    },
                    match runner_override {
                        Some(runner) => runner,
                        None => places[i].runner@,
                    },
                ),
            ),
            None => None,
        },
    }
}

proof fn lemma_first_present(places: Seq<SidecarPlace>, at: int)
    requires
        0 <= at <= places.len(),
        forall|i: int| 0 <= i < at ==> !(#[trigger] places[i]).present,
        at < places.len() ==> places[at].present,
    ensures
        first_present(places) == if at < places.len() {
            Some(at)
        } else {
            None
        },
    decreases places.len(),
{
    if places.len() > 0 {
        let shorter = places.drop_last();
        assert forall|i: int| 0 <= i < at && i < shorter.len() implies !(
        #[trigger] shorter[i]).present by {
            assert(shorter[i] == places[i]);
        }
        if at < places.len() {
            lemma_first_present(shorter, at);
        } else {
            lemma_first_present(shorter, shorter.len() as int);
            assert(!places[places.len() - 1].present);
        }
    }
}

/// The sidecar entry point and the runner that executes it.
pub fn resolve_sidecar_paths(
    entry_override: Option<String>,
    runner_override: Option<String>,
    places: &[SidecarPlace],
) -> (res: Result<(String, String), String>)
    ensures
        match (res, sidecar_of(opt_text(entry_override), opt_text(runner_override), places@)) {
            (Ok(found), Some(paths)) => (found.0@, found.1@) == paths,
            (Err(message), None) => message@
                == "Could not find sidecar/src/index.ts next to node_modules/tsx. Run npm install, or set PULLCEPT_SIDECAR_ENTRY and PULLCEPT_SIDECAR_RUNNER."@,
            _ => false,
        },
{
    if entry_override.is_some() && runner_override.is_some() {
        return Ok((entry_override.unwrap(), runner_override.unwrap()));
    }
    let levels: usize = if places.len() > SIDECAR_LEVELS {
        SIDECAR_LEVELS
    } else {
        places.len()
    };
    let ghost looked = looked_in(places@);
    let mut i: usize = 0;
    while i < levels && !places[i].present
        invariant
            i <= levels <= places@.len(),
            levels == looked.len(),
            forall|j: int| 0 <= j < levels ==> looked[j] == #[trigger] places@[j],
            forall|j: int| 0 <= j < i ==> !(#[trigger] looked[j]).present,
        decreases levels - i,
    {
        proof {
            assert(looked[i as int] == places@[i as int]);
        }
        i = i + 1;
    }
    proof {
        if i < levels {
            assert(looked[i as int] == places@[i as int]);
        }
        lemma_first_present(looked, i as int);
    }
    if i < levels {
        let entry = match entry_override {
            Some(entry) => entry,
            None => places[i].entry.clone(),
        };
        let runner = match runner_override {
            Some(runner) => runner,
            None => places[i].runner.clone(),
        };
        Ok((entry, runner))
    } else {
        Err("Could not find sidecar/src/index.ts next to node_modules/tsx. Run npm install, or set PULLCEPT_SIDECAR_ENTRY and PULLCEPT_SIDECAR_RUNNER.".to_owned())
    }
}

/// The status-line script, where the file is there.
pub fn status_script(script: Option<&str>, is_file: bool) -> (res: Option<&str>)
    ensures
        opt_str(res) == (if is_file {
            opt_str(script)
        } else {
            None
        }),
{
    if is_file {
        script
    } else {
        None
    }
}

/// The status-line command of a seat, given the script beside its sidecar.
pub open spec fn seat_status(
    script: Option<Seq<char>>,
    port: u16,
    topic_id: Seq<char>,
    account_id: Seq<char>,
) -> Option<Seq<char>> {
    match script {
        Some(script) => status_line(
            script,
            seat_address(port, STATUS_HOOK_PATH@, topic_id, account_id),
        ),
        None => None,
    }
}

/// This seat's status-line command, given the script beside the sidecar entry.
pub fn status_command_beside(script: Option<&str>, port: u16, topic_id: &str, account_id: &str) -> (res:
    Option<String>)
    ensures
        opt_text(res) == seat_status(opt_str(script), port, topic_id@, account_id@),
{
    match script {
        Some(script) => status_line_command(
            script,
            status_hook_url(port, topic_id, account_id).as_str(),
        ),
        None => None,
    }
}

/// The same command for a room that may have no port to address yet.
pub fn status_command(
    script: Option<&str>,
    port: Option<u16>,
    topic_id: &str,
    account_id: &str,
) -> (res: Option<String>)
    ensures
        opt_text(res) == (match port {
            Some(port) => seat_status(opt_str(script), port, topic_id@, account_id@),
            None => None,
        }),
{
    match port {
        Some(port) => status_command_beside(script, port, topic_id, account_id),
        None => None,
    }
}

// ---------------------------------------------------------------------------
// Which line runs
// ---------------------------------------------------------------------------

/// The line one launch runs, resolved against the topic it is being started into.
#[derive(Debug, Clone)]
pub struct LaunchLine {
    pub command: String,
    /// The arguments of that line, with the placeholder still standing where an id goes.
    pub args: Vec<String>,
    /// The session id this launch is handing the CLI, when it is handing one.
    pub session_id: Option<String>,
    /// The session id this launch is going back into, when it is a resume.
    pub resumed_from: Option<String>,
    /// The session id this launch took off the topic, because its conversation is gone.
    pub dropped_resume: Option<String>,
}

/// What a launch line says.
pub struct LineModel {
    pub command: Seq<char>,
    pub args: Seq<Seq<char>>,
    pub session_id: Option<Seq<char>>,
    pub resumed_from: Option<Seq<char>>,
    pub dropped_resume: Option<Seq<char>>,
}

impl View for LaunchLine {
    type V = LineModel;

    open spec fn view(&self) -> LineModel {
        LineModel {
            command: self.command@,
            args: texts(self.args@),
            session_id: opt_text(self.session_id),
            resumed_from: opt_text(self.resumed_from),
            dropped_resume: opt_text(self.dropped_resume),
        }
    }
}

/// The line that takes an account back into a session: its kind's, or its own where its
/// kind names no CLI.
pub open spec fn resume_line_of(account: Account, program: Seq<char>) -> Option<Seq<char>> {
    match cli_of_kind(account.kind) {
        Some(cli) => way_back(cli, program),
        None => given(opt_text(account.resume_command)),
    }
}

/// The line that takes an account back into a session, if it has one.
pub fn resume_line(account: &Account, program: &str) -> (res: Option<String>)
    ensures
        opt_text(res) == resume_line_of(*account, program@),
{
    match account.kind.cli() {
        Some(cli) => cli.resume_command(program),
        None => owned(given_text(borrowed(&account.resume_command))),
    }
}

/// The session that a launch should look for on disk: one recorded for the account in the
/// topic, where there is a line that goes back into one.
pub fn resume_candidate<'a>(account: &Account, program: &str, recorded: Option<&'a str>) -> (res:
    Option<&'a str>)
    ensures
        opt_str(res) == (if resume_line_of(*account, program@) is Some {
            opt_str(recorded)
        } else {
            None
        }),
{
    if resume_line(account, program).is_some() {
        recorded
    } else {
        None
    }
}

/// The line that a launch resolves to, or none for a resume line without a command.
///
/// `found` says whether the recorded conversation is on disk, or cannot be looked for;
/// `dropped` whether the record of one that is not was taken off the topic; and `fresh`
/// is the id that a fresh launch hands over, where its line has somewhere to put one.
pub open spec fn resolved(
    account: Account,
    program: Seq<char>,
    recorded: Option<Seq<char>>,
    found: bool,
    dropped: bool,
    fresh: Seq<char>,
) -> Option<LineModel> {
    match (recorded, resume_line_of(account, program)) {
        (Some(session_id), Some(line)) => if found {
            let parts = words(line);
            if parts.len() == 0 || parts[0].len() == 0 {
                None
            } else {
                Some(
                    LineModel {
                        command: parts[0],
                        args: parts.skip(1),
                        session_id: None,
                        resumed_from: Some(session_id),
                        dropped_resume: None,
                    },
                )
            }
        } else {
            Some(
                fresh_line(
                    account,
                    fresh,
                    if dropped {
                        Some(session_id)
                    } else {
                        None
                    },
                ),
            )
        },
        _ => Some(fresh_line(account, fresh, None)),
    }
}

/// The account's own line, with an id where it has somewhere to put one.
pub open spec fn fresh_line(account: Account, fresh: Seq<char>, dropped: Option<Seq<char>>) -> LineModel {
    LineModel {
        command: account.command@,
        args: texts(account.args@),
        session_id: if has_placeholder(
            with_session_id(carried(texts(account.args@)), cli_of_kind(account.kind)),
        ) {
            Some(fresh)
        } else {
            None
        },
        resumed_from: None,
        dropped_resume: dropped,
    }
}

/// The refusal of a resume line without a command.
pub open spec fn empty_resume(name: Seq<char>) -> Seq<char> {
    "Account \""@ + trimmed(name)
        + "\" has a resume command with no command in it. Write the whole line, command first."@
}

/// Which of the account's two lines this launch is, given the id a fresh one would hand
/// over.
pub fn resolve_with(
    account: &Account,
    program: &str,
    recorded: Option<&str>,
    found: bool,
    dropped: bool,
    fresh: String,
) -> (res: Result<LaunchLine, String>)
    ensures
        match (res, resolved(*account, program@, opt_str(recorded), found, dropped, fresh@)) {
            (Ok(line), Some(model)) => line@ == model,
            (Err(message), None) => message@ == empty_resume(account.name@),
            _ => false,
        },
{
    let mut dropped_resume: Option<String> = None;
    let back = resume_line(account, program);
    if let (Some(session_id), Some(line)) = (recorded, borrowed(&back)) {
        if found {
            let mut parts = split_launch_options(line);
            proof {
                assert(texts(parts@).len() == parts@.len());
                if parts@.len() > 0 {
                    assert(texts(parts@)[0] == parts@[0]@);
                }
            }
            if parts.len() == 0 || parts[0].as_str().unicode_len() == 0 {
                let mut message: String = "Account \"".to_owned();
                message.append(trim(account.name.as_str()));
                message.append(
                    "\" has a resume command with no command in it. Write the whole line, command first.",
                );
                return Err(message);
            }
            let command = parts.remove(0);
            proof {
                assert(texts(parts@) =~= words(line@).skip(1));
            }
            return Ok(
                LaunchLine {
                    command,
                    args: parts,
                    session_id: None,
                    resumed_from: Some(session_id.to_owned()),
                    dropped_resume: None,
                },
            );
        }
        if dropped {
            dropped_resume = Some(session_id.to_owned());
        }
    }
    let own = session_id_launch_args(
        carried_launch_options(account.args.as_slice()),
        account.kind.cli(),
    );
    let session_id = if declares_session_id(own.as_slice()) {
        Some(fresh)
    } else {
        None
    };
    Ok(
        LaunchLine {
            command: account.command.clone(),
            args: copy_texts(account.args.as_slice()),
            session_id,
            resumed_from: None,
            dropped_resume,
        },
    )
}

/// Which of the account's two lines this launch is, and with which id. A fresh launch is
/// handed an id of its own.
pub fn resolve_launch(account: &Account, program: &str, recorded: Option<&str>, found: bool, dropped: bool) -> (res:
    Result<LaunchLine, String>)
    ensures
        exists|fresh: Seq<char>|
            is_hyphenated_id(fresh) && match (
                res,
                #[trigger] resolved(*account, program@, opt_str(recorded), found, dropped, fresh),
            ) {
                (Ok(line), Some(model)) => line@ == model,
                (Err(message), None) => message@ == empty_resume(account.name@),
                _ => false,
            },
{
    let fresh = fresh_id();
    let ghost id = fresh@;
    let res = resolve_with(account, program, recorded, found, dropped, fresh);
    assert(is_hyphenated_id(id));
    res
}

/// Whether the conversation of a recorded session counts as there: it is on disk, or it
/// cannot be looked for, because its kind or its directory names no file, or because the
/// home directory is not known.
pub fn conversation_found(steps: Option<&Vec<String>>, home_known: bool, is_file: bool) -> (found:
    bool)
    ensures
        found == (steps is None || !home_known || is_file),
{
    steps.is_none() || !home_known || is_file
}

/// Whether a seat is taken in front of posts that it does not have: the topic has been
/// spoken in, and the launch is no resume.
pub fn unseen_history(line: &LaunchLine, topic_has_posts: bool) -> (res: bool)
    ensures
        res == (topic_has_posts && line@.resumed_from is None),
{
    line.resumed_from.is_none() && topic_has_posts
}

// ---------------------------------------------------------------------------
// Whether it may run
// ---------------------------------------------------------------------------

/// Where a launch goes: the name it speaks under, the topic, and the directory.
#[derive(Debug)]
pub struct LaunchPlace {
    pub name: String,
    pub topic: TopicRef,
    pub cwd: String,
}

/// The refusal of a topic that this run does not hold.
pub open spec fn topic_not_open(topic_id: Seq<char>) -> Seq<char> {
    "トピック "@ + topic_id
        + " はこのアプリで開かれていません。削除されたトピックかもしれません。"@
}

/// Say that this run does not hold a topic.
pub fn topic_not_open_text(topic_id: &str) -> (text: String)
    ensures
        text@ == topic_not_open(topic_id@),
{
    let mut text: String = "トピック ".to_owned();
    text.append(topic_id);
    text.append(" はこのアプリで開かれていません。削除されたトピックかもしれません。");
    text
}

/// Why an account cannot be launched into a topic at all, if it cannot: it has no name,
/// it is a person, the topic is not held, or it has no working directory.
pub open spec fn place_refusal(account: Account, topic_id: Seq<char>, held: bool) -> Option<
    Seq<char>,
> {
    let name = trimmed(account.name@);
    if name.len() == 0 {
        Some(
            "This account has no name. Give it one before starting: it is what the room lists it under and what a post is addressed to."@,
        )
    } else if account.kind == AccountKind::User {
        Some(
            "Account \""@ + name
                + "\" is a person, not a session. There is nothing to launch: a person joins by being at the screen."@,
        )
    } else if !held {
        Some(topic_not_open(topic_id))
    } else if given(opt_text(account.cwd)) is None {
        Some(
            "Account \""@ + name
                + "\" has no working directory. Set one before starting a session."@,
        )
    } else {
        None
    }
}

/// Where an account's launch goes, or why it goes nowhere.
pub fn launch_place(account: &Account, topic_id: &str, topic: Option<TopicRef>) -> (res: Result<
    LaunchPlace,
    String,
>)
    ensures
        match (res, place_refusal(*account, topic_id@, topic is Some)) {
            (Ok(place), None) => {
                &&& place.name@ == trimmed(account.name@)
                &&& topic == Some(place.topic)
                &&& Some(place.cwd@) == given(opt_text(account.cwd))
            },
            (Err(message), Some(why)) => message@ == why,
            _ => false,
        },
{
    let name = trim(account.name.as_str());
    if name.unicode_len() == 0 {
        return Err("This account has no name. Give it one before starting: it is what the room lists it under and what a post is addressed to.".to_owned());
    }
    if account.kind == AccountKind::User {
        return Err(
            about(
                name,
                "\" is a person, not a session. There is nothing to launch: a person joins by being at the screen.",
            ),
        );
    }
    match topic {
        None => Err(topic_not_open_text(topic_id)),
        Some(topic) => match given_text(borrowed(&account.cwd)) {
            Some(dir) => Ok(LaunchPlace { name: name.to_owned(), topic, cwd: dir.to_owned() }),
            None => Err(
                about(name, "\" has no working directory. Set one before starting a session."),
            ),
        },
    }
}

fn about(name: &str, what: &str) -> (message: String)
    ensures
        message@ == "Account \""@ + name@ + what@,
{
    let mut message: String = "Account \"".to_owned();
    message.append(name);
    message.append(what);
    message
}

/// Say that a working directory is not there.
pub fn missing_directory(name: &str, cwd: &str) -> (message: String)
    ensures
        message@ == "Account \""@ + name@ + "\" points at a missing directory: "@ + cwd@,
{
    let mut message = about(name, "\" points at a missing directory: ");
    message.append(cwd);
    message
}

/// Why a line cannot run, if it cannot: its command or a resume's arguments hold what the
/// console acts on, it passes a flag that keeps the room from being heard, or there is no
/// room to hear.
pub open spec fn line_refusal(name: Seq<char>, line: LineModel, port: Option<u16>) -> Option<
    Seq<char>,
> {
    if !is_console_safe(line.command) {
        Some(
            "「"@ + name + "」の起動コマンド `"@ + line.command
                + "` には、Windows の起動の行に載せられない文字があります（`& | < > ^ ( ) \"`）。この行は `cmd.exe` を通るため、そこでコマンドが途中で切れます。"@,
        )
    } else if line.resumed_from is Some && !all_console_safe(line.args) {
        Some(
            "「"@ + name
                + "」の再開コマンドには、Windows の起動の行に載せられない文字があります（`& | < > ^ ( ) \"`）。載せずに起動すれば戻る先へ戻らないため、この起動は行いません。"@,
        )
    } else {
        match first_incompatible(line.args) {
            Some(flag) => Some(
                "Account \""@ + name + "\" passes "@ + flag
                    + ", which stops channel pushes from arriving. Remove it from the launch options."@,
            ),
            None => if port is None {
                Some("The room socket is not listening yet."@)
            } else {
                None
            },
        }
    }
}

/// The first flag of some arguments that keeps the room from being heard.
pub open spec fn first_incompatible(args: Seq<Seq<char>>) -> Option<Seq<char>>
    decreases args.len(),
{
    if args.len() == 0 {
        None
    } else {
        match first_incompatible(args.drop_last()) {
            Some(flag) => Some(flag),
            None => if is_incompatible(head(args.last())) {
                Some(head(args.last()))
            } else {
                None
            },
        }
    }
}

proof fn lemma_first_incompatible(args: Seq<Seq<char>>, at: int)
    requires
        0 <= at <= args.len(),
        forall|i: int| 0 <= i < at ==> !is_incompatible(head(#[trigger] args[i])),
        at < args.len() ==> is_incompatible(head(args[at])),
    ensures
        first_incompatible(args) == if at < args.len() {
            Some(head(args[at]))
        } else {
            None
        },
    decreases args.len(),
{
    if args.len() > 0 {
        let shorter = args.drop_last();
        assert forall|i: int| 0 <= i < at && i < shorter.len() implies !is_incompatible(
            head(#[trigger] shorter[i]),
        ) by {
            assert(shorter[i] == args[i]);
        }
        if at < args.len() {
            lemma_first_incompatible(shorter, at);
        } else {
            lemma_first_incompatible(shorter, shorter.len() as int);
            assert(!is_incompatible(head(args[args.len() - 1])));
        }
    }
}

/// Check the line that a launch resolved to. Returns the port it reports to.
pub fn check_line(name: &str, line: &LaunchLine, port: Option<u16>) -> (res: Result<u16, String>)
    ensures
        match (res, line_refusal(name@, line@, port)) {
            (Ok(open), None) => port == Some(open),
            (Err(message), Some(why)) => message@ == why,
            _ => false,
        },
{
    if !console_safe(line.command.as_str()) {
        let mut message: String = "「".to_owned();
        message.append(name);
        message.append("」の起動コマンド `");
        message.append(line.command.as_str());
        message.append("` には、Windows の起動の行に載せられない文字があります（`& | < > ^ ( ) \"`）。この行は `cmd.exe` を通るため、そこでコマンドが途中で切れます。");
        return Err(message);
    }
    if line.resumed_from.is_some() && !each_console_safe(line.args.as_slice()) {
        let mut message: String = "「".to_owned();
        message.append(name);
        message.append("」の再開コマンドには、Windows の起動の行に載せられない文字があります（`& | < > ^ ( ) \"`）。載せずに起動すれば戻る先へ戻らないため、この起動は行いません。");
        return Err(message);
    }
    match reject_incompatible_flags(line.args.as_slice()) {
        Err(flag) => {
            proof {
                let args = texts(line.args@);
                let at = choose|i: int|
                    {
                        &&& 0 <= i < args.len()
                        &&& head(#[trigger] args[i]) == flag@
                        &&& forall|j: int| 0 <= j < i ==> !is_incompatible(head(#[trigger] args[j]))
                    };
                lemma_first_incompatible(args, at);
            }
            let mut message = about(name, "\" passes ");
            message.append(flag);
            message.append(", which stops channel pushes from arriving. Remove it from the launch options.");
            Err(message)
        },
        Ok(_) => {
            proof {
                lemma_first_incompatible(texts(line.args@), line.args@.len() as int);
            }
            match port {
                Some(open) => Ok(open),
                None => Err("The room socket is not listening yet.".to_owned()),
            }
        },
    }
}

/// The address of the room socket.
pub open spec fn room_address(port: u16) -> Seq<char> {
    "ws://127.0.0.1:"@ + decimal(port as nat)
}

/// The address of the room socket.
pub fn room_url(port: u16) -> (url: String)
    ensures
        url@ == room_address(port),
{
    let mut url: String = "ws://127.0.0.1:".to_owned();
    url.append(decimal_text(port as u64).as_str());
    url
}

/// Why a launch's settings cannot be declared, if they cannot: the line passes its own,
/// and there is a character on the line to select or another account's server to stop.
pub open spec fn settings_refusal(
    name: Seq<char>,
    character: Option<Seq<char>>,
    others: Seq<Seq<char>>,
    args: Seq<Seq<char>>,
) -> Option<Seq<char>> {
    if !names_flag(args, SETTINGS_FLAG@) {
        None
    } else if carried_character(character) is Some {
        Some(
            "Account \""@ + name
                + "\" declares a character and also passes --settings in its launch options. Both name the same setting. Clear one of them."@,
        )
    } else if others.len() > 0 {
        Some(
            "Account \""@ + name
                + "\" passes --settings in its launch options, and its working directory holds another account's room registration that this session has to keep from starting. Both name the same setting. Remove the --settings, or give this account a working directory of its own."@,
        )
    } else {
        None
    }
}

/// Check that a launch's settings can be declared.
pub fn check_settings(name: &str, character: Option<&str>, others: &[String], args: &[String]) -> (res:
    Result<(), String>)
    ensures
        match (
            res,
            settings_refusal(name@, opt_str(character), texts(others@), texts(args@)),
        ) {
            (Ok(_), None) => true,
            (Err(message), Some(why)) => message@ == why,
            _ => false,
        },
{
    let selects = line_character(character).is_some();
    if (selects || others.len() > 0) && declares_settings(args) {
        if selects {
            Err(
                about(
                    name,
                    "\" declares a character and also passes --settings in its launch options. Both name the same setting. Clear one of them.",
                ),
            )
        } else {
            Err(
                about(
                    name,
                    "\" passes --settings in its launch options, and its working directory holds another account's room registration that this session has to keep from starting. Both name the same setting. Remove the --settings, or give this account a working directory of its own.",
                ),
            )
        }
    } else {
        Ok(())
    }
}

/// Say that an account already holds a seat in a topic.
pub fn already_seated(name: &str) -> (message: String)
    ensures
        message@ == "Account \""@ + name@
            + "\" already holds a seat in this topic. One account holds one seat per topic: stop its running session here before starting it again."@,
{
    about(
        name,
        "\" already holds a seat in this topic. One account holds one seat per topic: stop its running session here before starting it again.",
    )
}

// ---------------------------------------------------------------------------
// The line that is spawned and the line that is shown
// ---------------------------------------------------------------------------

/// The arguments that a launch of some options is composed of. Options that the line
/// cannot carry are left off whole, and so is a character.
pub open spec fn composed(
    options: Seq<Seq<char>>,
    kind: AccountKind,
    account_id: Seq<char>,
    topic_id: Seq<char>,
    character: Option<Seq<char>>,
    others: Seq<Seq<char>>,
    port: Option<u16>,
    script: Option<Seq<char>>,
) -> Seq<Seq<char>> {
    launch_line(
        carried(options),
        cli_of_kind(kind),
        server_name(account_id, topic_id),
        carried_character(character),
        others,
        match port {
            Some(port) => Some(seat_address(port, LIMITED_HOOK_PATH@, topic_id, account_id)),
            None => None,
        },
        match port {
            Some(port) => seat_status(script, port, topic_id, account_id),
            None => None,
        },
    )
}

/// What such a launch declares in its settings.
pub open spec fn declared_settings(
    kind: AccountKind,
    account_id: Seq<char>,
    topic_id: Seq<char>,
    character: Option<Seq<char>>,
    others: Seq<Seq<char>>,
    port: Option<u16>,
    script: Option<Seq<char>>,
) -> Json {
    Json::Object(
        settings_entries(
            given(carried_character(character)),
            server_name(account_id, topic_id),
            others,
            reported(
                cli_of_kind(kind),
                match port {
                    Some(port) => Some(
                        seat_address(port, LIMITED_HOOK_PATH@, topic_id, account_id),
                    ),
                    None => None,
                },
            ),
            reported(
                cli_of_kind(kind),
                match port {
                    Some(port) => seat_status(script, port, topic_id, account_id),
                    None => None,
                },
            ),
        ),
    )
}

/// Whether the settings that such a launch declares are read again from the last of its
/// arguments, wherever it declares any.
pub open spec fn settings_read_back(
    options: Seq<Seq<char>>,
    kind: AccountKind,
    account_id: Seq<char>,
    topic_id: Seq<char>,
    character: Option<Seq<char>>,
    others: Seq<Seq<char>>,
    port: Option<u16>,
    script: Option<Seq<char>>,
) -> bool {
    !left_alone(
        joined_line(carried(options), cli_of_kind(kind), server_name(account_id, topic_id)),
        carried_character(character),
        others,
    ) ==> writes_out(
        composed(options, kind, account_id, topic_id, character, others, port, script).last(),
        declared_settings(kind, account_id, topic_id, character, others, port, script),
    )
}

fn compose(
    options: &[String],
    kind: AccountKind,
    account_id: &str,
    topic_id: &str,
    character: Option<&str>,
    others: &[String],
    port: Option<u16>,
    script: Option<&str>,
) -> (args: Vec<String>)
    ensures
        texts(args@) == composed(
            texts(options@),
            kind,
            account_id@,
            topic_id@,
            opt_str(character),
            texts(others@),
            port,
            opt_str(script),
        ),
        settings_read_back(
            texts(options@),
            kind,
            account_id@,
            topic_id@,
            opt_str(character),
            texts(others@),
            port,
            opt_str(script),
        ),
{
    let server = server_name_for(account_id, topic_id);
    let hook = match port {
        Some(port) => Some(limited_hook_url(port, topic_id, account_id)),
        None => None,
    };
    let status = status_command(script, port, topic_id, account_id);
    let args = launch_args(
        carried_launch_options(options),
        kind.cli(),
        server.as_str(),
        line_character(character),
        others,
        borrowed(&hook),
        borrowed(&status),
    );
    proof {
        let words = texts(args@);
        if words.len() > 0 {
            assert(words.last() == args@.last()@);
        }
    }
    args
}

/// The id that fills a line's placeholders: the one it hands over, or the one it goes
/// back into.
pub open spec fn id_of_line(line: LineModel) -> Option<Seq<char>> {
    match line.session_id {
        Some(id) => Some(id),
        None => line.resumed_from,
    }
}

/// The arguments that a launch spawns: the composed line, with its id filled in.
pub open spec fn spawned(
    line: LineModel,
    kind: AccountKind,
    account_id: Seq<char>,
    topic_id: Seq<char>,
    character: Option<Seq<char>>,
    others: Seq<Seq<char>>,
    port: u16,
    script: Option<Seq<char>>,
) -> Seq<Seq<char>> {
    let all = composed(
        line.args,
        kind,
        account_id,
        topic_id,
        character,
        others,
        Some(port),
        script,
    );
    match id_of_line(line) {
        Some(id) => filled(all, id),
        None => all,
    }
}

/// The arguments a launch spawns.
pub fn launch(
    account: &Account,
    line: &LaunchLine,
    topic_id: &str,
    others: &[String],
    port: u16,
    script: Option<&str>,
) -> (args: Vec<String>)
    ensures
        texts(args@) == spawned(
            line@,
            account.kind,
            account.id@,
            topic_id@,
            opt_text(account.character),
            texts(others@),
            port,
            opt_str(script),
        ),
        settings_read_back(
            line@.args,
            account.kind,
            account.id@,
            topic_id@,
            opt_text(account.character),
            texts(others@),
            Some(port),
            opt_str(script),
        ),
{
    let all = compose(
        line.args.as_slice(),
        account.kind,
        account.id.as_str(),
        topic_id,
        borrowed(&account.character),
        others,
        Some(port),
        script,
    );
    match borrowed(&line.session_id) {
        Some(id) => substitute_session_id(all.as_slice(), id),
        None => match borrowed(&line.resumed_from) {
            Some(id) => substitute_session_id(all.as_slice(), id),
            None => all,
        },
    }
}

/// The arguments a launch would use, for display: the line that runs, with the
/// placeholder where an id would go. The topic is the one named, or the one that is open.
pub fn preview_launch_args(
    args: &[String],
    account_id: &str,
    kind: AccountKind,
    topic_id: Option<&str>,
    current: &TopicRef,
    character: Option<&str>,
    others: &[String],
    port: Option<u16>,
    script: Option<&str>,
) -> (res: Vec<String>)
    ensures
        texts(res@) == composed(
            texts(args@),
            kind,
            trimmed(account_id@),
            match topic_id {
                Some(id) => id@,
                None => current.topic_id@,
            },
            opt_str(character),
            texts(others@),
            port,
            opt_str(script),
        ),
        settings_read_back(
            texts(args@),
            kind,
            trimmed(account_id@),
            match topic_id {
                Some(id) => id@,
                None => current.topic_id@,
            },
            opt_str(character),
            texts(others@),
            port,
            opt_str(script),
        ),
{
    let topic = match topic_id {
        Some(id) => id,
        None => current.topic_id.as_str(),
    };
    compose(args, kind, trim(account_id), topic, character, others, port, script)
}

/// What the caller gets back after a session joins.
#[derive(Debug)]
pub struct StartedSession {
    pub pty_id: String,
    /// Path of the `.mcp.json` this touched.
    pub mcp_config: String,
    /// When the session was spawned.
    pub started_at: String,
    /// The topic this launch went into.
    pub topic_id: String,
    /// The session id this went back into, or `None` when it started fresh.
    pub resumed_from: Option<String>,
    /// The session id this launch took off the topic before starting.
    pub dropped_resume: Option<String>,
}

/// What a launch answers, and what it leaves under its seat.
pub fn started(
    line: &LaunchLine,
    topic_id: &str,
    cwd: &str,
    pty_id: &str,
    mcp_config: &str,
    started_at: &str,
) -> (res: (StartedSession, RunningSession))
    ensures
        res.0.pty_id@ == pty_id@,
        res.0.mcp_config@ == mcp_config@,
        res.0.started_at@ == started_at@,
        res.0.topic_id@ == topic_id@,
        opt_text(res.0.resumed_from) == line@.resumed_from,
        opt_text(res.0.dropped_resume) == line@.dropped_resume,
        res.1.pty_id@ == pty_id@,
        res.1.started_at@ == started_at@,
        res.1.command@ == line@.command,
        res.1.cwd@ == cwd@,
        res.1.topic_id@ == topic_id@,
        opt_text(res.1.resumed_from) == line@.resumed_from,
{
    (
        StartedSession {
            pty_id: pty_id.to_owned(),
            mcp_config: mcp_config.to_owned(),
            started_at: started_at.to_owned(),
            topic_id: topic_id.to_owned(),
            resumed_from: line.resumed_from.clone(),
            dropped_resume: line.dropped_resume.clone(),
        },
        RunningSession {
            pty_id: pty_id.to_owned(),
            started_at: started_at.to_owned(),
            command: line.command.clone(),
            cwd: cwd.to_owned(),
            topic_id: topic_id.to_owned(),
            resumed_from: line.resumed_from.clone(),
        },
    )
}

/// How a command is spawned: through the console on Windows, which resolves scripts, and
/// as it is elsewhere.
pub fn spawn_command(windows: bool, command: &str, args: &[String]) -> (res: (String, Vec<String>))
    ensures
        windows ==> res.0@ == "cmd.exe"@ && texts(res.1@) == seq!["/C"@, command@] + texts(args@),
        !windows ==> res.0@ == command@ && texts(res.1@) == texts(args@),
{
    if windows {
        let mut all: Vec<String> = Vec::new();
        all.push("/C".to_owned());
        all.push(command.to_owned());
        let mut own = copy_texts(args);
        all.append(&mut own);
        proof {
            assert(texts(all@) =~= seq!["/C"@, command@] + texts(args@));
        }
        ("cmd.exe".to_owned(), all)
    } else {
        (command.to_owned(), copy_texts(args))
    }
}

// ---------------------------------------------------------------------------
// Laws
// ---------------------------------------------------------------------------

/// The line that is spawned is the line that is shown, with the id filled in: for a fresh
/// launch of an account whose id has no white space at its ends.
pub proof fn law_what_is_shown_is_what_runs(
    account: Account,
    fresh: Seq<char>,
    topic_id: Seq<char>,
    others: Seq<Seq<char>>,
    port: u16,
    script: Option<Seq<char>>,
)
    requires
        trimmed(account.id@) == account.id@,
    ensures
        ({
            let line = fresh_line(account, fresh, None);
            let shown = composed(
                texts(account.args@),
                account.kind,
                trimmed(account.id@),
                topic_id,
                opt_text(account.character),
                others,
                Some(port),
                script,
            );
            let run = spawned(
                line,
                account.kind,
                account.id@,
                topic_id,
                opt_text(account.character),
                others,
                port,
                script,
            );
            &&& line.session_id is Some ==> run == filled(shown, fresh)
            &&& line.session_id is None ==> run == shown
        }),
{
}

/// A launch goes back into a session only where one is recorded, its line is known and its
/// conversation was found; it hands over an id of its own only where it does not; and it
/// drops a record only when it starts fresh.
pub proof fn law_a_launch_resumes_or_starts_fresh(
    account: Account,
    program: Seq<char>,
    recorded: Option<Seq<char>>,
    found: bool,
    dropped: bool,
    fresh: Seq<char>,
)
    requires
        resolved(account, program, recorded, found, dropped, fresh) is Some,
    ensures
        ({
            let line = resolved(account, program, recorded, found, dropped, fresh)->0;
            &&& line.resumed_from is Some <==> recorded is Some && resume_line_of(account, program) is Some
                && found
            &&& line.resumed_from is Some ==> line.resumed_from == recorded && line.session_id is None
                && line.dropped_resume is None
            &&& line.dropped_resume is Some ==> dropped && line.dropped_resume == recorded
        }),
{
}

/// A launch with an id, minted or gone back into, ships no placeholder to the CLI, whoever
/// put one on the line.
pub proof fn law_a_launch_ships_no_placeholder(
    line: LineModel,
    kind: AccountKind,
    account_id: Seq<char>,
    topic_id: Seq<char>,
    character: Option<Seq<char>>,
    others: Seq<Seq<char>>,
    port: u16,
    script: Option<Seq<char>>,
)
    requires
        id_of_line(line) is Some,
        fills_cleanly(id_of_line(line)->0),
    ensures
        !has_placeholder(
            spawned(line, kind, account_id, topic_id, character, others, port, script),
        ),
{
    crate::cli::law_a_filled_line_holds_no_placeholder(
        composed(
            line.args,
            kind,
            account_id,
            topic_id,
            character,
            others,
            Some(port),
            script,
        ),
        id_of_line(line)->0,
    );
}

/// What a launch declares in its settings holds a character that the console cuts a line at
/// only where another server's name does: the account's character, the server, the hook and
/// the status line of a seat never do, whatever the account and the ids hold.
pub proof fn law_a_launch_declares_nothing_the_console_acts_on(
    account_id: Seq<char>,
    topic_id: Seq<char>,
    character: Option<Seq<char>>,
    others: Seq<Seq<char>>,
    port: u16,
    script: Option<Seq<char>>,
    c: char,
)
    requires
        console_cuts_at(c),
        forall|i: int| 0 <= i < others.len() ==> !(#[trigger] others[i]).contains(c),
    ensures
        free_of(
            Json::Object(
                settings_entries(
                    given(carried_character(character)),
                    server_name(account_id, topic_id),
                    others,
                    Some(seat_address(port, LIMITED_HOOK_PATH@, topic_id, account_id)),
                    seat_status(script, port, topic_id, account_id),
                ),
            ),
            c,
        ),
{
    let name = server_name(account_id, topic_id);
    crate::server_name::law_a_server_name_is_plain(account_id, topic_id);
    assert(!name.contains(c)) by {
        if name.contains(c) {
            assert(crate::server_name::is_name_char(name[name.index_of(c)]));
        }
    }
    let hook = seat_address(port, LIMITED_HOOK_PATH@, topic_id, account_id);
    crate::hooks::law_an_address_holds_nothing_a_shell_acts_on(port, topic_id, account_id);
    assert(!hook.contains(c)) by {
        if hook.contains(c) {
            assert(crate::hooks::is_address_char(hook[hook.index_of(c)]));
        }
    }
    let status = seat_status(script, port, topic_id, account_id);
    if status is Some {
        let path = crate::line::folded(script->0);
        let url = seat_address(port, STATUS_HOOK_PATH@, topic_id, account_id);
        let text = status->0;
        reveal_strlit("node");
        reveal_strlit(" ");
        assert(text == "node"@ + " "@ + path + " "@ + url);
        assert forall|i: int| 0 <= i < text.len() implies text[i] != c by {
            if i < 4 {
                assert(text[i] == "node"@[i]);
            } else if i == 4 {
                assert(text[i] == ' ');
            } else if i < 5 + path.len() {
                assert(text[i] == path[i - 5]);
                assert(crate::line::is_line_safe(path[i - 5]));
            } else if i == 5 + path.len() {
                assert(text[i] == ' ');
            } else {
                assert(text[i] == url[i - 6 - path.len()]);
                assert(crate::line::is_line_safe(url[i - 6 - path.len()]));
            }
        }
    }
    if let Some(field) = character {
        crate::text::lemma_trimmed_twice(field);
    }
    let own = given(carried_character(character));
    assert(opt_free(own, c)) by {
        if own is Some && own->0.contains(c) {
            assert(!console_acts_on(own->0[own->0.index_of(c)]));
        }
    }
    crate::settings::law_settings_add_nothing_the_console_acts_on(
        own,
        name,
        others,
        Some(hook),
        status,
        c,
    );
}

/// Whether a text is one word of a line as it stands: not empty, and without white space
/// or double quotes.
pub open spec fn is_one_word(text: Seq<char>) -> bool {
    text.len() > 0 && forall|i: int|
        0 <= i < text.len() ==> !crate::text::is_space(#[trigger] text[i]) && text[i] != '"'
}

proof fn lemma_plain_word_end(word: Seq<char>, rest: Seq<char>)
    requires
        forall|i: int|
            0 <= i < word.len() ==> !crate::text::is_space(#[trigger] word[i]) && word[i] != '"',
        rest.len() > 0 ==> crate::text::is_space(rest[0]),
    ensures
        crate::line::word_end(word + rest, false) == word.len(),
    decreases word.len(),
{
    let text = word + rest;
    if word.len() == 0 {
        assert(text =~= rest);
    } else {
        let shorter = word.skip(1);
        assert(text[0] == word[0]);
        assert forall|i: int| 0 <= i < shorter.len() implies !crate::text::is_space(
            #[trigger] shorter[i],
        ) && shorter[i] != '"' by {
            assert(shorter[i] == word[i + 1]);
        }
        assert(text.skip(1) =~= shorter + rest);
        lemma_plain_word_end(shorter, rest);
    }
}

/// A recorded session of a kind that names a CLI is resumed by the program itself, on a
/// line with a place for the id, where the program's name is one word.
pub proof fn law_the_way_back_of_a_kind_has_a_command(
    account: Account,
    program: Seq<char>,
    session_id: Seq<char>,
    dropped: bool,
    fresh: Seq<char>,
)
    requires
        account.kind == AccountKind::ClaudeCode,
        is_one_word(program),
    ensures
        ({
            let line = resolved(account, program, Some(session_id), true, dropped, fresh);
            &&& line is Some
            &&& line->0.command == program
            &&& line->0.resumed_from == Some(session_id)
            &&& has_placeholder(line->0.args)
        }),
{
    let rest = " --resume {session_id}"@;
    let text = program + rest;
    reveal_strlit(" --resume {session_id}");
    reveal_strlit("--resume");
    reveal_strlit("{session_id}");
    let flag = "--resume"@;
    let p = "{session_id}"@;
    let tail = rest.skip(1);
    let last = tail.skip(8);
    let id = last.skip(1);
    lemma_plain_word_end(program, rest);
    assert(text[0] == program[0]);
    assert(text.take(program.len() as int) =~= program);
    assert(text.skip(program.len() as int) =~= rest);
    lemma_no_quotes(program);
    lemma_plain_word_end(flag, last);
    assert(tail =~= flag + last);
    lemma_plain_word_end(p, Seq::empty());
    assert(id =~= p + Seq::<char>::empty());
    assert(id.take(12) =~= p);
    lemma_no_quotes(p);
    assert(id.skip(12) =~= Seq::<char>::empty());
    assert(words(id.skip(12)) =~= Seq::<Seq<char>>::empty());
    assert(words(id) =~= seq![p]);
    assert(words(last) == words(id));
    assert(words(tail) == seq![crate::line::unquoted(tail.take(8))] + words(last));
    assert(words(rest) == words(tail));
    let all = words(text);
    assert(all == seq![program] + words(rest));
    assert(all[0] == program);
    assert(all.skip(1)[1] == p);
    assert(p.skip(0) =~= p);
    assert(p.take(12) =~= p);
    assert(crate::text::starts(p.skip(0), p));
    assert(crate::cli::holds(all.skip(1)[1], p));
}

proof fn lemma_no_quotes(text: Seq<char>)
    requires
        forall|i: int| 0 <= i < text.len() ==> text[i] != '"',
    ensures
        crate::line::unquoted(text) == text,
    decreases text.len(),
{
    if text.len() > 0 {
        lemma_no_quotes(text.drop_last());
        assert(text.drop_last().push(text.last()) =~= text);
    } else {
        assert(text =~= Seq::<char>::empty());
    }
}

/// Whether settings stop every one of some servers, in their order, and no other.
pub open spec fn stops_exactly(settings: Json, others: &[String]) -> bool {
    let stopped = at(settings, "disabledMcpjsonServers"@);
    if others@.len() == 0 {
        stopped is None
    } else {
        &&& stopped is Some
        &&& stopped->0 is List
        &&& stopped->0->List_0.len() == others@.len()
        &&& forall|i: int|
            0 <= i < others@.len() ==> stopped->0->List_0[i] == Json::Text(
                (#[trigger] others@[i])@,
            )
    }
}

/// Whether settings are those of a seat: they approve its own server, stop the others, select
/// the character that the line can carry, and report to the seat's own addresses, where its
/// kind is one that reports.
pub open spec fn are_of_seat(
    settings: Json,
    kind: AccountKind,
    account_id: Seq<char>,
    topic_id: Seq<char>,
    character: Option<Seq<char>>,
    others: &[String],
    port: Option<u16>,
    script: Option<Seq<char>>,
) -> bool {
    let name = given(character);
    let reports = kind == AccountKind::ClaudeCode && port is Some;
    let seat = encoded(topic_id) + "/"@ + encoded(account_id);
    let address = "http://127.0.0.1:"@ + decimal(port->0 as nat);
    let status = status_line(script->0, address + "/hooks/status/"@ + seat);
    &&& at(settings, "enabledMcpjsonServers"@) == Some(
        Json::List(seq![Json::Text(server_name(account_id, topic_id))]),
    )
    &&& stops_exactly(settings, others)
    &&& at(settings, "outputStyle"@) == if name is Some && is_console_safe(name->0) {
        Some(Json::Text(name->0))
    } else {
        None
    }
    &&& at(settings, "hooks"@) == if reports {
        Some(limit_hooks(address + "/hooks/limited/"@ + seat))
    } else {
        None
    }
    &&& at(settings, "statusLine"@) == if reports && script is Some && status is Some {
        Some(status_line_json(status->0))
    } else {
        None
    }
}

proof fn lemma_settings_of_seat(
    options: Seq<Seq<char>>,
    kind: AccountKind,
    account_id: Seq<char>,
    topic_id: Seq<char>,
    character: Option<Seq<char>>,
    others: &[String],
    port: Option<u16>,
    script: Option<Seq<char>>,
)
    requires
        settings_read_back(
            options,
            kind,
            account_id,
            topic_id,
            character,
            texts(others@),
            port,
            script,
        ),
        others@.len() > 0 || carried_character(character) is Some || !names_flag(
            options,
            "--settings"@,
        ),
    ensures
        ({
            let line = composed(
                options,
                kind,
                account_id,
                topic_id,
                character,
                texts(others@),
                port,
                script,
            );
            &&& line.len() >= 2
            &&& line[line.len() - 2] == "--settings"@
            &&& parsed(line.last()) is Says
            &&& are_of_seat(
                parsed(line.last())->Says_0,
                kind,
                account_id,
                topic_id,
                character,
                others,
                port,
                script,
            )
        }),
{
    let name = server_name(account_id, topic_id);
    let cli = cli_of_kind(kind);
    let list = texts(others@);
    assert(list.len() == others@.len());
    if let Some(field) = character {
        crate::text::lemma_trimmed_twice(field);
    }
    let own = carried_character(character);
    assert(given(own) == own);
    if !names_flag(options, SETTINGS_FLAG@) {
        assert(!names_flag(carried(options), SETTINGS_FLAG@));
        lemma_joined_brings_no_settings(carried(options), cli, name);
    }
    assert(!left_alone(joined_line(carried(options), cli, name), own, list));
    let settings = declared_settings(kind, account_id, topic_id, character, list, port, script);
    let hook = match port {
        Some(port) => Some(seat_address(port, LIMITED_HOOK_PATH@, topic_id, account_id)),
        None => None,
    };
    let status = match port {
        Some(port) => seat_status(script, port, topic_id, account_id),
        None => None,
    };
    law_settings_declare_what_there_is(
        given(own),
        name,
        list,
        reported(cli, hook),
        reported(cli, status),
    );
    if others@.len() > 0 {
        let stopped = at(settings, "disabledMcpjsonServers"@);
        assert forall|i: int| 0 <= i < others@.len() implies stopped->0->List_0[i] == Json::Text(
            (#[trigger] others@[i])@,
        ) by {
            assert(list[i] == others@[i]@);
        }
    }
    reveal_strlit("/");
    reveal_strlit("/hooks/status");
    reveal_strlit("/hooks/status/");
    reveal_strlit("/hooks/limited");
    reveal_strlit("/hooks/limited/");
    if port is Some {
        let address = "http://127.0.0.1:"@ + decimal(port->0 as nat);
        let seat = encoded(topic_id) + "/"@ + encoded(account_id);
        assert(seat_address(port->0, LIMITED_HOOK_PATH@, topic_id, account_id) =~= address
            + "/hooks/limited/"@ + seat);
        assert(seat_address(port->0, STATUS_HOOK_PATH@, topic_id, account_id) =~= address
            + "/hooks/status/"@ + seat);
    }
}

/// The line that is shown carries the settings of its seat behind their flag, and they are
/// read again from it: the other accounts' servers are stopped, every one, and the launch's
/// own is approved. A line that brings settings of its own, with nothing to select and
/// nothing to stop, is left with those.
pub proof fn law_the_shown_line_carries_the_settings_of_its_seat(
    args: &[String],
    account_id: &str,
    kind: AccountKind,
    topic_id: Option<&str>,
    current: TopicRef,
    character: Option<&str>,
    others: &[String],
    port: Option<u16>,
    script: Option<&str>,
    res: Vec<String>,
)
    requires
        preview_launch_args.ensures(
            (args, account_id, kind, topic_id, &current, character, others, port, script),
            res,
        ),
        others@.len() > 0 || carried_character(opt_str(character)) is Some || !names_flag(
            texts(args@),
            "--settings"@,
        ),
    ensures
        res@.len() >= 2,
        res@[res@.len() - 2]@ == "--settings"@,
        parsed(res@.last()@) is Says,
        are_of_seat(
            parsed(res@.last()@)->Says_0,
            kind,
            trimmed(account_id@),
            if topic_id is Some {
                topic_id->0@
            } else {
                current.topic_id@
            },
            opt_str(character),
            others,
            port,
            opt_str(script),
        ),
{
    let topic = match topic_id {
        Some(id) => id@,
        None => current.topic_id@,
    };
    lemma_settings_of_seat(
        texts(args@),
        kind,
        trimmed(account_id@),
        topic,
        opt_str(character),
        others,
        port,
        opt_str(script),
    );
    let words = texts(res@);
    assert(words.len() == res@.len());
    assert(words[words.len() - 2] == res@[res@.len() - 2]@);
    assert(words[words.len() - 1] == res@[res@.len() - 1]@);
}

/// The line that is spawned carries the settings of its seat behind their flag. They are read
/// again, with the other accounts' servers stopped, every one, and the launch's own approved,
/// from the text that stands there; where that text has a place for the session id, the id
/// is filled in there as everywhere.
pub proof fn law_a_launch_carries_the_settings_of_its_seat(
    account: Account,
    line: LaunchLine,
    topic_id: &str,
    others: &[String],
    port: u16,
    script: Option<&str>,
    args: Vec<String>,
)
    requires
        launch.ensures((&account, &line, topic_id, others, port, script), args),
        others@.len() > 0 || carried_character(opt_text(account.character)) is Some || !names_flag(
            texts(line.args@),
            "--settings"@,
        ),
    ensures
        args@.len() >= 2,
        args@[args@.len() - 2]@ == "--settings"@,
        exists|text: Seq<char>|
            {
                &&& (#[trigger] parsed(text)) is Says
                &&& are_of_seat(
                    parsed(text)->Says_0,
                    account.kind,
                    account.id@,
                    topic_id@,
                    opt_text(account.character),
                    others,
                    Some(port),
                    opt_str(script),
                )
                &&& line.session_id is None && line.resumed_from is None ==> args@.last()@ == text
                &&& !holds(text, "{session_id}"@) ==> args@.last()@ == text
                &&& line.session_id is Some ==> args@.last()@ == replaced(
                    text,
                    "{session_id}"@,
                    line.session_id->0@,
                )
                &&& line.session_id is None && line.resumed_from is Some ==> args@.last()@
                    == replaced(text, "{session_id}"@, line.resumed_from->0@)
            },
{
    lemma_settings_of_seat(
        texts(line.args@),
        account.kind,
        account.id@,
        topic_id@,
        opt_text(account.character),
        others,
        Some(port),
        opt_str(script),
    );
    let all = composed(
        texts(line.args@),
        account.kind,
        account.id@,
        topic_id@,
        opt_text(account.character),
        texts(others@),
        Some(port),
        opt_str(script),
    );
    let words = texts(args@);
    let n = all.len() - 1;
    let text = all.last();
    assert(words.len() == args@.len());
    assert(words.len() == all.len());
    assert(words[n - 1] == args@[n - 1]@);
    assert(words[n] == args@[n]@);
    let id = id_of_line(line@);
    if id is Some {
        lemma_no_placeholder_in_flag();
        lemma_nothing_to_replace("--settings"@, "{session_id}"@, id->0);
        if !holds(text, "{session_id}"@) {
            lemma_nothing_to_replace(text, "{session_id}"@, id->0);
        }
        assert(words[n - 1] == replaced(all[n - 1], "{session_id}"@, id->0));
        assert(words[n] == replaced(all[n], "{session_id}"@, id->0));
    }
    assert(parsed(text) is Says);
}

proof fn lemma_no_placeholder_in_flag()
    ensures
        !holds("--settings"@, "{session_id}"@),
{
    reveal_strlit("--settings");
    reveal_strlit("{session_id}");
    assert forall|i: int| 0 <= i <= 10 implies !crate::text::starts(
        #[trigger] "--settings"@.skip(i),
        "{session_id}"@,
    ) by {
        assert("--settings"@.skip(i).len() < 12);
    }
}

/// An account can be launched into a topic exactly where it has a name, is no person, the
/// topic is held, and it has a working directory; it then speaks under its name and runs in
/// its directory, both without the white space around them.
pub proof fn law_who_can_be_launched(
    account: Account,
    topic_id: &str,
    topic: Option<TopicRef>,
    res: Result<LaunchPlace, String>,
)
    requires
        launch_place.ensures((&account, topic_id, topic), res),
    ensures
        res is Ok <==> trimmed(account.name@).len() > 0 && account.kind != AccountKind::User
            && topic is Some && account.cwd is Some && trimmed(account.cwd->0@).len() > 0,
        res is Ok ==> {
            &&& res->Ok_0.name@ == trimmed(account.name@)
            &&& res->Ok_0.topic == topic->0
            &&& res->Ok_0.cwd@ == trimmed(account.cwd->0@)
        },
{
}

/// A line runs exactly where its command can be written onto it, and so can the arguments of
/// one that goes back into a session, no argument names a flag that keeps the room from being
/// heard, and the room listens.
pub proof fn law_which_line_may_run(
    name: &str,
    line: LaunchLine,
    port: Option<u16>,
    res: Result<u16, String>,
)
    requires
        check_line.ensures((name, &line, port), res),
    ensures
        res is Ok <==> {
            &&& is_console_safe(line.command@)
            &&& line.resumed_from is Some ==> forall|i: int|
                0 <= i < line.args@.len() ==> is_console_safe((#[trigger] line.args@[i])@)
            &&& forall|i: int|
                0 <= i < line.args@.len() ==> {
                    let named = head((#[trigger] line.args@[i])@);
                    named != "--channels"@ && named != "--print"@ && named != "--input-format"@
                        && named != "--output-format"@
                }
            &&& port is Some
        },
        res is Ok ==> port == Some(res->Ok_0),
{
    let args = texts(line.args@);
    assert(args.len() == line.args@.len());
    assert(forall|i: int| 0 <= i < args.len() ==> args[i] == (#[trigger] line.args@[i])@);
    lemma_incompatible_words();
    lemma_first_incompatible_is(args);
    if all_console_safe(args) {
        assert forall|i: int| 0 <= i < line.args@.len() implies is_console_safe(
            (#[trigger] line.args@[i])@,
        ) by {
            assert(is_console_safe(args[i]));
        }
    }
    if first_incompatible(args) is None {
        assert forall|i: int| 0 <= i < line.args@.len() implies {
            let named = head((#[trigger] line.args@[i])@);
            named != "--channels"@ && named != "--print"@ && named != "--input-format"@ && named
                != "--output-format"@
        } by {
            assert(!is_incompatible(head(args[i])));
        }
    } else {
        let i = choose|i: int| 0 <= i < args.len() && is_incompatible(head(#[trigger] args[i]));
        let named = head(line.args@[i]@);
        assert(!(named != "--channels"@ && named != "--print"@ && named != "--input-format"@
            && named != "--output-format"@));
    }
}

proof fn lemma_incompatible_words()
    ensures
        forall|flag: Seq<char>| #[trigger]
            is_incompatible(flag) <==> flag == "--channels"@ || flag == "--print"@ || flag
                == "--input-format"@ || flag == "--output-format"@,
{
    crate::flags::law_which_flags_are_incompatible();
}

proof fn lemma_first_incompatible_is(args: Seq<Seq<char>>)
    ensures
        first_incompatible(args) is None <==> forall|i: int|
            0 <= i < args.len() ==> !is_incompatible(head(#[trigger] args[i])),
    decreases args.len(),
{
    if args.len() > 0 {
        let shorter = args.drop_last();
        lemma_first_incompatible_is(shorter);
        if first_incompatible(args) is None {
            assert forall|i: int| 0 <= i < args.len() implies !is_incompatible(
                head(#[trigger] args[i]),
            ) by {
                if i < shorter.len() {
                    assert(shorter[i] == args[i]);
                }
            }
        } else if first_incompatible(shorter) is Some {
            let i = choose|i: int|
                0 <= i < shorter.len() && is_incompatible(head(#[trigger] shorter[i]));
            assert(is_incompatible(head(args[i])));
        } else {
            assert(is_incompatible(head(args[args.len() - 1])));
        }
    }
}

/// A launch is refused for its settings exactly where it passes settings of its own beside a
/// character that the line would select or a server that it would stop.
pub proof fn law_when_settings_are_refused(
    name: &str,
    character: Option<&str>,
    others: &[String],
    args: &[String],
    res: Result<(), String>,
)
    requires
        check_settings.ensures((name, character, others, args), res),
    ensures
        res is Err <==> {
            &&& exists|i: int| 0 <= i < args@.len() && head((#[trigger] args@[i])@) == "--settings"@
            &&& others@.len() > 0 || (character is Some && trimmed(character->0@).len() > 0
                && is_console_safe(trimmed(character->0@)))
        },
{
    let words = texts(args@);
    assert(words.len() == args@.len());
    assert(texts(others@).len() == others@.len());
    assert(forall|i: int| 0 <= i < words.len() ==> words[i] == (#[trigger] args@[i])@);
    if names_flag(words, SETTINGS_FLAG@) {
        let i = choose|i: int| 0 <= i < words.len() && head(#[trigger] words[i]) == SETTINGS_FLAG@;
        assert(head(args@[i]@) == "--settings"@);
    }
    if exists|i: int| 0 <= i < args@.len() && head((#[trigger] args@[i])@) == "--settings"@ {
        let i = choose|i: int| 0 <= i < args@.len() && head((#[trigger] args@[i])@) == "--settings"@;
        assert(head(words[i]) == SETTINGS_FLAG@);
    }
}

/// The form says of each field whether a line can carry what it holds: a blank character and
/// an absent resume line stand in nobody's way, and options are carried whole or not at all.
pub proof fn law_a_form_tells_what_a_line_can_carry(
    character: Option<String>,
    options: String,
    command: String,
    resume: Option<String>,
    report: LaunchFieldReport,
)
    requires
        launch_field_report.ensures((character, options, command, resume), report),
    ensures
        report.character <==> character is None || trimmed(character->0@).len() == 0
            || is_console_safe(trimmed(character->0@)),
        report.options <==> forall|i: int|
            0 <= i < words(options@).len() ==> is_console_safe(#[trigger] words(options@)[i]),
        report.command <==> is_console_safe(command@),
        report.resume <==> resume is None || forall|i: int|
            0 <= i < words(resume->0@).len() ==> is_console_safe(#[trigger] words(resume->0@)[i]),
{
}

/// The sidecar is where both overrides say, where both are set. Otherwise it is in the first
/// of the four nearest directories that holds it with its runner, and what an override says
/// stands for its own half.
pub proof fn law_where_the_sidecar_is(
    entry_override: Option<String>,
    runner_override: Option<String>,
    places: &[SidecarPlace],
    res: Result<(String, String), String>,
    i: int,
)
    requires
        resolve_sidecar_paths.ensures((entry_override, runner_override, places), res),
        0 <= i < 4,
    ensures
        entry_override is Some && runner_override is Some ==> res is Ok && res->Ok_0.0@
            == entry_override->0@ && res->Ok_0.1@ == runner_override->0@,
        (entry_override is None || runner_override is None) && i < places@.len()
            && places@[i].present && (forall|j: int| 0 <= j < i ==> !(#[trigger] places@[j]).present)
            ==> {
            &&& res is Ok
            &&& res->Ok_0.0@ == if entry_override is Some {
                entry_override->0@
            } else {
                places@[i].entry@
            }
            &&& res->Ok_0.1@ == if runner_override is Some {
                runner_override->0@
            } else {
                places@[i].runner@
            }
        },
        (entry_override is None || runner_override is None) && (forall|j: int|
            0 <= j < places@.len() && j < 4 ==> !(#[trigger] places@[j]).present) ==> res is Err,
{
    let looked = looked_in(places@);
    if i < places@.len() && places@[i].present && (forall|j: int|
        0 <= j < i ==> !(#[trigger] places@[j]).present) {
        assert forall|j: int| 0 <= j < i implies !(#[trigger] looked[j]).present by {
            assert(looked[j] == places@[j]);
        }
        assert(looked[i] == places@[i]);
        lemma_first_present(looked, i);
    }
    if forall|j: int| 0 <= j < places@.len() && j < 4 ==> !(#[trigger] places@[j]).present {
        assert forall|j: int| 0 <= j < looked.len() implies !(#[trigger] looked[j]).present by {
            assert(looked[j] == places@[j]);
        }
        lemma_first_present(looked, looked.len() as int);
    }
}

/// An account of a kind that names a CLI goes back by the program's own line, whatever its
/// own says; another one by its own, where that is not blank. A recorded session is looked
/// for only where there is such a line.
pub proof fn law_by_which_line_an_account_goes_back(
    account: Account,
    program: &str,
    back: Option<String>,
    recorded: Option<&str>,
    sought: Option<&str>,
)
    requires
        resume_line.ensures((&account, program), back),
        resume_candidate.ensures((&account, program, recorded), sought),
    ensures
        account.kind == AccountKind::ClaudeCode ==> back is Some && back->0@ == program@
            + " --resume {session_id}"@,
        account.kind != AccountKind::ClaudeCode ==> (back is Some <==> account.resume_command is Some
            && trimmed(account.resume_command->0@).len() > 0),
        account.kind != AccountKind::ClaudeCode && back is Some ==> back->0@ == trimmed(
            account.resume_command->0@,
        ),
        back is Some ==> opt_str(sought) == opt_str(recorded),
        back is None ==> sought is None,
{
}

/// A launch whose recorded conversation was found runs the words of the line that goes back,
/// the command first, and hands over no id. Any other runs the account's own command and
/// options; it hands over the fresh id exactly where the options it carries have a place for
/// one, or its kind names a CLI and they do not name the flag themselves; and the record of a
/// conversation that is gone is the one it dropped.
pub proof fn law_which_line_a_launch_runs(
    account: Account,
    program: &str,
    recorded: Option<&str>,
    found: bool,
    dropped: bool,
    fresh: String,
    res: Result<LaunchLine, String>,
)
    requires
        resolve_with.ensures((&account, program, recorded, found, dropped, fresh), res),
    ensures
        ({
            let back = resume_line_of(account, program@);
            let resumes = recorded is Some && back is Some && found;
            let options = carried(texts(account.args@));
            &&& resumes ==> {
                let parts = words(back->0);
                &&& res is Ok <==> parts.len() > 0 && parts[0].len() > 0
                &&& res is Ok ==> {
                    let line = res->Ok_0;
                    &&& line.command@ == parts[0]
                    &&& line.args@.len() == parts.len() - 1
                    &&& forall|i: int|
                        0 <= i < line.args@.len() ==> (#[trigger] line.args@[i])@ == parts[i + 1]
                    &&& line.session_id is None
                    &&& line.resumed_from is Some && line.resumed_from->0@ == recorded->0@
                    &&& line.dropped_resume is None
                }
            }
            &&& !resumes ==> {
                let line = res->Ok_0;
                &&& res is Ok
                &&& line.command@ == account.command@
                &&& line.args@.len() == account.args@.len()
                &&& forall|i: int|
                    0 <= i < line.args@.len() ==> (#[trigger] line.args@[i])@ == account.args@[i]@
                &&& line.resumed_from is None
                &&& line.session_id is Some <==> has_placeholder(options) || (account.kind
                    == AccountKind::ClaudeCode && !names_flag(options, "--session-id"@))
                &&& line.session_id is Some ==> line.session_id->0@ == fresh@
                &&& line.dropped_resume is Some <==> recorded is Some && back is Some && dropped
                &&& line.dropped_resume is Some ==> line.dropped_resume->0@ == recorded->0@
            }
        }),
{
    let back = resume_line_of(account, program@);
    let options = carried(texts(account.args@));
    if res is Ok {
        let line = res->Ok_0;
        let own = texts(line.args@);
        assert(own.len() == line.args@.len());
        assert(forall|i: int| 0 <= i < own.len() ==> own[i] == (#[trigger] line.args@[i])@);
        assert(texts(account.args@).len() == account.args@.len());
        if recorded is Some && back is Some && found {
            let parts = words(back->0);
            assert forall|i: int| 0 <= i < line.args@.len() implies (#[trigger] line.args@[i])@
                == parts[i + 1] by {
                assert(own[i] == parts.skip(1)[i]);
            }
        } else {
            assert forall|i: int| 0 <= i < line.args@.len() implies (#[trigger] line.args@[i])@
                == account.args@[i]@ by {
                assert(own[i] == texts(account.args@)[i]);
            }
        }
    }
    if account.kind == AccountKind::ClaudeCode {
        crate::cli::law_a_session_id_is_handed_over_once(
            options,
            crate::cli::Cli::ClaudeCode,
            Seq::empty(),
        );
    }
}

/// A conversation counts as gone only where its file can be named, the home directory is
/// known, and the file is not there. A seat is in front of posts that it does not have where
/// something was said in its topic and it does not go back into a session.
pub proof fn law_what_a_launch_is_told_of_its_past(
    steps: Option<&Vec<String>>,
    home_known: bool,
    is_file: bool,
    found: bool,
    line: LaunchLine,
    topic_has_posts: bool,
    unseen: bool,
)
    requires
        conversation_found.ensures((steps, home_known, is_file), found),
        unseen_history.ensures((&line, topic_has_posts), unseen),
    ensures
        !found <==> steps is Some && home_known && !is_file,
        unseen <==> topic_has_posts && line.resumed_from is None,
{
}

/// What a launch answers tells of the session that runs: where it is, since when, in which
/// topic, and which session it went back into or dropped. The same stands under its seat,
/// with the command that runs and its directory.
pub proof fn law_a_launch_answers_for_its_session(
    line: LaunchLine,
    topic_id: &str,
    cwd: &str,
    pty_id: &str,
    mcp_config: &str,
    started_at: &str,
    res: (StartedSession, RunningSession),
)
    requires
        started.ensures((&line, topic_id, cwd, pty_id, mcp_config, started_at), res),
    ensures
        res.0.pty_id@ == pty_id@ && res.1.pty_id@ == pty_id@,
        res.0.started_at@ == started_at@ && res.1.started_at@ == started_at@,
        res.0.topic_id@ == topic_id@ && res.1.topic_id@ == topic_id@,
        res.0.mcp_config@ == mcp_config@,
        res.1.cwd@ == cwd@,
        res.1.command@ == line.command@,
        opt_text(res.0.resumed_from) == opt_text(line.resumed_from),
        opt_text(res.1.resumed_from) == opt_text(line.resumed_from),
        opt_text(res.0.dropped_resume) == opt_text(line.dropped_resume),
{
}

/// A command and its arguments are handed to the system as they are, and on Windows to the
/// console, behind the switch that has it run them.
pub proof fn law_a_command_is_spawned_with_its_arguments(
    windows: bool,
    command: &str,
    args: &[String],
    res: (String, Vec<String>),
    i: int,
)
    requires
        spawn_command.ensures((windows, command, args), res),
        0 <= i < args@.len(),
    ensures
        windows ==> res.0@ == "cmd.exe"@ && res.1@.len() == args@.len() + 2 && res.1@[0]@ == "/C"@
            && res.1@[1]@ == command@ && res.1@[i + 2]@ == args@[i]@,
        !windows ==> res.0@ == command@ && res.1@.len() == args@.len() && res.1@[i]@ == args@[i]@,
{
    let all = texts(res.1@);
    let own = texts(args@);
    assert(all.len() == res.1@.len());
    assert(own.len() == args@.len());
    assert(own[i] == args@[i]@);
    if windows {
        assert(all[0] == res.1@[0]@);
        assert(all[1] == res.1@[1]@);
        assert(all[i + 2] == res.1@[i + 2]@);
    } else {
        assert(all[i] == res.1@[i]@);
    }
}

/// The room listens on this machine alone, and an override that points nowhere is an error,
/// not an absent one.
pub proof fn law_where_the_room_and_the_overrides_point(
    port: u16,
    url: String,
    key: &str,
    value: Option<&str>,
    is_file: bool,
    res: Result<Option<String>, String>,
)
    requires
        room_url.ensures((port,), url),
        sidecar_override.ensures((key, value, is_file), res),
    ensures
        url@ == "ws://127.0.0.1:"@ + decimal(port as nat),
        res is Err <==> value is Some && !is_file,
        res is Err ==> res->Err_0@ == key@ + " points at a missing file: "@ + value->0@,
        res is Ok ==> opt_text(res->Ok_0) == opt_str(value),
{
}

/// A seat's status line runs the script beside its sidecar, where the file is there, and
/// reports to the seat's own address, where the room has a port.
pub proof fn law_a_status_line_reports_to_its_seat(
    file: Option<&str>,
    is_file: bool,
    script: Option<&str>,
    port: Option<u16>,
    topic_id: &str,
    account_id: &str,
    res: Option<String>,
)
    requires
        status_script.ensures((file, is_file), script),
        status_command.ensures((script, port, topic_id, account_id), res),
    ensures
        !is_file || file is None || port is None ==> res is None,
        is_file && file is Some && port is Some ==> opt_text(res) == status_line(
            file->0@,
            "http://127.0.0.1:"@ + decimal(port->0 as nat) + "/hooks/status/"@ + encoded(topic_id@)
                + "/"@ + encoded(account_id@),
        ),
{
    reveal_strlit("/");
    reveal_strlit("/hooks/status");
    reveal_strlit("/hooks/status/");
    if port is Some {
        assert(seat_address(port->0, STATUS_HOOK_PATH@, topic_id@, account_id@)
            =~= "http://127.0.0.1:"@ + decimal(port->0 as nat) + "/hooks/status/"@ + encoded(
            topic_id@,
        ) + "/"@ + encoded(account_id@));
    }
}

/// Why an account goes nowhere: it has no name; or, with its name in the message, it is a
/// person, or has no working directory; or the topic, named in the message, is not held. The
/// first of these that holds is the one that is told.
pub proof fn law_why_an_account_cannot_be_launched(
    account: Account,
    topic_id: &str,
    topic: Option<TopicRef>,
    res: Result<LaunchPlace, String>,
)
    requires
        launch_place.ensures((&account, topic_id, topic), res),
        res is Err,
    ensures
        ({
            let name = trimmed(account.name@);
            let told = res->Err_0@;
            &&& name.len() == 0 ==> told
                == "This account has no name. Give it one before starting: it is what the room lists it under and what a post is addressed to."@
            &&& name.len() > 0 && account.kind == AccountKind::User ==> told == "Account \""@ + name
                + "\" is a person, not a session. There is nothing to launch: a person joins by being at the screen."@
            &&& name.len() > 0 && account.kind != AccountKind::User && topic is None ==> told
                == "トピック "@ + topic_id@
                + " はこのアプリで開かれていません。削除されたトピックかもしれません。"@
            &&& name.len() > 0 && account.kind != AccountKind::User && topic is Some ==> told
                == "Account \""@ + name
                + "\" has no working directory. Set one before starting a session."@
        }),
{
}

/// Why a line does not run, with the account's name in the message: its command, which is
/// shown, or the line that goes back cannot be written onto it; it passes a flag, which is
/// shown, that keeps the room from being heard; or the room does not listen yet.
pub proof fn law_why_a_line_does_not_run(
    name: &str,
    line: LaunchLine,
    port: Option<u16>,
    res: Result<u16, String>,
    at: int,
)
    requires
        check_line.ensures((name, &line, port), res),
        0 <= at < line.args@.len(),
    ensures
        !is_console_safe(line.command@) ==> res is Err && res->Err_0@ == "「"@ + name@
            + "」の起動コマンド `"@ + line.command@
            + "` には、Windows の起動の行に載せられない文字があります（`& | < > ^ ( ) \"`）。この行は `cmd.exe` を通るため、そこでコマンドが途中で切れます。"@,
        is_console_safe(line.command@) && line.resumed_from is Some && !is_console_safe(
            line.args@[at]@,
        ) ==> res is Err && res->Err_0@ == "「"@ + name@
            + "」の再開コマンドには、Windows の起動の行に載せられない文字があります（`& | < > ^ ( ) \"`）。載せずに起動すれば戻る先へ戻らないため、この起動は行いません。"@,
        is_console_safe(line.command@) && line.resumed_from is None && is_incompatible(
            head(line.args@[at]@),
        ) && (forall|j: int| 0 <= j < at ==> !is_incompatible(head((#[trigger] line.args@[j])@)))
            ==> res is Err && res->Err_0@ == "Account \""@ + name@ + "\" passes "@ + head(
            line.args@[at]@,
        ) + ", which stops channel pushes from arriving. Remove it from the launch options."@,
{
    let args = texts(line.args@);
    assert(args.len() == line.args@.len());
    assert(args[at] == line.args@[at]@);
    if is_incompatible(head(line.args@[at]@)) && (forall|j: int|
        0 <= j < at ==> !is_incompatible(head((#[trigger] line.args@[j])@))) {
        assert forall|j: int| 0 <= j < at implies !is_incompatible(head(#[trigger] args[j])) by {
            assert(args[j] == line.args@[j]@);
        }
        lemma_first_incompatible(args, at);
    }
}

/// Why settings are refused, with the account's name in the message: for the character where
/// there is one to select, and for the other accounts otherwise.
pub proof fn law_why_settings_are_refused(
    name: &str,
    character: Option<&str>,
    others: &[String],
    args: &[String],
    res: Result<(), String>,
)
    requires
        check_settings.ensures((name, character, others, args), res),
        res is Err,
    ensures
        res->Err_0@ == "Account \""@ + name@ + if carried_character(opt_str(character)) is Some {
            "\" declares a character and also passes --settings in its launch options. Both name the same setting. Clear one of them."@
        } else {
            "\" passes --settings in its launch options, and its working directory holds another account's room registration that this session has to keep from starting. Both name the same setting. Remove the --settings, or give this account a working directory of its own."@
        },
{
}

/// The messages of a launch name what they are about.
pub proof fn law_the_messages_of_a_launch(
    name: &str,
    cwd: &str,
    topic_id: &str,
    missing: String,
    seated: String,
    closed_topic: String,
    account: Account,
    program: &str,
    recorded: Option<&str>,
    dropped: bool,
    fresh: String,
    res: Result<LaunchLine, String>,
)
    requires
        missing_directory.ensures((name, cwd), missing),
        already_seated.ensures((name,), seated),
        topic_not_open_text.ensures((topic_id,), closed_topic),
        resolve_with.ensures((&account, program, recorded, true, dropped, fresh), res),
    ensures
        missing@ == "Account \""@ + name@ + "\" points at a missing directory: "@ + cwd@,
        seated@ == "Account \""@ + name@
            + "\" already holds a seat in this topic. One account holds one seat per topic: stop its running session here before starting it again."@,
        closed_topic@ == "トピック "@ + topic_id@
            + " はこのアプリで開かれていません。削除されたトピックかもしれません。"@,
        res is Err ==> res->Err_0@ == "Account \""@ + trimmed(account.name@)
            + "\" has a resume command with no command in it. Write the whole line, command first."@,
{
}

/// A launch that starts fresh and hands over an id hands over one that this run minted; any
/// other part of it is decided as under any other id.
pub proof fn law_a_fresh_launch_hands_over_a_minted_id(
    account: Account,
    program: &str,
    recorded: Option<&str>,
    found: bool,
    dropped: bool,
    res: Result<LaunchLine, String>,
)
    requires
        resolve_launch.ensures((&account, program, recorded, found, dropped), res),
    ensures
        res is Ok && res->Ok_0.session_id is Some ==> is_hyphenated_id(res->Ok_0.session_id->0@),
        res is Ok && res->Ok_0.resumed_from is Some ==> opt_text(res->Ok_0.resumed_from) == opt_str(
            recorded,
        ) && found,
        res is Ok && res->Ok_0.resumed_from is None ==> res->Ok_0.command@ == account.command@
            && texts(res->Ok_0.args@) == texts(account.args@),
        recorded is Some && found && resume_line_of(account, program@) is Some && res is Ok
            ==> res->Ok_0.resumed_from is Some,
{
}

/// The options of a form are its words, in their order; white space separates them, and double
/// quotes group.
pub proof fn law_options_are_split_as_they_are_written(
    text: String,
    args: Vec<String>,
    first: Seq<char>,
    grouped: Seq<char>,
)
    requires
        parse_launch_options.ensures((text,), args),
        is_one_word(first),
        !grouped.contains('"'),
        text@ == first + seq![' ', '"'] + grouped + seq!['"'],
    ensures
        args@.len() == 2,
        args@[0]@ == first,
        args@[1]@ == grouped,
{
    let none = Seq::<char>::empty();
    let rest = seq!['"'] + grouped + seq!['"'];
    assert(!first.contains('"')) by {
        if first.contains('"') {
            let i = first.index_of('"');
            assert(first[i] == '"');
        }
    }
    assert(text@ =~= first + seq![' '] + rest);
    crate::line::law_white_space_separates_words(first, ' ', rest);
    crate::line::law_quotes_group_inside_a_word(none, grouped, none);
    assert(none + seq!['"'] + grouped + seq!['"'] + none =~= rest);
    assert(none + grouped + none =~= grouped);
    let all = texts(args@);
    assert(all =~= seq![first, grouped]);
    assert(all.len() == args@.len());
    assert(all[0] == args@[0]@);
    assert(all[1] == args@[1]@);
}

/// The line that is shown for an account of the kind that names the CLI, where its options
/// name none of what the room adds: the options, all of them or none where one cannot be
/// written onto the line; the place of the session id; what the session is told; the channel
/// of its own server; and the settings.
pub proof fn law_the_shown_line_in_full(
    args: &[String],
    account_id: &str,
    topic_id: &str,
    current: TopicRef,
    character: Option<&str>,
    others: &[String],
    port: Option<u16>,
    script: Option<&str>,
    res: Vec<String>,
    kept: Seq<Seq<char>>,
)
    requires
        preview_launch_args.ensures(
            (
                args,
                account_id,
                AccountKind::ClaudeCode,
                Some(topic_id),
                &current,
                character,
                others,
                port,
                script,
            ),
            res,
        ),
        (forall|i: int| 0 <= i < args@.len() ==> is_console_safe((#[trigger] args@[i])@))
            ==> kept == texts(args@),
        (exists|i: int| 0 <= i < args@.len() && !is_console_safe((#[trigger] args@[i])@))
            ==> kept.len() == 0,
        !has_placeholder(kept),
        !names_flag(kept, "--session-id"@),
        !names_flag(kept, "--append-system-prompt"@),
        !names_flag(kept, "--append-system-prompt-file"@),
        !names_flag(kept, "--settings"@),
        !kept.contains("--dangerously-load-development-channels"@),
        !kept.contains("server:"@ + server_name(trimmed(account_id@), topic_id@)),
    ensures
        ({
            let server = server_name(trimmed(account_id@), topic_id@);
            let n = kept.len() as int;
            let line = texts(res@);
            &&& line.len() == n + 8
            &&& line.take(n) == kept
            &&& line[n] == "--session-id"@
            &&& line[n + 1] == "{session_id}"@
            &&& line[n + 2] == "--append-system-prompt"@
            &&& line[n + 3] == room_prompt(server)
            &&& line[n + 4] == "--dangerously-load-development-channels"@
            &&& line[n + 5] == "server:"@ + server
            &&& line[n + 6] == "--settings"@
            &&& parsed(line[n + 7]) is Says
            &&& are_of_seat(
                parsed(line[n + 7])->Says_0,
                AccountKind::ClaudeCode,
                trimmed(account_id@),
                topic_id@,
                opt_str(character),
                others,
                port,
                opt_str(script),
            )
        }),
{
    let account = trimmed(account_id@);
    let server = server_name(account, topic_id@);
    let options = texts(args@);
    let n = kept.len() as int;
    assert(options.len() == args@.len());
    if forall|i: int| 0 <= i < args@.len() ==> is_console_safe((#[trigger] args@[i])@) {
        assert forall|i: int| 0 <= i < options.len() implies is_console_safe(
            #[trigger] options[i],
        ) by {
            assert(options[i] == args@[i]@);
        }
    } else {
        let i = choose|i: int| 0 <= i < args@.len() && !is_console_safe((#[trigger] args@[i])@);
        assert(options[i] == args@[i]@);
        assert(!all_console_safe(options));
        assert(kept =~= Seq::<Seq<char>>::empty());
    }
    assert(carried(options) == kept);
    law_a_server_name_is_plain(account, topic_id@);
    if let Some(field) = character {
        crate::text::lemma_trimmed_twice(field@);
    }
    let hook = match port {
        Some(port) => Some(seat_address(port, LIMITED_HOOK_PATH@, topic_id@, account)),
        None => None,
    };
    let status = match port {
        Some(port) => seat_status(opt_str(script), port, topic_id@, account),
        None => None,
    };
    law_a_fresh_line_in_full(
        kept,
        server,
        carried_character(opt_str(character)),
        texts(others@),
        hook,
        status,
    );
    let line = texts(res@);
    assert(line.take(n) =~= kept);
    lemma_settings_of_seat_kept(
        options,
        AccountKind::ClaudeCode,
        account,
        topic_id@,
        opt_str(character),
        others,
        port,
        opt_str(script),
    );
    assert(line.last() == line[n + 7]);
}

/// As `lemma_settings_of_seat`, where the options that the line carries bring no settings.
proof fn lemma_settings_of_seat_kept(
    options: Seq<Seq<char>>,
    kind: AccountKind,
    account_id: Seq<char>,
    topic_id: Seq<char>,
    character: Option<Seq<char>>,
    others: &[String],
    port: Option<u16>,
    script: Option<Seq<char>>,
)
    requires
        settings_read_back(
            options,
            kind,
            account_id,
            topic_id,
            character,
            texts(others@),
            port,
            script,
        ),
        !names_flag(carried(options), "--settings"@),
    ensures
        ({
            let line = composed(
                options,
                kind,
                account_id,
                topic_id,
                character,
                texts(others@),
                port,
                script,
            );
            &&& parsed(line.last()) is Says
            &&& are_of_seat(
                parsed(line.last())->Says_0,
                kind,
                account_id,
                topic_id,
                character,
                others,
                port,
                script,
            )
        }),
{
    let safe = carried(options);
    assert(carried(safe) == safe);
    assert(composed(options, kind, account_id, topic_id, character, texts(others@), port, script)
        == composed(safe, kind, account_id, topic_id, character, texts(others@), port, script));
    lemma_settings_of_seat(
        safe,
        kind,
        account_id,
        topic_id,
        character,
        others,
        port,
        script,
    );
}

/// The line that is spawned is the line that is shown for the same options, word for word,
/// with the id in every place left for it: the one that the launch hands over, or the one of
/// the session it goes back into.
pub proof fn law_what_is_spawned_is_what_is_shown(
    account: Account,
    line: LaunchLine,
    options: &[String],
    account_id: &str,
    topic_id: &str,
    current: TopicRef,
    character: Option<&str>,
    others: &[String],
    port: u16,
    script: Option<&str>,
    shown: Vec<String>,
    args: Vec<String>,
    i: int,
)
    requires
        launch.ensures((&account, &line, topic_id, others, port, script), args),
        preview_launch_args.ensures(
            (
                options,
                account_id,
                account.kind,
                Some(topic_id),
                &current,
                character,
                others,
                Some(port),
                script,
            ),
            shown,
        ),
        texts(options@) == texts(line.args@),
        trimmed(account_id@) == account.id@,
        opt_str(character) == opt_text(account.character),
    ensures
        args@.len() == shown@.len(),
        0 <= i < args@.len() ==> args@[i]@ == if line.session_id is Some {
            replaced(shown@[i]@, "{session_id}"@, line.session_id->0@)
        } else if line.resumed_from is Some {
            replaced(shown@[i]@, "{session_id}"@, line.resumed_from->0@)
        } else {
            shown@[i]@
        },
{
    let words = texts(args@);
    let all = texts(shown@);
    assert(words.len() == args@.len());
    assert(all.len() == shown@.len());
    if 0 <= i < args@.len() {
        assert(words[i] == args@[i]@);
        assert(all[i] == shown@[i]@);
    }
}

/// The character that a line carries is the one that the field names without the white space
/// around it, where the line can carry it; the line that is shown is told by its fields.
pub proof fn law_a_line_is_told_by_its_fields(
    line: LaunchLine,
    field: Option<&str>,
    character: Option<&str>,
)
    requires
        line_character.ensures((field,), character),
    ensures
        line@.command == line.command@,
        line@.args == texts(line.args@),
        line@.session_id == opt_text(line.session_id),
        line@.resumed_from == opt_text(line.resumed_from),
        line@.dropped_resume == opt_text(line.dropped_resume),
        character is Some <==> field is Some && trimmed(field->0@).len() > 0 && is_console_safe(
            trimmed(field->0@),
        ),
        character is Some ==> character->0@ == trimmed(field->0@),
{
}

} // verus!
