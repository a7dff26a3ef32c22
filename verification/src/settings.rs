//! What a launch declares about itself in its settings, and the whole line it runs.

use vstd::prelude::*;
use vstd::string::*;

use crate::cli::{
    has_placeholder, room_prompt, session_id_launch_args, system_prompt_launch_args,
    with_session_id, with_system_prompt, Cli,
};
use crate::flags::{
    channel_entry, channel_launch_args, declares_settings, head, names_flag, with_channel,
    SETTINGS_FLAG,
};
use crate::hooks::ROOM_TOKEN_ENV;
use crate::json::{
    at, close, compact, compact_text, entries_readable, free_of, is_json_punctuation, json_of,
    lemma_deeper, lemma_insert_free, lemma_insert_readable, lemma_list_free, lemma_number_free,
    lemma_object_free, lemma_single_readable, lemma_text_free, lemma_text_list_readable, new_object,
    no_entries, object_value, parsed, put_text, put_value, read_depth, readable, single_value,
    text_list, text_value, texts_value, whole, Json, Node, Reading,
};
use crate::line::console_cuts_at;
use crate::server_name::is_plain;
use crate::text::{copy_texts, decimal, given, given_text, opt_str, texts, trimmed};

verus! {

// ---------------------------------------------------------------------------
// The values of single keys
// ---------------------------------------------------------------------------

/// The one hook of a usage limit: a post to the seat's address, with the token taken
/// from the environment.
pub open spec fn limit_hook(url: Seq<char>) -> Json {
    Json::Object(
        no_entries().insert("type"@, Json::Text("http"@)).insert("url"@, Json::Text(url)).insert(
            "headers"@,
            Json::Object(
                no_entries().insert(
                    "Authorization"@,
                    Json::Text("Bearer ${"@ + ROOM_TOKEN_ENV@ + "}"@),
                ),
            ),
        ).insert("allowedEnvVars"@, Json::List(seq![Json::Text(ROOM_TOKEN_ENV@)])).insert(
            "timeout"@,
            Json::Number(decimal(5)),
        ),
    )
}

/// The hooks by which a CLI reports a turn that stopped on a usage limit.
pub open spec fn limit_hooks(url: Seq<char>) -> Json {
    Json::Object(
        no_entries().insert(
            "StopFailure"@,
            Json::List(
                seq![
                    Json::Object(
                        no_entries().insert("matcher"@, Json::Text("rate_limit"@)).insert(
                            "hooks"@,
                            Json::List(seq![limit_hook(url)]),
                        ),
                    ),
                ],
            ),
        ),
    )
}

/// The status line that a CLI runs.
pub open spec fn status_line_json(command: Seq<char>) -> Json {
    Json::Object(
        no_entries().insert("type"@, Json::Text("command"@)).insert(
            "command"@,
            Json::Text(command),
        ),
    )
}

/// The `hooks` value that has the CLI tell the app its turn stopped on a usage limit.
pub fn limited_hook_settings(url: &str) -> (value: serde_json::Value)
    ensures
        json_of(value) == limit_hooks(url@),
{
    let mut bearer: String = "Bearer ${".to_owned();
    bearer.append(ROOM_TOKEN_ENV);
    bearer.append("}");
    let mut headers = new_object();
    put_text(&mut headers, "Authorization", bearer.as_str());
    let mut hook = new_object();
    put_text(&mut hook, "type", "http");
    put_text(&mut hook, "url", url);
    put_value(&mut hook, "headers", object_value(headers));
    put_value(&mut hook, "allowedEnvVars", single_value(text_value(ROOM_TOKEN_ENV)));
    put_value(&mut hook, "timeout", close(Node::Number(whole(5))));
    let mut entry = new_object();
    put_text(&mut entry, "matcher", "rate_limit");
    put_value(&mut entry, "hooks", single_value(object_value(hook)));
    let mut hooks = new_object();
    put_value(&mut hooks, "StopFailure", single_value(object_value(entry)));
    object_value(hooks)
}

/// The `statusLine` value that has the CLI report what it knows about itself.
pub fn status_line_settings(command: &str) -> (value: serde_json::Value)
    ensures
        json_of(value) == status_line_json(command@),
{
    let mut status = new_object();
    put_text(&mut status, "type", "command");
    put_text(&mut status, "command", command);
    object_value(status)
}

/// The character an account speaks as, or `None` when it declares none. Blank is the
/// same state as absent.
pub fn declared_character(character: Option<&str>) -> (res: Option<&str>)
    ensures
        opt_str(res) == given(opt_str(character)),
{
    given_text(character)
}

// ---------------------------------------------------------------------------
// The settings of a launch
// ---------------------------------------------------------------------------

/// What a launch declares: the character it speaks as, the server it approves, the
/// servers it keeps from starting, and how it reports.
pub open spec fn settings_entries(
    character: Option<Seq<char>>,
    own_server: Seq<char>,
    disabled: Seq<Seq<char>>,
    limited_hook: Option<Seq<char>>,
    status_command: Option<Seq<char>>,
) -> Map<Seq<char>, Json> {
    let styled = match character {
        Some(name) => no_entries().insert("outputStyle"@, Json::Text(name)),
        None => no_entries(),
    };
    let approved = styled.insert(
        "enabledMcpjsonServers"@,
        Json::List(seq![Json::Text(own_server)]),
    );
    let stopped = if disabled.len() > 0 {
        approved.insert("disabledMcpjsonServers"@, text_list(disabled))
    } else {
        approved
    };
    let hooked = match limited_hook {
        Some(url) => stopped.insert("hooks"@, limit_hooks(url)),
        None => stopped,
    };
    match status_command {
        Some(command) => hooked.insert("statusLine"@, status_line_json(command)),
        None => hooked,
    }
}

/// Whether arguments are left as they are: they pass settings of their own, and there is no
/// character to select and no server to stop.
pub open spec fn left_alone(
    base: Seq<Seq<char>>,
    character: Option<Seq<char>>,
    disabled: Seq<Seq<char>>,
) -> bool {
    given(character) is None && disabled.len() == 0 && names_flag(base, SETTINGS_FLAG@)
}

/// Whether a text is the settings written out: it reads back as them, and it holds no
/// character beside JSON's own that no text of theirs holds.
pub open spec fn writes_out(text: Seq<char>, settings: Json) -> bool {
    &&& parsed(text) == Reading::Says(settings)
    &&& forall|c: char|
        #![trigger text.contains(c)]
        !is_json_punctuation(c) && free_of(settings, c) ==> !text.contains(c)
}

/// The launch arguments with the settings behind them. Arguments that pass settings of
/// their own stay as they are, unless there is a character or a server to stop.
pub open spec fn with_settings(
    base: Seq<Seq<char>>,
    character: Option<Seq<char>>,
    own_server: Seq<char>,
    disabled: Seq<Seq<char>>,
    limited_hook: Option<Seq<char>>,
    status_command: Option<Seq<char>>,
) -> Seq<Seq<char>> {
    let name = given(character);
    if left_alone(base, character, disabled) {
        base
    } else {
        base.push(SETTINGS_FLAG@).push(
            compact_text(
                Json::Object(
                    settings_entries(name, own_server, disabled, limited_hook, status_command),
                ),
            ),
        )
    }
}

proof fn lemma_hooks_readable(url: Seq<char>)
    ensures
        readable(limit_hooks(url), 9),
{
    lemma_no_entries_readable(4);
    lemma_no_entries_readable(3);
    let headers = no_entries().insert(
        "Authorization"@,
        Json::Text("Bearer ${"@ + ROOM_TOKEN_ENV@ + "}"@),
    );
    lemma_insert_readable(no_entries(), "Authorization"@, headers["Authorization"@], 3);
    let h1 = no_entries().insert("type"@, Json::Text("http"@));
    let h2 = h1.insert("url"@, Json::Text(url));
    let h3 = h2.insert("headers"@, Json::Object(headers));
    let h4 = h3.insert("allowedEnvVars"@, Json::List(seq![Json::Text(ROOM_TOKEN_ENV@)]));
    lemma_insert_readable(no_entries(), "type"@, Json::Text("http"@), 4);
    lemma_insert_readable(h1, "url"@, Json::Text(url), 4);
    assert(readable(Json::Object(headers), 4));
    lemma_insert_readable(h2, "headers"@, Json::Object(headers), 4);
    lemma_single_readable(Json::Text(ROOM_TOKEN_ENV@), 3);
    lemma_insert_readable(h3, "allowedEnvVars"@, Json::List(seq![Json::Text(ROOM_TOKEN_ENV@)]), 4);
    assert(readable(Json::Number(decimal(5)), 4)) by {
        assert(decimal(5) == decimal(5u64 as nat));
    }
    lemma_insert_readable(h4, "timeout"@, Json::Number(decimal(5)), 4);
    assert(readable(limit_hook(url), 5));
    let hooks = Json::List(seq![limit_hook(url)]);
    assert(readable(hooks, 6));
    lemma_no_entries_readable(6);
    let e1 = no_entries().insert("matcher"@, Json::Text("rate_limit"@));
    lemma_insert_readable(no_entries(), "matcher"@, Json::Text("rate_limit"@), 6);
    lemma_insert_readable(e1, "hooks"@, hooks, 6);
    let entry = Json::Object(e1.insert("hooks"@, hooks));
    assert(readable(entry, 7));
    let list = Json::List(seq![entry]);
    assert(readable(list, 8));
    lemma_no_entries_readable(8);
    lemma_insert_readable(no_entries(), "StopFailure"@, list, 8);
}

proof fn lemma_no_entries_readable(depth: nat)
    ensures
        entries_readable(no_entries(), depth),
{
}

/// What a launch declares in its settings comes back as it is when it is read.
pub proof fn law_settings_are_readable(
    character: Option<Seq<char>>,
    own_server: Seq<char>,
    disabled: Seq<Seq<char>>,
    limited_hook: Option<Seq<char>>,
    status_command: Option<Seq<char>>,
)
    ensures
        readable(
            Json::Object(
                settings_entries(character, own_server, disabled, limited_hook, status_command),
            ),
            read_depth(),
        ),
{
    let d: nat = 126;
    lemma_no_entries_readable(d);
    let styled = match character {
        Some(name) => no_entries().insert("outputStyle"@, Json::Text(name)),
        None => no_entries(),
    };
    if let Some(name) = character {
        lemma_insert_readable(no_entries(), "outputStyle"@, Json::Text(name), d);
    }
    let own = Json::List(seq![Json::Text(own_server)]);
    lemma_single_readable(Json::Text(own_server), 125);
    lemma_insert_readable(styled, "enabledMcpjsonServers"@, own, d);
    let approved = styled.insert("enabledMcpjsonServers"@, own);
    let stopped = if disabled.len() > 0 {
        approved.insert("disabledMcpjsonServers"@, text_list(disabled))
    } else {
        approved
    };
    if disabled.len() > 0 {
        lemma_text_list_readable(disabled, d);
        lemma_insert_readable(approved, "disabledMcpjsonServers"@, text_list(disabled), d);
    }
    let hooked = match limited_hook {
        Some(url) => stopped.insert("hooks"@, limit_hooks(url)),
        None => stopped,
    };
    if let Some(url) = limited_hook {
        lemma_hooks_readable(url);
        lemma_deeper(limit_hooks(url), 9, d);
        lemma_insert_readable(stopped, "hooks"@, limit_hooks(url), d);
    }
    if let Some(command) = status_command {
        lemma_no_entries_readable(125);
        lemma_insert_readable(no_entries(), "type"@, Json::Text("command"@), 125);
        lemma_insert_readable(
            no_entries().insert("type"@, Json::Text("command"@)),
            "command"@,
            Json::Text(command),
            125,
        );
        assert(readable(status_line_json(command), d));
        lemma_insert_readable(hooked, "statusLine"@, status_line_json(command), d);
    }
}

/// The launch arguments carrying what this session declares about itself, given its own:
/// the character it speaks as, the room registration it is, and the room registrations
/// it must not start.
///
/// What is added reads back as what was declared, and holds no character beside JSON's own
/// that nothing declared holds.
pub fn settings_launch_args(
    base: &[String],
    character: Option<&str>,
    own_server: &str,
    disabled: &[String],
    limited_hook: Option<&str>,
    status_command: Option<&str>,
) -> (args: Vec<String>)
    ensures
        texts(args@) == with_settings(
            texts(base@),
            opt_str(character),
            own_server@,
            texts(disabled@),
            opt_str(limited_hook),
            opt_str(status_command),
        ),
        !left_alone(texts(base@), opt_str(character), texts(disabled@)) ==> writes_out(
            args@.last()@,
            Json::Object(
                settings_entries(
                    given(opt_str(character)),
                    own_server@,
                    texts(disabled@),
                    opt_str(limited_hook),
                    opt_str(status_command),
                ),
            ),
        ),
{
    let mut args = copy_texts(base);
    let name = declared_character(character);
    if name.is_none() && disabled.len() == 0 && declares_settings(base) {
        return args;
    }
    let mut settings = new_object();
    if let Some(name) = name {
        put_text(&mut settings, "outputStyle", name);
    }
    put_value(&mut settings, "enabledMcpjsonServers", single_value(text_value(own_server)));
    if disabled.len() > 0 {
        put_value(&mut settings, "disabledMcpjsonServers", texts_value(disabled));
    }
    if let Some(url) = limited_hook {
        put_value(&mut settings, "hooks", limited_hook_settings(url));
    }
    if let Some(command) = status_command {
        put_value(&mut settings, "statusLine", status_line_settings(command));
    }
    proof {
        law_settings_are_readable(
            given(opt_str(character)),
            own_server@,
            texts(disabled@),
            opt_str(limited_hook),
            opt_str(status_command),
        );
    }
    let text = compact(&object_value(settings));
    args.push(SETTINGS_FLAG.to_owned());
    args.push(text);
    proof {
        assert(texts(args@) =~= texts(base@).push(SETTINGS_FLAG@).push(text@));
    }
    args
}

// ---------------------------------------------------------------------------
// The whole line
// ---------------------------------------------------------------------------

/// The whole line one launch runs: the account's options, what the CLI's conventions put
/// on it, the room's channel entry, and the settings. A kind that names no CLI reports
/// nothing.
pub open spec fn launch_line(
    base: Seq<Seq<char>>,
    cli: Option<Cli>,
    server_name: Seq<char>,
    character: Option<Seq<char>>,
    disabled: Seq<Seq<char>>,
    limited_hook: Option<Seq<char>>,
    status_command: Option<Seq<char>>,
) -> Seq<Seq<char>> {
    with_settings(
        joined_line(base, cli, server_name),
        character,
        server_name,
        disabled,
        reported(cli, limited_hook),
        reported(cli, status_command),
    )
}

/// The line before its settings.
pub open spec fn joined_line(base: Seq<Seq<char>>, cli: Option<Cli>, server_name: Seq<char>) -> Seq<
    Seq<char>,
> {
    with_channel(with_system_prompt(with_session_id(base, cli), cli, server_name), server_name)
}

/// What a launch reports by, where its kind names a CLI that reports.
pub open spec fn reported(cli: Option<Cli>, way: Option<Seq<char>>) -> Option<Seq<char>> {
    if cli is Some {
        way
    } else {
        None
    }
}

/// The whole line one launch runs. Its settings read back as what the launch declares.
pub fn launch_args(
    base: &[String],
    cli: Option<Cli>,
    server_name: &str,
    character: Option<&str>,
    disabled: &[String],
    limited_hook: Option<&str>,
    status_command: Option<&str>,
) -> (args: Vec<String>)
    ensures
        texts(args@) == launch_line(
            texts(base@),
            cli,
            server_name@,
            opt_str(character),
            texts(disabled@),
            opt_str(limited_hook),
            opt_str(status_command),
        ),
        !left_alone(
            joined_line(texts(base@), cli, server_name@),
            opt_str(character),
            texts(disabled@),
        ) ==> writes_out(
            args@.last()@,
            Json::Object(
                settings_entries(
                    given(opt_str(character)),
                    server_name@,
                    texts(disabled@),
                    reported(cli, opt_str(limited_hook)),
                    reported(cli, opt_str(status_command)),
                ),
            ),
        ),
{
    let reports: bool = match cli {
        Some(cli) => cli.reports_through_settings(),
        None => false,
    };
    let identified = session_id_launch_args(base, cli);
    let told = system_prompt_launch_args(identified.as_slice(), cli, server_name);
    let joined = channel_launch_args(told.as_slice(), server_name);
    settings_launch_args(
        joined.as_slice(),
        character,
        server_name,
        disabled,
        if reports {
            limited_hook
        } else {
            None
        },
        if reports {
            status_command
        } else {
            None
        },
    )
}

// ---------------------------------------------------------------------------
// Laws
// ---------------------------------------------------------------------------

/// Every key that a launch can declare is a key of its own.
proof fn lemma_setting_keys()
    ensures
        "outputStyle"@.len() == 11,
        "enabledMcpjsonServers"@.len() == 21,
        "disabledMcpjsonServers"@.len() == 22,
        "hooks"@.len() == 5,
        "statusLine"@.len() == 10,
{
    reveal_strlit("outputStyle");
    reveal_strlit("enabledMcpjsonServers");
    reveal_strlit("disabledMcpjsonServers");
    reveal_strlit("hooks");
    reveal_strlit("statusLine");
}

/// Settings always approve the launch's own server; they name a character, servers to
/// stop, a hook and a status line exactly where there is one to name.
pub proof fn law_settings_declare_what_there_is(
    character: Option<Seq<char>>,
    own_server: Seq<char>,
    disabled: Seq<Seq<char>>,
    limited_hook: Option<Seq<char>>,
    status_command: Option<Seq<char>>,
)
    ensures
        ({
            let settings = Json::Object(
                settings_entries(character, own_server, disabled, limited_hook, status_command),
            );
            &&& at(settings, "enabledMcpjsonServers"@) == Some(
                Json::List(seq![Json::Text(own_server)]),
            )
            &&& at(settings, "outputStyle"@) == match character {
                Some(name) => Some(Json::Text(name)),
                None => None,
            }
            &&& at(settings, "disabledMcpjsonServers"@) == if disabled.len() > 0 {
                Some(text_list(disabled))
            } else {
                None
            }
            &&& at(settings, "hooks"@) == match limited_hook {
                Some(url) => Some(limit_hooks(url)),
                None => None,
            }
            &&& at(settings, "statusLine"@) == match status_command {
                Some(command) => Some(status_line_json(command)),
                None => None,
            }
        }),
{
    lemma_setting_keys();
}

/// A kind that names no CLI is given the room's entry and the settings the room needs, and
/// nothing of any CLI's conventions.
pub proof fn law_a_kind_without_a_cli_is_handed_no_conventions(
    base: Seq<Seq<char>>,
    server_name: Seq<char>,
    character: Option<Seq<char>>,
    disabled: Seq<Seq<char>>,
    limited_hook: Option<Seq<char>>,
    status_command: Option<Seq<char>>,
)
    ensures
        launch_line(
            base,
            None,
            server_name,
            character,
            disabled,
            limited_hook,
            status_command,
        ) == with_settings(
            with_channel(base, server_name),
            character,
            server_name,
            disabled,
            None,
            None,
        ),
{
}

proof fn lemma_channel_keeps(args: Seq<Seq<char>>, server_name: Seq<char>, i: int) -> (at: int)
    requires
        0 <= i < args.len(),
    ensures
        0 <= at < with_channel(args, server_name).len(),
        with_channel(args, server_name)[at] == args[i],
{
    let flag = crate::text::first_at(args, crate::flags::CHANNEL_FLAG@);
    crate::text::lemma_first_at(args, crate::flags::CHANNEL_FLAG@);
    if args.contains(crate::flags::channel_entry(server_name)) || flag == args.len() || i <= flag {
        i
    } else {
        i + 1
    }
}

/// Every word that a person wrote into their options is on the line that runs, and so is
/// the room's channel entry.
pub proof fn law_a_line_keeps_the_persons_options(
    base: Seq<Seq<char>>,
    cli: Option<Cli>,
    server_name: Seq<char>,
    character: Option<Seq<char>>,
    disabled: Seq<Seq<char>>,
    limited_hook: Option<Seq<char>>,
    status_command: Option<Seq<char>>,
    i: int,
)
    requires
        0 <= i < base.len(),
    ensures
        ({
            let line = launch_line(
                base,
                cli,
                server_name,
                character,
                disabled,
                limited_hook,
                status_command,
            );
            line.contains(base[i]) && line.contains(crate::flags::channel_entry(server_name))
        }),
{
    let identified = with_session_id(base, cli);
    let told = with_system_prompt(identified, cli, server_name);
    let joined = with_channel(told, server_name);
    assert(identified[i] == base[i]);
    assert(told[i] == base[i]);
    let at = lemma_channel_keeps(told, server_name, i);
    let line = launch_line(
        base,
        cli,
        server_name,
        character,
        disabled,
        limited_hook,
        status_command,
    );
    assert(line[at] == base[i]);
    crate::flags::law_a_channel_is_merged_once(told, server_name);
    let entry = joined.index_of(crate::flags::channel_entry(server_name));
    assert(line[entry] == crate::flags::channel_entry(server_name));
}

/// Whether a text is absent, or holds no such character.
pub open spec fn opt_free(text: Option<Seq<char>>, c: char) -> bool {
    text is Some ==> !text->0.contains(c)
}

proof fn lemma_own_words_free(c: char)
    requires
        console_cuts_at(c),
    ensures
        !"type"@.contains(c),
        !"http"@.contains(c),
        !"url"@.contains(c),
        !"headers"@.contains(c),
        !"Authorization"@.contains(c),
        !("Bearer ${"@ + ROOM_TOKEN_ENV@ + "}"@).contains(c),
        !"allowedEnvVars"@.contains(c),
        !ROOM_TOKEN_ENV@.contains(c),
        !"timeout"@.contains(c),
        !"matcher"@.contains(c),
        !"rate_limit"@.contains(c),
        !"hooks"@.contains(c),
        !"StopFailure"@.contains(c),
        !"command"@.contains(c),
        !"outputStyle"@.contains(c),
        !"enabledMcpjsonServers"@.contains(c),
        !"disabledMcpjsonServers"@.contains(c),
        !"statusLine"@.contains(c),
{
    reveal_strlit("type");
    reveal_strlit("http");
    reveal_strlit("url");
    reveal_strlit("headers");
    reveal_strlit("Authorization");
    reveal_strlit("Bearer ${");
    reveal_strlit("}");
    reveal_strlit("allowedEnvVars");
    reveal_strlit("PULLCEPT_ROOM_TOKEN");
    reveal_strlit("timeout");
    reveal_strlit("matcher");
    reveal_strlit("rate_limit");
    reveal_strlit("hooks");
    reveal_strlit("StopFailure");
    reveal_strlit("command");
    reveal_strlit("outputStyle");
    reveal_strlit("enabledMcpjsonServers");
    reveal_strlit("disabledMcpjsonServers");
    reveal_strlit("statusLine");
}

proof fn lemma_hooks_free(url: Seq<char>, c: char)
    requires
        console_cuts_at(c),
        !url.contains(c),
    ensures
        free_of(limit_hooks(url), c),
{
    lemma_own_words_free(c);
    let none = no_entries();
    let bearer = "Bearer ${"@ + ROOM_TOKEN_ENV@ + "}"@;
    lemma_text_free(bearer, c);
    lemma_insert_free(none, "Authorization"@, Json::Text(bearer), c);
    let headers = none.insert("Authorization"@, Json::Text(bearer));
    lemma_object_free(headers, c);
    lemma_text_free(ROOM_TOKEN_ENV@, c);
    lemma_list_free(seq![Json::Text(ROOM_TOKEN_ENV@)], c);
    lemma_number_free(decimal(5), c);
    lemma_text_free("http"@, c);
    lemma_text_free(url, c);
    let h1 = none.insert("type"@, Json::Text("http"@));
    let h2 = h1.insert("url"@, Json::Text(url));
    let h3 = h2.insert("headers"@, Json::Object(headers));
    let h4 = h3.insert("allowedEnvVars"@, Json::List(seq![Json::Text(ROOM_TOKEN_ENV@)]));
    lemma_insert_free(none, "type"@, Json::Text("http"@), c);
    lemma_insert_free(h1, "url"@, Json::Text(url), c);
    lemma_insert_free(h2, "headers"@, Json::Object(headers), c);
    lemma_insert_free(h3, "allowedEnvVars"@, Json::List(seq![Json::Text(ROOM_TOKEN_ENV@)]), c);
    lemma_insert_free(h4, "timeout"@, Json::Number(decimal(5)), c);
    lemma_object_free(h4.insert("timeout"@, Json::Number(decimal(5))), c);
    lemma_list_free(seq![limit_hook(url)], c);
    let hooks = Json::List(seq![limit_hook(url)]);
    lemma_text_free("rate_limit"@, c);
    let e1 = none.insert("matcher"@, Json::Text("rate_limit"@));
    lemma_insert_free(none, "matcher"@, Json::Text("rate_limit"@), c);
    lemma_insert_free(e1, "hooks"@, hooks, c);
    let entry = Json::Object(e1.insert("hooks"@, hooks));
    lemma_object_free(e1.insert("hooks"@, hooks), c);
    lemma_list_free(seq![entry], c);
    lemma_insert_free(none, "StopFailure"@, Json::List(seq![entry]), c);
    lemma_object_free(none.insert("StopFailure"@, Json::List(seq![entry])), c);
}

/// Settings hold a character that a console cuts a line at only where the character, a
/// server, the hook's address or the status line holds it.
pub proof fn law_settings_add_nothing_the_console_acts_on(
    character: Option<Seq<char>>,
    own_server: Seq<char>,
    disabled: Seq<Seq<char>>,
    limited_hook: Option<Seq<char>>,
    status_command: Option<Seq<char>>,
    c: char,
)
    requires
        console_cuts_at(c),
        opt_free(character, c),
        !own_server.contains(c),
        forall|i: int| 0 <= i < disabled.len() ==> !(#[trigger] disabled[i]).contains(c),
        opt_free(limited_hook, c),
        opt_free(status_command, c),
    ensures
        free_of(
            Json::Object(
                settings_entries(character, own_server, disabled, limited_hook, status_command),
            ),
            c,
        ),
        !is_json_punctuation(c),
{
    lemma_own_words_free(c);
    let none = no_entries();
    let styled = match character {
        Some(name) => none.insert("outputStyle"@, Json::Text(name)),
        None => none,
    };
    if let Some(name) = character {
        lemma_text_free(name, c);
        lemma_insert_free(none, "outputStyle"@, Json::Text(name), c);
    }
    let own = Json::List(seq![Json::Text(own_server)]);
    lemma_text_free(own_server, c);
    lemma_list_free(seq![Json::Text(own_server)], c);
    lemma_insert_free(styled, "enabledMcpjsonServers"@, own, c);
    let approved = styled.insert("enabledMcpjsonServers"@, own);
    let stopped = if disabled.len() > 0 {
        approved.insert("disabledMcpjsonServers"@, text_list(disabled))
    } else {
        approved
    };
    if disabled.len() > 0 {
        let items = disabled.map_values(|text: Seq<char>| Json::Text(text));
        assert forall|i: int| 0 <= i < items.len() implies free_of(#[trigger] items[i], c) by {
            assert(items[i] == Json::Text(disabled[i]));
            lemma_text_free(disabled[i], c);
        }
        lemma_list_free(items, c);
        lemma_insert_free(approved, "disabledMcpjsonServers"@, text_list(disabled), c);
    }
    let hooked = match limited_hook {
        Some(url) => stopped.insert("hooks"@, limit_hooks(url)),
        None => stopped,
    };
    if let Some(url) = limited_hook {
        lemma_hooks_free(url, c);
        lemma_insert_free(stopped, "hooks"@, limit_hooks(url), c);
    }
    if let Some(command) = status_command {
        lemma_text_free("command"@, c);
        lemma_text_free(command, c);
        let kind = none.insert("type"@, Json::Text("command"@));
        lemma_insert_free(none, "type"@, Json::Text("command"@), c);
        lemma_insert_free(kind, "command"@, Json::Text(command), c);
        lemma_object_free(kind.insert("command"@, Json::Text(command)), c);
        lemma_insert_free(hooked, "statusLine"@, status_line_json(command), c);
    }
    lemma_object_free(
        settings_entries(character, own_server, disabled, limited_hook, status_command),
        c,
    );
}

/// Every key of a hook and of a status line is a key of its own.
proof fn lemma_hook_keys()
    ensures
        "type"@.len() == 4,
        "url"@.len() == 3,
        "headers"@.len() == 7 && "headers"@[0] == 'h',
        "allowedEnvVars"@.len() == 14,
        "timeout"@.len() == 7 && "timeout"@[0] == 't',
        "matcher"@.len() == 7,
        "hooks"@.len() == 5,
        "command"@.len() == 7,
{
    reveal_strlit("type");
    reveal_strlit("url");
    reveal_strlit("headers");
    reveal_strlit("allowedEnvVars");
    reveal_strlit("timeout");
    reveal_strlit("matcher");
    reveal_strlit("hooks");
    reveal_strlit("command");
}

/// The hook of a usage limit runs where a turn stopped on one, and posts to its address
/// within five seconds, with the room's token from the environment and with no other
/// variable of it. The status line runs its command.
pub proof fn law_a_hook_posts_to_its_address_with_the_token(url: Seq<char>, command: Seq<char>)
    ensures
        ({
            let stops = at(limit_hooks(url), "StopFailure"@);
            let stop = stops->0->List_0[0];
            let hooks = at(stop, "hooks"@);
            let hook = hooks->0->List_0[0];
            &&& stops is Some && stops->0 is List && stops->0->List_0.len() == 1
            &&& at(stop, "matcher"@) == Some(Json::Text("rate_limit"@))
            &&& hooks is Some && hooks->0 is List && hooks->0->List_0.len() == 1
            &&& at(hook, "type"@) == Some(Json::Text("http"@))
            &&& at(hook, "url"@) == Some(Json::Text(url))
            &&& at(hook, "headers"@) is Some
            &&& at(at(hook, "headers"@)->0, "Authorization"@) == Some(
                Json::Text("Bearer ${PULLCEPT_ROOM_TOKEN}"@),
            )
            &&& at(hook, "allowedEnvVars"@) == Some(
                Json::List(seq![Json::Text("PULLCEPT_ROOM_TOKEN"@)]),
            )
            &&& at(hook, "timeout"@) == Some(Json::Number(seq!['5']))
        }),
        at(status_line_json(command), "type"@) == Some(Json::Text("command"@)),
        at(status_line_json(command), "command"@) == Some(Json::Text(command)),
{
    lemma_hook_keys();
    reveal_strlit("Bearer ${");
    reveal_strlit("PULLCEPT_ROOM_TOKEN");
    reveal_strlit("}");
    reveal_strlit("Bearer ${PULLCEPT_ROOM_TOKEN}");
    assert("Bearer ${"@ + ROOM_TOKEN_ENV@ + "}"@ =~= "Bearer ${PULLCEPT_ROOM_TOKEN}"@);
    assert(decimal(5) =~= seq!['5']);
}

/// A fresh line of a kind that names a CLI, where the person's options name none of what the
/// room adds: their options, the place of the session id, what the session is told about the
/// room, the room's channel, and the settings, each behind its flag and in this order.
pub proof fn law_a_fresh_line_in_full(
    base: Seq<Seq<char>>,
    server_name: Seq<char>,
    character: Option<Seq<char>>,
    disabled: Seq<Seq<char>>,
    limited_hook: Option<Seq<char>>,
    status_command: Option<Seq<char>>,
)
    requires
        is_plain(server_name),
        !has_placeholder(base),
        !names_flag(base, "--session-id"@),
        !names_flag(base, "--append-system-prompt"@),
        !names_flag(base, "--append-system-prompt-file"@),
        !names_flag(base, "--settings"@),
        !base.contains("--dangerously-load-development-channels"@),
        !base.contains("server:"@ + server_name),
    ensures
        launch_line(
            base,
            Some(Cli::ClaudeCode),
            server_name,
            character,
            disabled,
            limited_hook,
            status_command,
        ) == base + seq![
            "--session-id"@,
            "{session_id}"@,
            "--append-system-prompt"@,
            room_prompt(server_name),
            "--dangerously-load-development-channels"@,
            "server:"@ + server_name,
            "--settings"@,
            compact_text(
                Json::Object(
                    settings_entries(
                        given(character),
                        server_name,
                        disabled,
                        limited_hook,
                        status_command,
                    ),
                ),
            ),
        ],
{
    let prompt = room_prompt(server_name);
    let entry = channel_entry(server_name);
    let identified = with_session_id(base, Some(Cli::ClaudeCode));
    reveal_strlit("--session-id");
    reveal_strlit("{session_id}");
    reveal_strlit("--append-system-prompt");
    reveal_strlit("--append-system-prompt-file");
    reveal_strlit("--settings");
    reveal_strlit("--dangerously-load-development-channels");
    reveal_strlit("server:");
    crate::cli::law_the_prompt_of_a_server_name_is_safe(server_name);
    reveal_strlit(
        "You are a participant in a Pullcept room. Terminal output does not reach the room. The only way to be heard there is the tool mcp__",
    );
    assert(identified =~= base + seq!["--session-id"@, "{session_id}"@]);
    let n = base.len() as int;
    lemma_plain_head("--session-id"@);
    lemma_plain_head("{session_id}"@);
    lemma_plain_head("--append-system-prompt"@);
    lemma_plain_head("--dangerously-load-development-channels"@);
    assert forall|i: int| 0 <= i < identified.len() implies head(#[trigger] identified[i])
        != "--append-system-prompt"@ && head(identified[i]) != "--append-system-prompt-file"@ by {
        if i < n {
            assert(identified[i] == base[i]);
        } else if i == n {
            assert(identified[i] == "--session-id"@);
        } else {
            assert(identified[i] == "{session_id}"@);
        }
    }
    let told = with_system_prompt(identified, Some(Cli::ClaudeCode), server_name);
    assert(told =~= base + seq![
        "--session-id"@,
        "{session_id}"@,
        "--append-system-prompt"@,
        prompt,
    ]);
    assert(prompt[0] == 'Y');
    assert(entry[0] == 's');
    assert forall|i: int| 0 <= i < told.len() implies #[trigger] told[i] != entry && told[i]
        != "--dangerously-load-development-channels"@ by {
        if i < n {
            assert(told[i] == base[i]);
            assert(base.contains(base[i]));
        } else if i == n {
            assert(told[i] == "--session-id"@);
            assert("--session-id"@[0] == '-');
        } else if i == n + 1 {
            assert(told[i] == "{session_id}"@);
            assert("{session_id}"@[0] == '{');
        } else if i == n + 2 {
            assert(told[i] == "--append-system-prompt"@);
            assert("--append-system-prompt"@[0] == '-');
        } else {
            assert(told[i] == prompt);
            assert("--dangerously-load-development-channels"@[0] == '-');
        }
    }
    crate::text::lemma_first_at_is(
        told,
        "--dangerously-load-development-channels"@,
        told.len() as int,
    );
    let joined = with_channel(told, server_name);
    assert(joined =~= told.push("--dangerously-load-development-channels"@).push(entry));
    assert(!names_flag(joined, "--settings"@)) by {
        assert forall|i: int| 0 <= i < joined.len() implies head(#[trigger] joined[i])
            != "--settings"@ by {
            lemma_head_start(joined[i], "--settings"@);
            let flag = "--settings"@;
            assert(flag.len() == 10 && flag[0] == '-' && flag[2] == 's' && flag[4] == 't');
            if i < n {
                assert(joined[i] == base[i]);
            } else if i == n {
                assert(joined[i] == "--session-id"@);
            } else if i == n + 1 {
                assert(joined[i] == "{session_id}"@);
            } else if i == n + 2 {
                assert(joined[i] == "--append-system-prompt"@);
            } else if i == n + 3 {
                assert(joined[i] == prompt);
            } else if i == n + 4 {
                assert(joined[i] == "--dangerously-load-development-channels"@);
            } else {
                assert(joined[i] == entry);
            }
        }
    }
    let settings = compact_text(
        Json::Object(
            settings_entries(
                given(character),
                server_name,
                disabled,
                limited_hook,
                status_command,
            ),
        ),
    );
    assert(joined.push("--settings"@).push(settings) =~= base + seq![
        "--session-id"@,
        "{session_id}"@,
        "--append-system-prompt"@,
        prompt,
        "--dangerously-load-development-channels"@,
        entry,
        "--settings"@,
        settings,
    ]);
}

proof fn lemma_plain_head(word: Seq<char>)
    requires
        !word.contains('='),
    ensures
        head(word) == word,
{
    crate::text::lemma_first_at(word, '=');
    let at = crate::text::first_at(word, '=');
    if at < word.len() {
        assert(word.contains(word[at]));
    }
    assert(word.take(word.len() as int) =~= word);
}

/// A word whose head is a flag begins with the flag.
proof fn lemma_head_start(word: Seq<char>, flag: Seq<char>)
    ensures
        head(word) == flag ==> word.len() >= flag.len() && forall|i: int|
            0 <= i < flag.len() ==> #[trigger] flag[i] == word[i],
{
    crate::text::lemma_first_at(word, '=');
    let at = crate::text::first_at(word, '=');
    if head(word) == flag {
        assert(flag =~= word.take(at));
    }
}

/// Settings are put behind the arguments, with their flag before them, wherever there is a
/// character to select or a server to stop, and wherever the arguments bring none of their
/// own. What is put there is read again as what was declared.
pub proof fn law_settings_stand_behind_the_arguments(
    base: &[String],
    character: Option<&str>,
    own_server: &str,
    disabled: &[String],
    limited_hook: Option<&str>,
    status_command: Option<&str>,
    args: Vec<String>,
)
    requires
        settings_launch_args.ensures(
            (base, character, own_server, disabled, limited_hook, status_command),
            args,
        ),
        disabled@.len() > 0 || given(opt_str(character)) is Some || forall|i: int|
            0 <= i < base@.len() ==> head(#[trigger] base@[i]@) != "--settings"@,
    ensures
        args@.len() == base@.len() + 2,
        forall|i: int| 0 <= i < base@.len() ==> (#[trigger] args@[i])@ == base@[i]@,
        args@[base@.len() as int]@ == "--settings"@,
        ({
            let text = args@.last()@;
            let told = parsed(text)->Says_0;
            &&& parsed(text) is Says
            &&& at(told, "enabledMcpjsonServers"@) == Some(
                Json::List(seq![Json::Text(own_server@)]),
            )
            &&& disabled@.len() > 0 ==> {
                let stopped = at(told, "disabledMcpjsonServers"@);
                &&& stopped is Some && stopped->0 is List
                &&& stopped->0->List_0.len() == disabled@.len()
                &&& forall|i: int|
                    0 <= i < disabled@.len() ==> stopped->0->List_0[i] == Json::Text(
                        (#[trigger] disabled@[i])@,
                    )
            }
            &&& disabled@.len() == 0 ==> at(told, "disabledMcpjsonServers"@) is None
            &&& at(told, "outputStyle"@) == match given(opt_str(character)) {
                Some(name) => Some(Json::Text(name)),
                None => None,
            }
            &&& at(told, "hooks"@) == match limited_hook {
                Some(url) => Some(limit_hooks(url@)),
                None => None,
            }
            &&& at(told, "statusLine"@) == match status_command {
                Some(command) => Some(status_line_json(command@)),
                None => None,
            }
        }),
{
    let words = texts(base@);
    let list = texts(disabled@);
    let name = given(opt_str(character));
    assert(words.len() == base@.len());
    assert(list.len() == disabled@.len());
    if names_flag(words, "--settings"@) {
        let i = choose|i: int| 0 <= i < words.len() && head(#[trigger] words[i]) == "--settings"@;
        assert(words[i] == base@[i]@);
    }
    law_settings_declare_what_there_is(
        name,
        own_server@,
        list,
        opt_str(limited_hook),
        opt_str(status_command),
    );
    let all = texts(args@);
    assert(all.len() == args@.len());
    assert forall|i: int| 0 <= i < base@.len() implies (#[trigger] args@[i])@ == base@[i]@ by {
        assert(all[i] == words[i]);
        assert(all[i] == args@[i]@);
    }
    assert(all[words.len() as int] == args@[words.len() as int]@);
}

/// What the room adds to a line before its settings brings no settings of its own.
pub proof fn lemma_joined_brings_no_settings(
    base: Seq<Seq<char>>,
    cli: Option<Cli>,
    server_name: Seq<char>,
)
    requires
        !names_flag(base, SETTINGS_FLAG@),
    ensures
        !names_flag(joined_line(base, cli, server_name), SETTINGS_FLAG@),
{
    reveal_strlit("--session-id");
    reveal_strlit("{session_id}");
    reveal_strlit("--append-system-prompt");
    reveal_strlit("--settings");
    reveal_strlit("--dangerously-load-development-channels");
    reveal_strlit("server:");
    reveal_strlit(
        "You are a participant in a Pullcept room. Terminal output does not reach the room. The only way to be heard there is the tool mcp__",
    );
    let flag = SETTINGS_FLAG@;
    assert(flag.len() == 10 && flag[0] == '-' && flag[2] == 's' && flag[4] == 't');
    let entry = channel_entry(server_name);
    assert(entry[0] == 's');
    assert(room_prompt(server_name)[0] == 'Y');
    let identified = with_session_id(base, cli);
    assert forall|i: int| 0 <= i < identified.len() implies head(#[trigger] identified[i])
        != flag by {
        lemma_head_start(identified[i], flag);
        if i < base.len() {
            assert(identified[i] == base[i]);
        } else if i == base.len() {
            assert(identified[i] == "--session-id"@);
        } else {
            assert(identified[i] == "{session_id}"@);
        }
    }
    let told = with_system_prompt(identified, cli, server_name);
    assert forall|i: int| 0 <= i < told.len() implies head(#[trigger] told[i]) != flag by {
        lemma_head_start(told[i], flag);
        if i < identified.len() {
            assert(told[i] == identified[i]);
        } else if i == identified.len() {
            assert(told[i] == "--append-system-prompt"@);
        } else {
            assert(told[i] == room_prompt(server_name));
        }
    }
    let joined = with_channel(told, server_name);
    let at = crate::text::first_at(told, crate::flags::CHANNEL_FLAG@);
    crate::text::lemma_first_at(told, crate::flags::CHANNEL_FLAG@);
    assert forall|i: int| 0 <= i < joined.len() implies head(#[trigger] joined[i]) != flag by {
        lemma_head_start(joined[i], flag);
        if told.contains(entry) {
            assert(joined[i] == told[i]);
        } else if at < told.len() {
            if i <= at {
                assert(joined[i] == told[i]);
            } else if i == at + 1 {
                assert(joined[i] == entry);
            } else {
                assert(joined[i] == told[i - 1]);
            }
        } else {
            if i < told.len() {
                assert(joined[i] == told[i]);
            } else if i == told.len() {
                assert(joined[i] == "--dangerously-load-development-channels"@);
            } else {
                assert(joined[i] == entry);
            }
        }
    }
}

/// Arguments that bring settings of their own stay as they are where there is no character to
/// select and no server to stop.
pub proof fn law_a_persons_own_settings_stand(
    base: &[String],
    character: Option<&str>,
    own_server: &str,
    disabled: &[String],
    limited_hook: Option<&str>,
    status_command: Option<&str>,
    args: Vec<String>,
    i: int,
)
    requires
        settings_launch_args.ensures(
            (base, character, own_server, disabled, limited_hook, status_command),
            args,
        ),
        disabled@.len() == 0,
        character is None || trimmed(character->0@).len() == 0,
        0 <= i < base@.len(),
        head(base@[i]@) == "--settings"@,
    ensures
        texts(args@) == texts(base@),
{
    let words = texts(base@);
    assert(words.len() == base@.len());
    assert(words[i] == base@[i]@);
    assert(texts(disabled@).len() == 0);
}

} // verus!
