//! The saved accounts: who can be put into a room, and how they are launched.

use vstd::prelude::*;
use vstd::string::*;

use crate::cli::{cli_named, Cli};
use crate::flags::dropped;
use crate::json::{at, json_of, parse, parsed, text_list, text_value, Json, Reading};
use crate::migrate::{
    account_moved, accounts_key, cli_of_account, config_moved, kinds_are_new, kinds_of,
    migrate_account_kinds, moved, texts_in, undecided, with_accounts,
};
use crate::text::trimmed;

verus! {

/// What is behind an account.
#[derive(Debug, Clone, Copy, PartialEq, Eq, Structural)]
pub enum AccountKind {
    /// A person. Nothing is launched.
    User,
    /// A session of the CLI whose conventions this app knows.
    ClaudeCode,
    /// A session of some CLI this app knows no conventions of.
    Cli,
}

impl Default for AccountKind {
    fn default() -> (kind: Self)
        ensures
            kind == AccountKind::Cli,
    {
        AccountKind::Cli
    }
}

/// The CLI that a kind names.
pub open spec fn cli_of_kind(kind: AccountKind) -> Option<Cli> {
    match kind {
        AccountKind::ClaudeCode => Some(Cli::ClaudeCode),
        AccountKind::User | AccountKind::Cli => None,
    }
}

/// How a kind is stored.
pub open spec fn kind_word(kind: AccountKind) -> Seq<char> {
    match kind {
        AccountKind::User => "user"@,
        AccountKind::ClaudeCode => "claude_code"@,
        AccountKind::Cli => "cli"@,
    }
}

/// The kind that names a CLI, or none.
pub open spec fn kind_naming(cli: Option<Cli>) -> AccountKind {
    match cli {
        Some(Cli::ClaudeCode) => AccountKind::ClaudeCode,
        None => AccountKind::Cli,
    }
}

impl AccountKind {
    /// The CLI this kind names, or `None` when it names none.
    pub fn cli(self) -> (res: Option<Cli>)
        ensures
            res == cli_of_kind(self),
    {
        match self {
            AccountKind::ClaudeCode => Some(Cli::ClaudeCode),
            _ => None,
        }
    }
}

/// One account.
#[derive(Debug, Clone)]
pub struct Account {
    pub id: String,
    pub name: String,
    pub command: String,
    pub args: Vec<String>,
    pub cwd: Option<String>,
    pub hue: Option<serde_json::Number>,
    pub kind: AccountKind,
    pub character: Option<String>,
    pub resume_command: Option<String>,
}

/// Which panels are open.
#[derive(Debug, Clone, Copy, PartialEq, Eq, Structural)]
pub struct PanelState {
    pub history: bool,
    pub participants: bool,
}

impl Default for PanelState {
    fn default() -> (panels: Self)
        ensures
            panels == (PanelState { history: true, participants: true }),
    {
        PanelState { history: true, participants: true }
    }
}

/// Everything that is saved.
#[derive(Debug, Clone)]
pub struct AppConfig {
    pub accounts: Vec<Account>,
    pub panels: PanelState,
}

/// The account that a first run begins with: a name, and the command it launches.
pub open spec fn is_first_account(account: Account, name: Seq<char>, command: Seq<char>) -> bool {
    &&& account.id@ == "account-1"@
    &&& account.name@ == name
    &&& account.command@ == command
    &&& account.args@.len() == 0
    &&& account.cwd is None
    &&& account.hue is None
    &&& account.kind == AccountKind::ClaudeCode
    &&& account.character is None
    &&& account.resume_command is None
}

/// What a first run begins with. Which program that is, and what its account is called, is
/// the caller's to say.
pub fn first_config(name: &str, command: &str) -> (config: AppConfig)
    ensures
        config.accounts@.len() == 1,
        is_first_account(config.accounts@[0], name@, command@),
        config.panels == (PanelState { history: true, participants: true }),
{
    let mut accounts: Vec<Account> = Vec::new();
    accounts.push(
        Account {
            id: "account-1".to_owned(),
            name: name.to_owned(),
            command: command.to_owned(),
            args: Vec::new(),
            cwd: None,
            hue: None,
            kind: AccountKind::ClaudeCode,
            character: None,
            resume_command: None,
        },
    );
    AppConfig { accounts, panels: PanelState::default() }
}

/// One message of a saved chat.
#[derive(Debug, Clone)]
pub struct SavedChatMessage {
    pub role: String,
    pub content_type: String,
    pub body: String,
}

/// One saved chat.
#[derive(Debug, Clone)]
pub struct SessionData {
    pub id: String,
    pub name: String,
    pub messages: Vec<SavedChatMessage>,
}

/// The chats of one tab.
#[derive(Debug, Clone)]
pub struct TabSessions {
    pub tab_id: String,
    pub active_session_id: Option<String>,
    pub sessions: Vec<SessionData>,
}

/// The kind every launched account carried while there was one of them.
pub const LEGACY_LAUNCHED_KIND: &'static str = "ai";

/// A kind as it is stored.
pub fn kind_value(kind: AccountKind) -> (value: serde_json::Value)
    ensures
        json_of(value) == Json::Text(kind_word(kind)),
{
    match kind {
        AccountKind::User => text_value("user"),
        AccountKind::ClaudeCode => text_value("claude_code"),
        AccountKind::Cli => text_value("cli"),
    }
}

/// The kind that names a CLI, or none, as it is stored.
pub fn kind_of_cli(cli: Option<Cli>) -> (value: serde_json::Value)
    ensures
        json_of(value) == Json::Text(kind_word(kind_naming(cli))),
{
    match cli {
        Some(Cli::ClaudeCode) => kind_value(AccountKind::ClaudeCode),
        None => kind_value(AccountKind::Cli),
    }
}

/// The values that stand for a CLI, or none.
pub open spec fn stored_kinds() -> spec_fn(Option<Cli>, Json) -> bool {
    |cli: Option<Cli>, kind: Json| kind == Json::Text(kind_word(kind_naming(cli)))
}

/// Read a saved config and give its accounts their kinds.
pub fn migrated_config(program: &str, content: &str) -> (res: Result<serde_json::Value, String>)
    ensures
        match (res, parsed(content@)) {
            (Ok(root), Reading::Says(json)) => config_moved(
                program@,
                json,
                json_of(root),
                LEGACY_LAUNCHED_KIND@,
                stored_kinds(),
            ),
            (Err(message), Reading::Fails(why)) => message@ == "Failed to parse config: "@ + why,
            _ => false,
        },
{
    match parse(content) {
        Ok(mut root) => {
            let ghost before = json_of(root);
            migrate_account_kinds(&mut root, program, LEGACY_LAUNCHED_KIND, kind_of_cli);
            proof {
                lemma_stored_kinds(program@, before, json_of(root));
            }
            Ok(root)
        },
        Err(why) => {
            let mut message: String = "Failed to parse config: ".to_owned();
            message.append(why.as_str());
            Err(message)
        },
    }
}

proof fn lemma_stored_kinds(program: Seq<char>, before: Json, after: Json)
    requires
        config_moved(program, before, after, LEGACY_LAUNCHED_KIND@, kinds_of(kind_of_cli)),
    ensures
        config_moved(program, before, after, LEGACY_LAUNCHED_KIND@, stored_kinds()),
{
    let kinds = kinds_of(kind_of_cli);
    let stored = stored_kinds();
    assert forall|cli: Option<Cli>, kind: Json| #[trigger] kinds(cli, kind) implies stored(
        cli,
        kind,
    ) by {}
    crate::migrate::lemma_same_kinds(
        program,
        before,
        after,
        LEGACY_LAUNCHED_KIND@,
        kinds,
        stored,
    );
}

/// No kind is stored as the one that was replaced, so a config that was migrated stays as
/// it is when it is read again.
pub proof fn law_stored_kinds_are_new()
    ensures
        kinds_are_new(LEGACY_LAUNCHED_KIND@, stored_kinds()),
{
    reveal_strlit("ai");
    reveal_strlit("user");
    reveal_strlit("claude_code");
    reveal_strlit("cli");
    assert("ai"@.len() == 2);
    assert("claude_code"@.len() == 11);
    assert("cli"@.len() == 3);
}

/// What an account of an older config becomes: one without a kind, or with the kind that the
/// split replaced, is given the kind that its command names. Where it names the CLI, its
/// resume line goes, and so does the session id from its options; where it does not, it keeps
/// both. Every other account stays as it is.
pub open spec fn given_its_kind(program: Seq<char>, before: Json, after: Json) -> bool {
    let text = |key: Seq<char>| at(before, key) is Some && at(before, key)->0 is Text;
    let word = |key: Seq<char>| at(before, key)->0->Text_0;
    let command = if text("command"@) {
        word("command"@)
    } else {
        Seq::empty()
    };
    let names = cli_named(program, command) is Some && (!text("resume_command"@) || trimmed(
        word("resume_command"@),
    ).len() == 0 || trimmed(word("resume_command"@)) == program + " --resume {session_id}"@);
    let args = at(before, "args"@);
    if before is Object && (!text("kind"@) || word("kind"@) == "ai"@) {
        &&& after is Object
        &&& at(after, "kind"@) == Some(
            Json::Text(
                if names {
                    "claude_code"@
                } else {
                    "cli"@
                },
            ),
        )
        &&& names ==> at(after, "resume_command"@) == Some(Json::Null)
        &&& names && args is Some && args->0 is List && (forall|i: int|
            0 <= i < args->0->List_0.len() ==> (#[trigger] args->0->List_0[i]) is Text) ==> at(
            after,
            "args"@,
        ) == Some(
            text_list(
                dropped(
                    args->0->List_0.map_values(|item: Json| item->Text_0),
                    "--session-id"@,
                ),
            ),
        )
        &&& names && (args is None || !(args->0 is List) || exists|i: int|
            0 <= i < args->0->List_0.len() && !((#[trigger] args->0->List_0[i]) is Text)) ==> at(
            after,
            "args"@,
        ) == args
        &&& !names ==> at(after, "resume_command"@) == at(before, "resume_command"@) && at(
            after,
            "args"@,
        ) == args
    } else {
        after == before
    }
}

proof fn lemma_given_its_kind(program: Seq<char>, before: Json, after: Json)
    requires
        account_moved(program, before, after, "ai"@, stored_kinds()),
    ensures
        given_its_kind(program, before, after),
{
    reveal_strlit("kind");
    reveal_strlit("resume_command");
    reveal_strlit("args");
    reveal_strlit("command");
    assert("kind"@.len() == 4 && "kind"@[0] == 'k');
    assert("args"@.len() == 4 && "args"@[0] == 'a');
    assert("resume_command"@.len() == 14);
    assert("command"@.len() == 7);
    if undecided(before, "ai"@) {
        let kinds = stored_kinds();
        let account = before->Object_0;
        let kind = choose|kind: Json|
            kinds(cli_of_account(program, account), kind) && after == Json::Object(
                #[trigger] moved(program, account, kind),
            );
        assert(Json::Object(account) == before);
        let args = at(before, "args"@);
        if args is Some && args->0 is List {
            let items = args->0->List_0;
            assert(texts_in(items) =~= items.map_values(|item: Json| item->Text_0));
        }
    }
}

/// Reading an older config gives each of its accounts its kind, in place, and changes nothing
/// else of it. The accounts are under their own key, or under the one they had before.
pub proof fn law_an_older_config_is_given_its_kinds(
    program: &str,
    content: &str,
    res: Result<serde_json::Value, String>,
    key: Seq<char>,
    other: Seq<char>,
    i: int,
)
    requires
        migrated_config.ensures((program, content), res),
        parsed(content@) is Says,
        key == if at(parsed(content@)->Says_0, "accounts"@) is Some {
            "accounts"@
        } else {
            "tabs"@
        },
        other != key,
    ensures
        res is Ok,
        ({
            let before = parsed(content@)->Says_0;
            let after = json_of(res->Ok_0);
            let accounts = at(before, key)->0->List_0;
            let now = at(after, key)->0->List_0;
            &&& at(after, other) == at(before, other)
            &&& at(before, key) is Some && at(before, key)->0 is List ==> {
                &&& at(after, key) is Some && at(after, key)->0 is List
                &&& now.len() == accounts.len()
                &&& 0 <= i < now.len() ==> given_its_kind(program@, accounts[i], now[i])
            }
            &&& at(before, key) is None || !(at(before, key)->0 is List) ==> after == before
        }),
{
    let before = parsed(content@)->Says_0;
    let after = json_of(res->Ok_0);
    assert(accounts_key(before) == key);
    if at(before, key) is Some && at(before, key)->0 is List {
        let accounts = at(before, key)->0->List_0;
        let kinds = stored_kinds();
        let now = choose|now: Seq<Json>|
            {
                &&& now.len() == accounts.len()
                &&& forall|i: int|
                    0 <= i < now.len() ==> account_moved(
                        program@,
                        accounts[i],
                        #[trigger] now[i],
                        LEGACY_LAUNCHED_KIND@,
                        kinds,
                    )
                &&& after == #[trigger] with_accounts(before, now)
            };
        if 0 <= i < now.len() {
            assert(account_moved(program@, accounts[i], now[i], LEGACY_LAUNCHED_KIND@, kinds));
            lemma_given_its_kind(program@, accounts[i], now[i]);
        }
    }
}

/// A first run begins with one account of the kind that names the CLI, under the name and
/// with the command that were given, and with both panels open. A kind names the CLI exactly
/// where it is that one, and each kind is stored under a word of its own.
pub proof fn law_what_a_first_run_begins_with(
    name: &str,
    command: &str,
    config: AppConfig,
    kind: AccountKind,
    cli: Option<Cli>,
    stored: serde_json::Value,
)
    requires
        first_config.ensures((name, command), config),
        AccountKind::cli.ensures((kind,), cli),
        kind_value.ensures((kind,), stored),
    ensures
        config.accounts@.len() == 1,
        config.accounts@[0].id@ == "account-1"@,
        config.accounts@[0].name@ == name@,
        config.accounts@[0].command@ == command@,
        config.accounts@[0].args@.len() == 0,
        config.accounts@[0].cwd is None,
        config.accounts@[0].hue is None,
        config.accounts@[0].kind == AccountKind::ClaudeCode,
        config.accounts@[0].character is None,
        config.accounts@[0].resume_command is None,
        config.panels.history,
        config.panels.participants,
        cli is Some <==> kind == AccountKind::ClaudeCode,
        json_of(stored) == Json::Text("user"@) <==> kind == AccountKind::User,
        json_of(stored) == Json::Text("claude_code"@) <==> kind == AccountKind::ClaudeCode,
        json_of(stored) == Json::Text("cli"@) <==> kind == AccountKind::Cli,
{
    reveal_strlit("user");
    reveal_strlit("claude_code");
    reveal_strlit("cli");
    assert("user"@.len() == 4);
    assert("claude_code"@.len() == 11);
    assert("cli"@.len() == 3);
}

/// A config that cannot be read is refused with what is wrong with it. An account that says
/// nothing of its kind is one of no CLI that is known, and both panels are open where nothing
/// is said of them.
pub proof fn law_why_a_config_is_refused(
    program: &str,
    content: &str,
    res: Result<serde_json::Value, String>,
    kind: AccountKind,
    cli: Option<Cli>,
    stored: serde_json::Value,
    panels: PanelState,
)
    requires
        PanelState::default.ensures((), panels),
        migrated_config.ensures((program, content), res),
        AccountKind::default.ensures((), kind),
        kind_of_cli.ensures((cli,), stored),
    ensures
        res is Err <==> parsed(content@) is Fails,
        res is Err ==> res->Err_0@ == "Failed to parse config: "@ + parsed(content@)->Fails_0,
        kind == AccountKind::Cli,
        cli is Some ==> json_of(stored) == Json::Text("claude_code"@),
        cli is None ==> json_of(stored) == Json::Text("cli"@),
        panels.history && panels.participants,
{
}

} // verus!
