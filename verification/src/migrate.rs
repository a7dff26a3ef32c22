//! Giving the accounts of a saved config the kind their launch command names.

use vstd::prelude::*;
use vstd::string::*;

use crate::cli::{cli_migrated, id_convention, migrated_cli, Cli};
use crate::flags::dropped;
use crate::json::{
    as_text, at, close, entries_of, entry, json_of, jsons, look, open, put_value, text_in,
    text_list, texts_value, Glimpse, Json, Node,
};
use crate::text::{same_text, texts};

verus! {

// ---------------------------------------------------------------------------
// What a migration leaves
// ---------------------------------------------------------------------------

/// What stands under a key of some entries.
pub open spec fn under(entries: Map<Seq<char>, Json>, key: Seq<char>) -> Option<Json> {
    at(Json::Object(entries), key)
}

/// Whether every item of a list is a text.
pub open spec fn all_texts(items: Seq<Json>) -> bool {
    forall|i: int| 0 <= i < items.len() ==> (#[trigger] items[i]) is Text
}

/// The texts of a list of texts.
pub open spec fn texts_in(items: Seq<Json>) -> Seq<Seq<char>> {
    items.map_values(|item: Json| item->Text_0)
}

/// The CLI that an account's command and resume line name.
pub open spec fn cli_of_account(program: Seq<char>, account: Map<Seq<char>, Json>) -> Option<Cli> {
    cli_migrated(
        program,
        match as_text(under(account, "command"@)) {
            Some(command) => command,
            None => Seq::empty(),
        },
        as_text(under(account, "resume_command"@)),
    )
}

/// An account moved onto a kind. One that names a CLI loses its resume line, which the
/// kind holds now, and the CLI's own session-id argument, where its options are all
/// texts; one that names none keeps every field.
pub open spec fn moved(program: Seq<char>, account: Map<Seq<char>, Json>, kind: Json) -> Map<
    Seq<char>,
    Json,
> {
    let named = account.insert("kind"@, kind);
    match cli_of_account(program, account) {
        None => named,
        Some(cli) => {
            let cleared = named.insert("resume_command"@, Json::Null);
            match under(account, "args"@) {
                Some(Json::List(items)) => if all_texts(items) {
                    cleared.insert(
                        "args"@,
                        text_list(dropped(texts_in(items), id_convention(cli)[0])),
                    )
                } else {
                    cleared
                },
                _ => cleared,
            }
        },
    }
}

/// Whether an account is one to move: an object that declares no kind, or the one value
/// that the split replaced.
pub open spec fn undecided(account: Json, legacy_kind: Seq<char>) -> bool {
    account is Object && (as_text(at(account, "kind"@)) is None || as_text(at(account, "kind"@))
        == Some(legacy_kind))
}

/// What an account becomes, where `kinds` says which value stands for a CLI or for none.
pub open spec fn account_moved(
    program: Seq<char>,
    before: Json,
    after: Json,
    legacy_kind: Seq<char>,
    kinds: spec_fn(Option<Cli>, Json) -> bool,
) -> bool {
    if undecided(before, legacy_kind) {
        exists|kind: Json|
            kinds(cli_of_account(program, before->Object_0), kind) && after == Json::Object(
                #[trigger] moved(program, before->Object_0, kind),
            )
    } else {
        after == before
    }
}

/// The key that a config keeps its accounts under.
pub open spec fn accounts_key(root: Json) -> Seq<char> {
    if at(root, "accounts"@) is Some {
        "accounts"@
    } else {
        "tabs"@
    }
}

/// A config with other accounts.
pub open spec fn with_accounts(root: Json, accounts: Seq<Json>) -> Json {
    Json::Object(root->Object_0.insert(accounts_key(root), Json::List(accounts)))
}

/// What a config becomes: each of its accounts moved, in place, and nothing else changed.
pub open spec fn config_moved(
    program: Seq<char>,
    before: Json,
    after: Json,
    legacy_kind: Seq<char>,
    kinds: spec_fn(Option<Cli>, Json) -> bool,
) -> bool {
    match at(before, accounts_key(before)) {
        Some(Json::List(accounts)) => exists|now: Seq<Json>|
            {
                &&& now.len() == accounts.len()
                &&& forall|i: int|
                    0 <= i < now.len() ==> account_moved(program, 
                        accounts[i],
                        #[trigger] now[i],
                        legacy_kind,
                        kinds,
                    )
                &&& after == #[trigger] with_accounts(before, now)
            },
        _ => after == before,
    }
}

/// The values that a function from CLIs to kinds gives.
pub open spec fn kinds_of<F: Fn(Option<Cli>) -> serde_json::Value>(kind_value: F) -> spec_fn(
    Option<Cli>,
    Json,
) -> bool {
    |cli: Option<Cli>, kind: Json|
        exists|value: serde_json::Value|
            kind_value.ensures((cli,), value) && #[trigger] json_of(value) == kind
}

// ---------------------------------------------------------------------------
// The migration
// ---------------------------------------------------------------------------

/// Give every account in a saved config that carries no declared kind the kind its
/// launch command names, and move the fields that go with it.
///
/// `program` is the name of the program whose conventions are known, `legacy_kind` the
/// value every launched account carried while there was one of them, and `kind_value` turns a CLI, or none, into the value that is stored.
pub fn migrate_account_kinds<F: Fn(Option<Cli>) -> serde_json::Value>(
    root: &mut serde_json::Value,
    program: &str,
    legacy_kind: &str,
    kind_value: F,
)
    requires
        forall|cli: Option<Cli>| kind_value.requires((cli,)),
    ensures
        config_moved(program@, 
            json_of(*old(root)),
            json_of(*final(root)),
            legacy_kind@,
            kinds_of(kind_value),
        ),
{
    let ghost before = json_of(*root);
    let mut held = close(Node::Null);
    core::mem::swap(root, &mut held);
    match open(held) {
        Node::Object(mut object) => {
            let key: &str = if entry(&object, "accounts").is_some() {
                "accounts"
            } else {
                "tabs"
            };
            match crate::json::take(&mut object, key) {
                Some(value) => match open(value) {
                    Node::List(accounts) => {
                        let now = migrate_accounts(accounts, program, legacy_kind, &kind_value);
                        put_value(&mut object, key, crate::json::list_value(now));
                        proof {
                            assert(entries_of(object) =~= before->Object_0.insert(
                                accounts_key(before),
                                Json::List(jsons(now@)),
                            ));
                            assert(Json::Object(entries_of(object)) == with_accounts(
                                before,
                                jsons(now@),
                            ));
                        }
                    },
                    other => {
                        put_value(&mut object, key, close(other));
                        proof {
                            assert(entries_of(object) =~= before->Object_0);
                        }
                    },
                },
                None => {
                    proof {
                        assert(entries_of(object) =~= before->Object_0);
                    }
                },
            }
            *root = close(Node::Object(object));
        },
        other => {
            *root = close(other);
        },
    }
}

fn migrate_accounts<F: Fn(Option<Cli>) -> serde_json::Value>(
    accounts: Vec<serde_json::Value>,
    program: &str,
    legacy_kind: &str,
    kind_value: &F,
) -> (now: Vec<serde_json::Value>)
    requires
        forall|cli: Option<Cli>| kind_value.requires((cli,)),
    ensures
        jsons(now@).len() == jsons(accounts@).len(),
        forall|i: int|
            0 <= i < jsons(now@).len() ==> account_moved(program@, 
                jsons(accounts@)[i],
                #[trigger] jsons(now@)[i],
                legacy_kind@,
                kinds_of(*kind_value),
            ),
{
    let mut now: Vec<serde_json::Value> = Vec::new();
    let ghost all = accounts@;
    let mut rest = accounts;
    while rest.len() > 0
        invariant
            forall|cli: Option<Cli>| kind_value.requires((cli,)),
            now@.len() + rest@.len() == all.len(),
            rest@ == all.skip(now@.len() as int),
            forall|i: int|
                0 <= i < now@.len() ==> account_moved(program@, 
                    json_of(all[i]),
                    json_of(#[trigger] now@[i]),
                    legacy_kind@,
                    kinds_of(*kind_value),
                ),
        decreases rest@.len(),
    {
        let ghost k = now@.len() as int;
        let item = rest.remove(0);
        proof {
            assert(item == all[k]);
            assert(rest@ =~= all.skip(k + 1));
        }
        now.push(migrate_account(item, program, legacy_kind, kind_value));
    }
    now
}

fn migrate_account<F: Fn(Option<Cli>) -> serde_json::Value>(
    item: serde_json::Value,
    program: &str,
    legacy_kind: &str,
    kind_value: &F,
) -> (now: serde_json::Value)
    requires
        forall|cli: Option<Cli>| kind_value.requires((cli,)),
    ensures
        account_moved(program@, json_of(item), json_of(now), legacy_kind@, kinds_of(*kind_value)),
{
    match open(item) {
        Node::Object(mut account) => {
            let declared = match text_in(entry(&account, "kind")) {
                Some(kind) => !same_text(kind, legacy_kind),
                None => false,
            };
            if !declared {
                migrate_one_account(&mut account, program, kind_value);
            }
            close(Node::Object(account))
        },
        other => close(other),
    }
}

fn migrate_one_account<F: Fn(Option<Cli>) -> serde_json::Value>(
    account: &mut serde_json::Map<String, serde_json::Value>,
    program: &str,
    kind_value: &F,
)
    requires
        forall|cli: Option<Cli>| kind_value.requires((cli,)),
    ensures
        exists|kind: Json|
            (kinds_of(*kind_value))(cli_of_account(program@, entries_of(*old(account))), kind) && entries_of(
                *final(account),
            ) == #[trigger] moved(program@, entries_of(*old(account)), kind),
{
    let ghost before = entries_of(*account);
    let command: &str = match text_in(entry(account, "command")) {
        Some(command) => command,
        None => "",
    };
    let resume = text_in(entry(account, "resume_command"));
    proof {
        reveal_strlit("");
        assert(""@ =~= Seq::<char>::empty());
    }
    let named = migrated_cli(program, command, resume);
    let value = (*kind_value)(named);
    let ghost kind = json_of(value);
    proof {
        assert(named == cli_of_account(program@, before));
        assert((kinds_of(*kind_value))(named, kind));
    }
    match named {
        None => {
            put_value(account, "kind", value);
            proof {
                assert(entries_of(*account) == moved(program@, before, kind));
            }
        },
        Some(cli) => {
            let kept = match entry(account, "args") {
                Some(args) => match look(args) {
                    Glimpse::List(items) => match own_words(items) {
                        Some(own) => Some(cli.without_session_id_args(own.as_slice())),
                        None => None,
                    },
                    _ => None,
                },
                None => None,
            };
            put_value(account, "kind", value);
            put_value(account, "resume_command", close(Node::Null));
            if let Some(kept) = kept {
                put_value(account, "args", texts_value(kept.as_slice()));
            }
            proof {
                assert(entries_of(*account) == moved(program@, before, kind));
            }
        },
    }
}

/// The texts of a list, where all of it is texts.
fn own_words(items: &Vec<serde_json::Value>) -> (res: Option<Vec<String>>)
    ensures
        match res {
            Some(own) => all_texts(jsons(items@)) && texts(own@) == texts_in(jsons(items@)),
            None => !all_texts(jsons(items@)),
        },
{
    let mut own: Vec<String> = Vec::new();
    let mut i: usize = 0;
    while i < items.len()
        invariant
            i <= items@.len(),
            own@.len() == i,
            forall|j: int| 0 <= j < i ==> json_of(#[trigger] items@[j]) == Json::Text(own@[j]@),
        decreases items@.len() - i,
    {
        match look(&items[i]) {
            Glimpse::Text(text) => {
                own.push(text.to_owned());
            },
            _ => {
                proof {
                    assert(!(jsons(items@)[i as int] is Text));
                }
                return None;
            },
        }
        i = i + 1;
    }
    proof {
        assert forall|j: int| 0 <= j < jsons(items@).len() implies (#[trigger] jsons(
            items@,
        )[j]) is Text by {
            assert(jsons(items@)[j] == json_of(items@[j]));
        }
        assert forall|j: int| 0 <= j < own@.len() implies texts(own@)[j] == texts_in(
            jsons(items@),
        )[j] by {
            assert(jsons(items@)[j] == json_of(items@[j]));
        }
        assert(texts(own@) =~= texts_in(jsons(items@)));
    }
    Some(own)
}

// ---------------------------------------------------------------------------
// Laws
// ---------------------------------------------------------------------------

/// Whether every kind that is stored is a text other than the one that was replaced.
pub open spec fn kinds_are_new(
    legacy_kind: Seq<char>,
    kinds: spec_fn(Option<Cli>, Json) -> bool,
) -> bool {
    forall|cli: Option<Cli>, kind: Json| #[trigger]
        kinds(cli, kind) ==> kind is Text && kind->Text_0 != legacy_kind
}

proof fn lemma_keys()
    ensures
        "kind"@ != "resume_command"@,
        "kind"@ != "args"@,
        "kind"@ != "command"@,
        "resume_command"@ != "args"@,
        "accounts"@ != "tabs"@,
{
    reveal_strlit("kind");
    reveal_strlit("resume_command");
    reveal_strlit("args");
    reveal_strlit("command");
    reveal_strlit("accounts");
    reveal_strlit("tabs");
    assert("kind"@.len() == 4);
    assert("resume_command"@.len() == 14);
    assert("args"@.len() == 4);
    assert("args"@[0] == 'a');
    assert("kind"@[0] == 'k');
    assert("command"@.len() == 7);
    assert("accounts"@.len() == 8);
    assert("tabs"@.len() == 4);
}

/// What a migration leaves under some kinds it leaves under any that allow those.
pub proof fn lemma_same_kinds(
    program: Seq<char>,
    before: Json,
    after: Json,
    legacy_kind: Seq<char>,
    kinds: spec_fn(Option<Cli>, Json) -> bool,
    wider: spec_fn(Option<Cli>, Json) -> bool,
)
    requires
        config_moved(program, before, after, legacy_kind, kinds),
        forall|cli: Option<Cli>, kind: Json| #[trigger] kinds(cli, kind) ==> wider(cli, kind),
    ensures
        config_moved(program, before, after, legacy_kind, wider),
{
    if let Some(Json::List(accounts)) = at(before, accounts_key(before)) {
        let now = choose|now: Seq<Json>|
            {
                &&& now.len() == accounts.len()
                &&& forall|i: int|
                    0 <= i < now.len() ==> account_moved(program, 
                        accounts[i],
                        #[trigger] now[i],
                        legacy_kind,
                        kinds,
                    )
                &&& after == #[trigger] with_accounts(before, now)
            };
        assert forall|i: int| 0 <= i < now.len() implies account_moved(program, 
            accounts[i],
            #[trigger] now[i],
            legacy_kind,
            wider,
        ) by {
            assert(account_moved(program, accounts[i], now[i], legacy_kind, kinds));
            if undecided(accounts[i], legacy_kind) {
                let kind = choose|kind: Json|
                    kinds(cli_of_account(program, accounts[i]->Object_0), kind) && now[i] == Json::Object(
                        #[trigger] moved(program, accounts[i]->Object_0, kind),
                    );
                assert(wider(cli_of_account(program, accounts[i]->Object_0), kind));
            }
        }
        assert(after == with_accounts(before, now));
    }
}

/// An account that declares a kind is left alone, and so is one that is not an object.
pub proof fn law_a_declared_kind_stands(
    program: Seq<char>,
    before: Json,
    after: Json,
    kind: Seq<char>,
    legacy_kind: Seq<char>,
    kinds: spec_fn(Option<Cli>, Json) -> bool,
)
    requires
        account_moved(program, before, after, legacy_kind, kinds),
        !(before is Object) || as_text(at(before, "kind"@)) == Some(kind),
        before is Object ==> kind != legacy_kind,
    ensures
        after == before,
{
}

/// An account moves its kind, its resume line and its options, and no other field.
pub proof fn law_other_fields_do_not_move(
    program: Seq<char>,
    before: Json,
    after: Json,
    key: Seq<char>,
    legacy_kind: Seq<char>,
    kinds: spec_fn(Option<Cli>, Json) -> bool,
)
    requires
        account_moved(program, before, after, legacy_kind, kinds),
        key != "kind"@,
        key != "resume_command"@,
        key != "args"@,
    ensures
        at(after, key) == at(before, key),
{
}

/// Migrating a config twice is migrating it once.
pub proof fn law_migrating_twice_changes_nothing(
    program: Seq<char>,
    first: Json,
    second: Json,
    third: Json,
    legacy_kind: Seq<char>,
    kinds: spec_fn(Option<Cli>, Json) -> bool,
)
    requires
        kinds_are_new(legacy_kind, kinds),
        config_moved(program, first, second, legacy_kind, kinds),
        config_moved(program, second, third, legacy_kind, kinds),
    ensures
        third == second,
{
    lemma_keys();
    if let Some(Json::List(accounts)) = at(first, accounts_key(first)) {
        let key = accounts_key(first);
        let now = choose|now: Seq<Json>|
            {
                &&& now.len() == accounts.len()
                &&& forall|i: int|
                    0 <= i < now.len() ==> account_moved(program, 
                        accounts[i],
                        #[trigger] now[i],
                        legacy_kind,
                        kinds,
                    )
                &&& second == #[trigger] with_accounts(first, now)
            };
        assert(accounts_key(second) == key);
        assert(at(second, key) == Some(Json::List(now)));
        let again = choose|again: Seq<Json>|
            {
                &&& again.len() == now.len()
                &&& forall|i: int|
                    0 <= i < again.len() ==> account_moved(program, 
                        now[i],
                        #[trigger] again[i],
                        legacy_kind,
                        kinds,
                    )
                &&& third == #[trigger] with_accounts(second, again)
            };
        assert forall|i: int| 0 <= i < now.len() implies again[i] == now[i] by {
            assert(account_moved(program, accounts[i], now[i], legacy_kind, kinds));
            assert(account_moved(program, now[i], again[i], legacy_kind, kinds));
            if undecided(accounts[i], legacy_kind) {
                let kind = choose|kind: Json|
                    kinds(cli_of_account(program, accounts[i]->Object_0), kind) && now[i] == Json::Object(
                        #[trigger] moved(program, accounts[i]->Object_0, kind),
                    );
                assert(at(now[i], "kind"@) == Some(kind));
            }
        }
        assert(again =~= now);
        assert(third->Object_0 =~= second->Object_0);
    }
}

} // verus!
