use pullcept::cli::Cli;
use pullcept::config::migrated_config;
use pullcept::migrate::migrate_account_kinds;
use serde_json::Value;

fn kind_of_cli(cli: Option<Cli>) -> Value {
    match cli {
        Some(Cli::ClaudeCode) => Value::from("claude_code"),
        None => Value::from("cli"),
    }
}

fn migrated(raw: &str) -> Value {
    let mut root: Value = serde_json::from_str(raw).expect("valid JSON");
    migrate_account_kinds(&mut root, "helm", "ai", kind_of_cli);
    root
}


#[test]
fn an_account_saved_before_the_split_moves_onto_the_kind_of_its_command() {
    let root = migrated(
        r#"{"accounts":[{
            "id":"a","name":"Agent Lay","command":"helm",
            "args":["--dangerously-skip-permissions","--session-id","{session_id}"],
            "cwd":"C:\\Users\\smile\\Notes","hue":250.0,"kind":"ai",
            "character":"character_Lay","resume_command":"helm --resume {session_id}"
        }]}"#,
    );
    let account = &root["accounts"][0];
    assert_eq!(account["kind"], Value::from("claude_code"));
    assert_eq!(account["resume_command"], Value::Null);
    assert_eq!(account["args"], Value::from(vec!["--dangerously-skip-permissions"]));
    assert_eq!(account["character"], Value::from("character_Lay"));
    assert_eq!(account["hue"], Value::from(250.0));
    assert_eq!(account["cwd"], Value::from(r"C:\Users\smile\Notes"));
}

#[test]
fn an_account_with_its_own_way_back_keeps_every_field_it_arrived_with() {
    let root = migrated(
        r#"{"accounts":[{
            "id":"b","command":"helm","args":["--session-id","{session_id}"],
            "kind":"ai","resume_command":"helm --resume {session_id} --verbose"
        }]}"#,
    );
    let account = &root["accounts"][0];
    assert_eq!(account["kind"], Value::from("cli"));
    assert_eq!(
        account["resume_command"],
        Value::from("helm --resume {session_id} --verbose")
    );
    assert_eq!(account["args"], Value::from(vec!["--session-id", "{session_id}"]));
}

#[test]
fn only_the_accounts_that_declared_no_kind_of_their_own_are_moved() {
    let root = migrated(
        r#"{"accounts":[
            {"id":"person","command":"helm","args":[],"kind":"user","resume_command":null},
            {"id":"declared","command":"helm","args":[],"kind":"cli","resume_command":"mine"},
            {"id":"absent","command":"helm","args":["--session-id={session_id}"]},
            {"id":"unknown","command":"codex","args":["--session-id","{session_id}"],"kind":"ai"}
        ]}"#,
    );
    let accounts = root["accounts"].as_array().expect("accounts");
    assert_eq!(accounts[0]["kind"], Value::from("user"));
    assert_eq!(accounts[1]["kind"], Value::from("cli"));
    assert_eq!(accounts[1]["resume_command"], Value::from("mine"));
    assert_eq!(accounts[2]["kind"], Value::from("claude_code"));
    assert_eq!(accounts[2]["args"], Value::Array(Vec::new()));
    assert_eq!(accounts[3]["kind"], Value::from("cli"));
    assert_eq!(accounts[3]["args"], Value::from(vec!["--session-id", "{session_id}"]));
}

#[test]
fn the_account_list_is_found_under_the_name_it_was_saved_with() {
    let root = migrated(r#"{"tabs":[{"id":"a","command":"helm","args":[]}]}"#);
    assert_eq!(root["tabs"][0]["kind"], Value::from("claude_code"));
}

#[test]
fn an_argument_that_is_not_a_string_is_left_where_it_is() {
    let root = migrated(r#"{"accounts":[{"id":"a","command":"helm","args":["--session-id",7]}]}"#);
    assert_eq!(root["accounts"][0]["kind"], Value::from("claude_code"));
    assert_eq!(root["accounts"][0]["args"], Value::Array(vec![Value::from("--session-id"), Value::from(7)]));
}

#[test]
fn a_saved_config_is_read_and_migrated() {
    let raw = r#"{"accounts":[{"command":"helm","args":["--session-id","x","y"]}],"panels":{}}"#;
    let root = migrated_config("helm", raw).expect("JSON");
    assert_eq!(root, migrated(raw));
    assert_eq!(root["accounts"][0]["kind"], "claude_code");
    assert_eq!(root["accounts"][0]["args"], Value::from(vec!["y"]));
    assert_eq!(migrated_config("helm", &root.to_string()).expect("JSON"), root);
}

#[test]
fn a_saved_config_that_is_no_json_is_refused() {
    let message = migrated_config("helm", "{").expect_err("no JSON");
    assert_eq!(
        message,
        format!(
            "Failed to parse config: {}",
            serde_json::from_str::<Value>("{").expect_err("no JSON")
        )
    );
}

#[test]
fn migrating_twice_changes_nothing() {
    let once = migrated(
        r#"{"accounts":[{"command":"helm","args":["--session-id","x"]},3,{"command":"codex"}]}"#,
    );
    let mut twice = once.clone();
    migrate_account_kinds(&mut twice, "helm", "ai", kind_of_cli);
    assert_eq!(twice, once);
    assert_eq!(once["accounts"][1], 3);
}

#[test]
fn a_config_without_a_list_of_accounts_is_left_alone() {
    for raw in ["{}", "[]", "7", r#"{"accounts":{},"tabs":[{}]}"#, r#"{"accounts":null,"tabs":[{}]}"#] {
        assert_eq!(migrated(raw), serde_json::from_str::<Value>(raw).expect("JSON"), "{raw}");
    }
}
