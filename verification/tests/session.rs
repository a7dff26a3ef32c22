use pullcept::config::{first_config, Account, AccountKind, PanelState};
use pullcept::seats::{RoomSeats, RunningSession};
use pullcept::session::{
    already_seated, check_line, check_settings, conversation_found, launch, launch_field_report, launch_place,
    missing_directory, preview_launch_args, resolve_launch, resolve_sidecar_paths, resolve_with,
    resume_candidate, room_url, sidecar_override, spawn_command, started, status_command,
    status_script, unseen_history, LaunchFieldReport, LaunchLine, SidecarPlace,
};
use pullcept::topics::TopicRef;

fn account(kind: AccountKind) -> Account {
    Account {
        id: "acc".to_string(),
        name: " Lin ".to_string(),
        command: "helm".to_string(),
        args: vec!["--verbose".to_string()],
        cwd: Some(" /work ".to_string()),
        hue: None,
        kind,
        character: None,
        resume_command: None,
    }
}

fn topic() -> TopicRef {
    TopicRef { topic_id: "t".to_string(), created_at: "now".to_string() }
}

fn fresh(account: &Account, recorded: Option<&str>, found: bool, dropped: bool) -> LaunchLine {
    resolve_with(account, "helm", recorded, found, dropped, "id".to_string()).expect("a line")
}

#[test]
fn a_kind_names_its_cli() {
    assert!(AccountKind::ClaudeCode.cli().is_some());
    assert!(AccountKind::User.cli().is_none());
    assert!(AccountKind::Cli.cli().is_none());
    assert_eq!(AccountKind::default(), AccountKind::Cli);
}

#[test]
fn a_first_run_begins_with_one_account() {
    let config = first_config("Helm", "helm");
    assert_eq!(config.accounts.len(), 1);
    assert_eq!(config.accounts[0].id, "account-1");
    assert_eq!(config.accounts[0].name, "Helm");
    assert_eq!(config.accounts[0].command, "helm");
    assert_eq!(config.accounts[0].kind, AccountKind::ClaudeCode);
    assert_eq!(config.panels, PanelState { history: true, participants: true });
}

#[test]
fn a_launch_resumes_or_starts_fresh() {
    let known = account(AccountKind::ClaudeCode);
    let line = fresh(&known, Some("s"), true, false);
    assert_eq!(line.command, "helm");
    assert_eq!(line.args, vec!["--resume", "{session_id}"]);
    assert_eq!(line.resumed_from.as_deref(), Some("s"));
    assert_eq!(line.session_id, None);

    let line = fresh(&known, Some("s"), false, true);
    assert_eq!(line.args, vec!["--verbose"]);
    assert_eq!(line.session_id.as_deref(), Some("id"));
    assert_eq!(line.resumed_from, None);
    assert_eq!(line.dropped_resume.as_deref(), Some("s"));
    assert_eq!(fresh(&known, Some("s"), false, false).dropped_resume, None);
    assert_eq!(fresh(&known, None, true, true).dropped_resume, None);

    let generic = account(AccountKind::Cli);
    assert_eq!(fresh(&generic, Some("s"), true, false).session_id, None);
    assert_eq!(resume_candidate(&generic, "helm", Some("s")), None);
    assert_eq!(resume_candidate(&known, "helm", Some("s")), Some("s"));
    let minted = resolve_launch(&known, "helm", None, true, false).expect("a line");
    assert_eq!(minted.session_id.map(|id| id.len()), Some(36));
}

#[test]
fn a_resume_line_without_a_command_is_refused() {
    let mut own = account(AccountKind::Cli);
    own.resume_command = Some("\"\" x".to_string());
    assert_eq!(
        resolve_with(&own, "helm", Some("s"), true, false, String::new()).expect_err("no command"),
        "Account \"Lin\" has a resume command with no command in it. Write the whole line, command first."
    );
    own.resume_command = Some(" back {session_id} ".to_string());
    let line = fresh(&own, Some("s"), true, false);
    assert_eq!((line.command.as_str(), line.args), ("back", vec!["{session_id}".to_string()]));
}

#[test]
fn an_id_is_not_minted_for_options_that_are_left_off() {
    let mut own = account(AccountKind::Cli);
    own.args = vec!["--id={session_id}".to_string()];
    assert_eq!(fresh(&own, None, true, false).session_id.as_deref(), Some("id"));
    own.args.push("a&b".to_string());
    assert_eq!(fresh(&own, None, true, false).session_id, None);
}

#[test]
fn posts_are_unseen_where_a_fresh_launch_enters_a_spoken_topic() {
    let known = account(AccountKind::ClaudeCode);
    assert!(unseen_history(&fresh(&known, None, true, false), true));
    assert!(!unseen_history(&fresh(&known, None, true, false), false));
    assert!(!unseen_history(&fresh(&known, Some("s"), true, false), true));
}

#[test]
fn a_launch_needs_a_name_a_session_a_topic_and_a_directory() {
    let place = launch_place(&account(AccountKind::Cli), "t", Some(topic())).expect("a place");
    assert_eq!((place.name.as_str(), place.cwd.as_str()), ("Lin", "/work"));
    let refused = |account: &Account, topic: Option<TopicRef>| {
        launch_place(account, "t", topic).expect_err("refused")
    };
    let mut nameless = account(AccountKind::User);
    nameless.name = " ".to_string();
    assert!(refused(&nameless, None).starts_with("This account has no name."));
    assert!(refused(&account(AccountKind::User), None)
        .starts_with("Account \"Lin\" is a person, not a session."));
    assert_eq!(
        refused(&account(AccountKind::Cli), None),
        "トピック t はこのアプリで開かれていません。削除されたトピックかもしれません。"
    );
    let mut homeless = account(AccountKind::Cli);
    homeless.cwd = Some("  ".to_string());
    assert_eq!(
        refused(&homeless, Some(topic())),
        "Account \"Lin\" has no working directory. Set one before starting a session."
    );
    assert_eq!(
        missing_directory("Lin", "/x"),
        "Account \"Lin\" points at a missing directory: /x"
    );
}

#[test]
fn a_line_is_refused_for_what_the_console_or_the_room_cannot_take() {
    let known = account(AccountKind::ClaudeCode);
    let mut line = fresh(&known, None, true, false);
    assert_eq!(check_line("Lin", &line, Some(7)), Ok(7));
    assert_eq!(
        check_line("Lin", &line, None),
        Err("The room socket is not listening yet.".to_string())
    );
    line.args = vec!["--print=x".to_string(), "a&b".to_string()];
    assert_eq!(
        check_line("Lin", &line, Some(7)),
        Err("Account \"Lin\" passes --print, which stops channel pushes from arriving. Remove it from the launch options.".to_string())
    );
    line.resumed_from = Some("s".to_string());
    assert!(check_line("Lin", &line, Some(7)).expect_err("bent").starts_with("「Lin」の再開コマンドには"));
    line.command = "a|b".to_string();
    assert!(check_line("Lin", &line, Some(7)).expect_err("bent").starts_with("「Lin」の起動コマンド `a|b` には"));
}

#[test]
fn settings_are_refused_where_two_would_name_one_thing() {
    let own = vec!["--settings=x".to_string()];
    let other = vec!["pullcept-room-x".to_string()];
    assert_eq!(check_settings("Lin", None, &[], &own), Ok(()));
    assert_eq!(check_settings("Lin", Some("c"), &other, &[]), Ok(()));
    assert!(check_settings("Lin", Some("c"), &other, &own)
        .expect_err("two")
        .contains("declares a character and also passes --settings"));
    assert!(check_settings("Lin", Some(" "), &other, &own)
        .expect_err("two")
        .contains("another account's room registration"));
    assert!(already_seated("Lin").starts_with("Account \"Lin\" already holds a seat"));
    assert_eq!(room_url(1234), "ws://127.0.0.1:1234");
}

#[test]
fn what_is_shown_is_what_runs() {
    let known = account(AccountKind::ClaudeCode);
    let line = fresh(&known, None, true, false);
    let run = launch(&known, &line, "t", &[], 1234, Some("/s/status.mjs"));
    let shown = preview_launch_args(
        &known.args,
        " acc ",
        known.kind,
        None,
        &topic(),
        None,
        &[],
        Some(1234),
        Some("/s/status.mjs"),
    );
    assert_eq!(pullcept::cli::substitute_session_id(&shown, "id"), run);
    assert_eq!(run[..3], ["--verbose", "--session-id", "id"]);
    assert!(run.last().expect("settings").contains("node /s/status.mjs http://127.0.0.1:1234/hooks/status/t/acc"));
    assert!(run.last().expect("settings").contains("http://127.0.0.1:1234/hooks/limited/t/acc"));

    let resumed = fresh(&known, Some("s"), true, false);
    let run = launch(&known, &resumed, "t", &[], 1234, None);
    assert_eq!(run[..2], ["--resume", "s"]);
}

#[test]
fn options_the_line_cannot_carry_are_left_off_whole() {
    let shown = preview_launch_args(
        &["--a".to_string(), "b>c".to_string()],
        "acc",
        AccountKind::Cli,
        Some("t"),
        &topic(),
        None,
        &[],
        None,
        None,
    );
    assert_eq!(shown.len(), 4);
    assert_eq!(shown[0], "--dangerously-load-development-channels");
}

#[test]
fn a_form_is_told_what_a_launch_would_do_with_it() {
    let report = |options: &str, command: &str, resume: Option<&str>| {
        launch_field_report(
            Some("  ".to_string()),
            options.to_string(),
            command.to_string(),
            resume.map(str::to_string),
        )
    };
    let fine = LaunchFieldReport { character: true, options: true, command: true, resume: true };
    assert_eq!(report("--a b", "helm", None), fine);
    assert_eq!(report("--a \"b&c\"", "helm", None), LaunchFieldReport { options: false, ..fine });
    assert_eq!(report("", "a(b", Some("x")), LaunchFieldReport { command: false, ..fine });
    assert_eq!(report("", "helm", Some("x ^")), LaunchFieldReport { resume: false, ..fine });
    let character = |name: Option<&str>| {
        launch_field_report(name.map(str::to_string), String::new(), String::new(), None).character
    };
    assert!(character(None) && character(Some(" ")) && character(Some(" character_Lin ")));
    assert!(!character(Some("a&b")) && !character(Some("quote\"style")));
}

#[test]
fn the_sidecar_is_found_by_override_or_in_the_nearest_directory() {
    let place = |at: &str, present: bool| SidecarPlace {
        entry: format!("{at}/entry"),
        runner: format!("{at}/runner"),
        present,
    };
    let places = vec![place("a", false), place("b", true), place("c", true)];
    let pair = |entry: &str, runner: &str| Ok((entry.to_string(), runner.to_string()));
    assert_eq!(resolve_sidecar_paths(None, None, &places), pair("b/entry", "b/runner"));
    assert_eq!(
        resolve_sidecar_paths(Some("x".to_string()), None, &places),
        pair("x", "b/runner")
    );
    assert_eq!(
        resolve_sidecar_paths(Some("x".to_string()), Some("y".to_string()), &[]),
        pair("x", "y")
    );
    let far: Vec<SidecarPlace> = (0..5).map(|i| place("z", i == 4)).collect();
    assert!(resolve_sidecar_paths(None, Some("y".to_string()), &far)
        .expect_err("too far")
        .starts_with("Could not find sidecar/src/index.ts"));
    assert_eq!(sidecar_override("K", None, false), Ok(None));
    assert_eq!(sidecar_override("K", Some("p"), true), Ok(Some("p".to_string())));
    assert_eq!(
        sidecar_override("K", Some("p"), false),
        Err("K points at a missing file: p".to_string())
    );
}

#[test]
fn a_status_command_needs_a_script_and_a_port() {
    assert_eq!(status_script(Some("s"), true), Some("s"));
    assert_eq!(status_script(Some("s"), false), None);
    assert_eq!(status_command(Some("s"), None, "t", "a"), None);
    assert_eq!(status_command(None, Some(1), "t", "a"), None);
    assert_eq!(
        status_command(Some("s"), Some(1), "t", "a").as_deref(),
        Some("node s http://127.0.0.1:1/hooks/status/t/a")
    );
}

#[test]
fn a_command_is_spawned_through_the_console_on_windows() {
    let args = vec!["x".to_string()];
    assert_eq!(
        spawn_command(true, "helm", &args),
        (
            "cmd.exe".to_string(),
            vec!["/C".to_string(), "helm".to_string(), "x".to_string()]
        )
    );
    assert_eq!(spawn_command(false, "helm", &args), ("helm".to_string(), args.clone()));
}

fn running(topic_id: &str, pty: &str) -> RunningSession {
    let line = fresh(&account(AccountKind::Cli), None, true, false);
    started(&line, topic_id, "/work", pty, "/work/.mcp.json", "now").1
}

#[test]
fn one_account_holds_one_seat_per_topic() {
    let live = vec!["p1".to_string(), "p2".to_string()];
    let mut seats = RoomSeats::new();
    assert_eq!(seats.claim("t", "lin", &live), Ok(()));
    assert_eq!(seats.claim("t", "lin", &live), Err(()));
    assert_eq!(seats.claim("u", "lin", &live), Ok(()));
    assert_eq!(seats.claim("t", "lay", &live), Ok(()));
    seats.hold("lin", running("t", "p1"));
    seats.release("u", "lin");
    assert_eq!(seats.claim("t", "lin", &live), Err(()));
    assert_eq!(seats.claim("t", "lin", &[]), Ok(()));
}

#[test]
fn seats_are_listed_by_topic_and_account_while_they_are_held() {
    let live = vec!["p1".to_string(), "p2".to_string()];
    let mut seats = RoomSeats::new();
    seats.hold("b", running("t", "p2"));
    seats.hold("a", running("t", "p1"));
    seats.hold("c", running("t", "dead"));
    seats.claim("s", "z", &live).expect("free");
    let listed = |seats: &mut RoomSeats, live: &[String]| -> Vec<(String, String, Option<String>)> {
        seats
            .seated(live)
            .into_iter()
            .map(|one| (one.topic_id, one.account_id, one.session.map(|session| session.pty_id)))
            .collect()
    };
    let row = |topic: &str, account: &str, pty: Option<&str>| {
        (topic.to_string(), account.to_string(), pty.map(str::to_string))
    };
    assert_eq!(
        listed(&mut seats, &live),
        vec![row("s", "z", None), row("t", "a", Some("p1")), row("t", "b", Some("p2"))]
    );
    assert_eq!(seats.running_in_topic("t", &live), vec!["p1", "p2"]);
    assert_eq!(seats.running_in_topic("t", &["p2".to_string()]), vec!["p2"]);
    assert!(seats.running_in_topic("s", &live).is_empty());
    assert!(seats.running_in_topic("none", &live).is_empty());
    assert_eq!(listed(&mut seats, &[]), vec![row("s", "z", None)]);
}

#[test]
fn a_launch_ships_no_placeholder() {
    let mut known = account(AccountKind::ClaudeCode);
    known.args = vec!["{session_i{session_id}}".to_string(), "{session_id}{session_id}".to_string()];
    known.character = Some("{session_id}".to_string());
    let line = resolve_launch(&known, "helm", None, true, false).expect("a line");
    let run = launch(&known, &line, "t", &[], 1, None);
    assert!(run.iter().all(|arg| !arg.contains("{session_id}")), "{run:?}");
}

#[test]
fn a_resumed_id_is_filled_in_everywhere() {
    let mut own = account(AccountKind::Cli);
    own.resume_command = Some("back {session_id} {session_i{session_id}}".to_string());
    let line = fresh(&own, Some("a-1"), true, false);
    let run = launch(&own, &line, "t", &[], 1, None);
    assert!(run.iter().all(|arg| !arg.contains("{session_id}")), "{run:?}");
    assert_eq!(run[0], "a-1");
}

#[test]
fn a_conversation_that_cannot_be_looked_for_counts_as_found() {
    let steps = vec!["x".to_string()];
    assert!(conversation_found(None, true, false));
    assert!(conversation_found(Some(&steps), false, false));
    assert!(conversation_found(Some(&steps), true, true));
    assert!(!conversation_found(Some(&steps), true, false));
}

#[test]
fn a_character_the_line_cannot_carry_costs_the_character_and_nothing_else() {
    let shown = |character: Option<&str>| {
        preview_launch_args(
            &[],
            "acc",
            AccountKind::Cli,
            Some("t"),
            &topic(),
            character,
            &[],
            None,
            None,
        )
    };
    assert!(shown(Some(" style ")).last().expect("settings").contains("\"outputStyle\":\"style\""));
    assert_eq!(shown(Some("a(b")), shown(None));
    let mut own = account(AccountKind::ClaudeCode);
    let line = fresh(&own, None, true, false);
    let plain = launch(&own, &line, "t", &[], 1, None);
    own.character = Some("a<b".to_string());
    assert_eq!(launch(&own, &line, "t", &[], 1, None), plain);
    assert_eq!(check_settings("Lin", Some("a<b"), &[], &["--settings".to_string()]), Ok(()));
}
