use pullcept::flags::channel_launch_args;
use pullcept::registration::{other_room_servers, register_sidecar, RoomRegistration};
use pullcept::server_name::server_name_for;
use serde_json::Value;

const ENTRY: &str = "C:/pullcept/sidecar/src/index.ts";
const RUNNER: &str = "C:/pullcept/node_modules/tsx/dist/cli.mjs";
const LIN: &str = "8f14e45f-ceea-467a-b160-6f14e45fceea";
const LAY: &str = "2b1c9a70-3d4e-4f80-91a2-b3c4d5e6f708";
const ROOM: &str = "5d41402a-bc4b-4a76-b971-9d911017c592";
const OTHER_ROOM: &str = "7e2b0a9c-1f3d-4c5e-8a6b-0c1d2e3f4a5b";

/// A directory that holds one file, or none.
struct Scratch {
    file: Option<String>,
}

impl Scratch {
    fn new() -> Self {
        Scratch { file: None }
    }

    fn write(&mut self, text: &str) {
        self.file = Some(text.to_string());
    }

    fn register(&mut self, room: &RoomRegistration<'_>) -> Result<(), String> {
        let text = register_sidecar(".mcp.json", self.file.as_deref(), room)?;
        self.file = Some(text);
        Ok(())
    }

    fn others(&self, room_url: &str, own: &str) -> Result<Vec<String>, String> {
        other_room_servers(".mcp.json", self.file.as_deref(), room_url, own)
    }

    fn read(&self) -> Value {
        serde_json::from_str(self.file.as_deref().expect("a file")).expect("parse")
    }
}

fn hue(degrees: f64) -> serde_json::Number {
    serde_json::Number::from_f64(degrees).expect("finite")
}

fn registration<'a>() -> RoomRegistration<'a> {
    RoomRegistration {
        room_url: "ws://127.0.0.1:1234",
        token: "tok",
        account_id: LIN,
        room_id: ROOM,
        agent_name: "Lin",
        agent_hue: None,
        unseen_history: false,
        sidecar_entry: ENTRY,
        sidecar_runner: RUNNER,
    }
}


#[test]
fn registers_the_room_server_when_no_config_exists() {
    let mut scratch = Scratch::new();
    scratch.register(&registration()).expect("register");

    let json = scratch.read();
    let server = &json["mcpServers"][server_name_for(LIN, ROOM)];
    assert_eq!(server["env"]["PULLCEPT_ROOM_URL"], "ws://127.0.0.1:1234");
    assert_eq!(server["env"]["PULLCEPT_ROOM_TOKEN"], "tok");
    assert_eq!(server["env"]["PULLCEPT_AGENT_NAME"], "Lin");
    assert_eq!(server["env"]["PULLCEPT_ACCOUNT_ID"], LIN);
    assert_eq!(server["env"]["PULLCEPT_ROOM_ID"], ROOM);
    assert!(
        !server["env"]
            .as_object()
            .expect("env")
            .contains_key("PULLCEPT_AGENT_HUE"),
        "an undeclared hue must leave no key behind"
    );

    assert_eq!(server["command"], "node");
    assert_eq!(
        server["args"].as_array().expect("args"),
        &vec![
            Value::String(RUNNER.to_string()),
            Value::String(ENTRY.to_string()),
        ]
    );
}

#[test]
fn the_unseen_history_flag_is_written_only_for_a_seat_that_has_one() {
    let mut scratch = Scratch::new();

    scratch.register(&registration()).expect("no history");
    let json = scratch.read();
    assert!(
        !json["mcpServers"][server_name_for(LIN, ROOM)]["env"]
            .as_object()
            .expect("env")
            .contains_key("PULLCEPT_UNSEEN_HISTORY"),
        "a seat with nothing behind it must leave no key"
    );

    let seated_late = RoomRegistration {
        unseen_history: true,
        ..registration()
    };
    scratch.register(&seated_late).expect("history");
    let json = scratch.read();
    assert_eq!(
        json["mcpServers"][server_name_for(LIN, ROOM)]["env"]["PULLCEPT_UNSEEN_HISTORY"],
        "1"
    );

    scratch.register(&registration()).expect("no history");
    let json = scratch.read();
    assert!(
        !json["mcpServers"][server_name_for(LIN, ROOM)]["env"]
            .as_object()
            .expect("env")
            .contains_key("PULLCEPT_UNSEEN_HISTORY"),
        "the key must not survive into a launch the state does not hold for"
    );
}

#[test]
fn leaves_everything_else_in_the_config_alone() {
    let mut scratch = Scratch::new();
    scratch.write(r#"{"mcpServers":{"theirs":{"command":"their-server"}},"unrelated":42}"#);

    scratch.register(&registration()).expect("register");

    let json = scratch.read();
    assert_eq!(json["mcpServers"]["theirs"]["command"], "their-server");
    assert_eq!(json["unrelated"], 42);
    assert!(json["mcpServers"][server_name_for(LIN, ROOM)].is_object());
}

#[test]
fn re_registering_the_same_account_replaces_its_own_entry() {
    let mut scratch = Scratch::new();

    scratch.register(&registration()).expect("first");
    let declared = hue(145.0);
    let second = RoomRegistration {
        room_url: "ws://127.0.0.1:1234",
        token: "tok2",
        account_id: LIN,
        room_id: ROOM,
        agent_name: "Lin",
        agent_hue: Some(&declared),
        unseen_history: false,
        sidecar_entry: ENTRY,
        sidecar_runner: RUNNER,
    };
    scratch.register(&second).expect("second");

    let json = scratch.read();
    let server = &json["mcpServers"][server_name_for(LIN, ROOM)];
    assert_eq!(server["env"]["PULLCEPT_ROOM_TOKEN"], "tok2");
    assert_eq!(server["env"]["PULLCEPT_AGENT_HUE"], "145.0");
    assert_eq!(
        json["mcpServers"].as_object().expect("servers").len(),
        1,
        "relaunching one account must not accumulate entries"
    );
}

#[test]
fn renaming_an_account_leaves_its_registration_where_it_was() {
    let mut scratch = Scratch::new();

    scratch.register(&registration()).expect("as Lin");
    let renamed = RoomRegistration {
        room_url: "ws://127.0.0.1:1234",
        token: "tok",
        account_id: LIN,
        room_id: ROOM,
        agent_name: "リン",
        agent_hue: None,
        unseen_history: false,
        sidecar_entry: ENTRY,
        sidecar_runner: RUNNER,
    };
    scratch.register(&renamed).expect("as リン");

    let json = scratch.read();
    let servers = json["mcpServers"].as_object().expect("servers");
    assert_eq!(servers.len(), 1, "a rename must not open a second entry");
    assert_eq!(
        json["mcpServers"][server_name_for(LIN, ROOM)]["env"]["PULLCEPT_AGENT_NAME"],
        "リン",
        "the new name belongs in the entry the id already had"
    );
}

#[test]
fn two_accounts_in_one_directory_keep_separate_entries() {
    let mut scratch = Scratch::new();

    scratch.register(&registration()).expect("Lin");
    let declared = hue(25.0);
    let lay = RoomRegistration {
        room_url: "ws://127.0.0.1:1234",
        token: "tok",
        account_id: LAY,
        room_id: ROOM,
        agent_name: "Lay",
        agent_hue: Some(&declared),
        unseen_history: false,
        sidecar_entry: ENTRY,
        sidecar_runner: RUNNER,
    };
    scratch.register(&lay).expect("Lay");

    let json = scratch.read();
    assert_eq!(
        json["mcpServers"][server_name_for(LIN, ROOM)]["env"]["PULLCEPT_AGENT_NAME"],
        "Lin",
        "the first session's identity must survive the second launch"
    );
    assert_eq!(
        json["mcpServers"][server_name_for(LAY, ROOM)]["env"]["PULLCEPT_AGENT_NAME"],
        "Lay"
    );
    assert_eq!(json["mcpServers"].as_object().expect("servers").len(), 2);
}

#[test]
fn entries_from_a_previous_run_go_and_foreign_ones_stay() {
    let mut scratch = Scratch::new();
    scratch.write(r#"{"mcpServers":{
             "pullcept-room": {"env":{"PULLCEPT_ROOM_URL":"ws://127.0.0.1:1"}},
             "pullcept-room-lay-00000000": {"env":{"PULLCEPT_ROOM_URL":"ws://127.0.0.1:1234"}},
             "pullcept-room-theirs": {"command":"not-ours"},
             "theirs": {"command":"their-server"}
           }}"#);

    scratch.register(&registration()).expect("register");

    let json = scratch.read();
    let servers = json["mcpServers"].as_object().expect("servers");
    assert!(
        !servers.contains_key("pullcept-room"),
        "an entry from a previous run must go"
    );
    assert!(
        servers.contains_key("pullcept-room-lay-00000000"),
        "a live sibling of this run must stay"
    );
    assert!(
        servers.contains_key("pullcept-room-theirs"),
        "an entry with no room address of ours is not ours to remove"
    );
    assert!(servers.contains_key("theirs"));
    assert!(servers.contains_key(&server_name_for(LIN, ROOM)));
}

#[test]
fn one_account_in_two_rooms_keeps_both_entries() {
    let mut scratch = Scratch::new();

    scratch.register(&registration()).expect("first room");
    let elsewhere = RoomRegistration {
        room_id: OTHER_ROOM,
        ..registration()
    };
    scratch.register(&elsewhere).expect("second room");

    let json = scratch.read();
    assert_eq!(json["mcpServers"].as_object().expect("servers").len(), 2);
    assert_eq!(
        json["mcpServers"][server_name_for(LIN, ROOM)]["env"]["PULLCEPT_ROOM_ID"],
        ROOM,
        "the first room's entry must survive the launch into the second"
    );
    assert_eq!(
        json["mcpServers"][server_name_for(LIN, OTHER_ROOM)]["env"]["PULLCEPT_ROOM_ID"],
        OTHER_ROOM
    );

    assert_eq!(
        scratch.others("ws://127.0.0.1:1234",
            &server_name_for(LIN, OTHER_ROOM)
        )
        .expect("read"),
        vec![server_name_for(LIN, ROOM)]
    );
}

#[test]
fn refuses_to_overwrite_a_config_it_cannot_parse() {
    let mut scratch = Scratch::new();
    let seeded = "{ not json";
    scratch.write(seeded);

    let err = scratch.register(&registration()).unwrap_err();
    assert!(err.contains("not valid JSON"), "unexpected error: {err}");
    assert_eq!(
        scratch.file.as_deref().expect("a file"),
        seeded,
        "the unparseable file must be left as it was"
    );
}

#[test]
fn the_siblings_are_read_from_the_file_as_the_registration_leaves_it() {
    let mut scratch = Scratch::new();
    scratch.write(r#"{"mcpServers":{
             "pullcept-room": {"env":{"PULLCEPT_ROOM_URL":"ws://127.0.0.1:1"}},
             "pullcept-room-lay-00000000": {"env":{"PULLCEPT_ROOM_URL":"ws://127.0.0.1:1234"}},
             "pullcept-room-theirs": {"command":"not-ours"},
             "theirs": {"command":"their-server"}
           }}"#);

    let others =
        scratch.others("ws://127.0.0.1:1234", &server_name_for(LIN, ROOM))
            .expect("read");
    assert_eq!(
        others,
        vec![
            "pullcept-room-lay-00000000".to_string(),
            "pullcept-room-theirs".to_string(),
        ],
        "a live sibling and a prefixed entry of unknown origin are both started by the CLI; \
         a dead entry the registration removes is not"
    );

    scratch.register(&registration()).expect("register");
    assert_eq!(
        scratch.others("ws://127.0.0.1:1234", &server_name_for(LIN, ROOM))
            .expect("read"),
        others
    );
}

#[test]
fn a_directory_with_no_registrations_names_nothing() {
    let mut scratch = Scratch::new();
    assert!(
        scratch.others("ws://127.0.0.1:1234", &server_name_for(LIN, ROOM))
            .expect("read")
            .is_empty(),
        "no file is not a failure: it is a directory nothing has been registered in yet"
    );

    scratch.register(&registration()).expect("register");
    assert!(
        scratch.others("ws://127.0.0.1:1234", &server_name_for(LIN, ROOM))
            .expect("read")
            .is_empty(),
        "the only entry is this account's own, and disabling it would leave it roomless"
    );
}

#[test]
fn a_config_that_is_not_json_is_refused_before_anything_is_written() {
    let mut scratch = Scratch::new();
    scratch.write("{ not json");
    let err = scratch.others("ws://127.0.0.1:1234", &server_name_for(LIN, ROOM))
        .expect_err("must refuse");
    assert!(err.contains("not valid JSON"), "{err}");
}

#[test]
fn the_launch_flag_names_the_server_the_config_registers() {
    let mut scratch = Scratch::new();
    scratch.register(&registration()).expect("register");
    let registered = scratch.read()["mcpServers"]
        .as_object()
        .expect("servers")
        .keys()
        .next()
        .expect("one entry")
        .clone();

    let args = channel_launch_args(&["--verbose".to_string()], &server_name_for(LIN, ROOM));
    assert_eq!(
        args,
        vec![
            "--verbose".to_string(),
            "--dangerously-load-development-channels".to_string(),
            format!("server:{registered}"),
        ]
    );
}

#[test]
fn a_file_without_an_object_of_servers_is_refused() {
    let mut scratch = Scratch::new();
    scratch.write("[]");
    assert_eq!(
        scratch.register(&registration()),
        Err(".mcp.json is not a JSON object.".to_string())
    );
    scratch.write(r#"{"mcpServers":[]}"#);
    assert_eq!(
        scratch.register(&registration()),
        Err(".mcp.json has a non-object mcpServers.".to_string())
    );
    assert_eq!(scratch.others("ws://127.0.0.1:1234", "x"), Ok(Vec::new()));
}

#[test]
fn a_hue_is_written_with_one_digit_behind_the_point() {
    let mut scratch = Scratch::new();
    let declared = hue(210.26);
    let coloured = RoomRegistration {
        agent_hue: Some(&declared),
        ..registration()
    };
    scratch.register(&coloured).expect("register");
    assert_eq!(
        scratch.read()["mcpServers"][server_name_for(LIN, ROOM)]["env"]["PULLCEPT_AGENT_HUE"],
        "210.3"
    );
}

#[test]
fn the_file_is_written_over_several_lines_with_its_keys_in_order() {
    let mut scratch = Scratch::new();
    scratch.write(r#"{"z":1,"a":[]}"#);
    scratch.register(&registration()).expect("register");
    let text = scratch.file.as_deref().expect("a file");
    assert!(text.starts_with("{\n  \"a\": [],\n  \"mcpServers\": {\n"), "{text}");
    assert!(text.ends_with("  \"z\": 1\n}"), "{text}");
}

#[test]
fn registering_twice_leaves_what_the_second_alone_would_have() {
    let seeded = r#"{"mcpServers":{"theirs":{}},"other":true}"#;
    let first = RoomRegistration {
        token: "first",
        unseen_history: true,
        ..registration()
    };
    let mut twice = Scratch::new();
    twice.write(seeded);
    twice.register(&first).expect("first");
    twice.register(&registration()).expect("second");
    let mut once = Scratch::new();
    once.write(seeded);
    once.register(&registration()).expect("only");
    assert_eq!(twice.file, once.file);
}

fn nested(levels: usize) -> String {
    format!("{{\"deep\":{}{}}}", "[".repeat(levels - 1), "]".repeat(levels - 1))
}

#[test]
fn a_written_file_reads_back_whatever_it_holds() {
    let seeded = r#"{"n":[-1,-9223372036854775808,18446744073709551615,0.1,-0.0,1e300,5e-324,
        1.7976931348623157e308,1.7976931348623155e308],"t":"\u0007<&>\\ud83d\\ude00"}"#;
    let mut scratch = Scratch::new();
    scratch.write(seeded);
    scratch.register(&registration()).expect("register");
    let once = scratch.read();
    assert_eq!(once["n"][0], -1);
    assert_eq!(once["n"][1], i64::MIN);
    assert_eq!(once["n"][2], u64::MAX);
    assert_eq!(once["n"].as_array().expect("numbers").len(), 9);
    assert_eq!(once["t"], serde_json::from_str::<Value>(seeded).expect("JSON")["t"]);
    scratch.register(&registration()).expect("register again");
    assert_eq!(scratch.read()["mcpServers"], once["mcpServers"]);
}

#[test]
fn a_file_is_read_as_deep_as_it_is_written() {
    let mut scratch = Scratch::new();
    scratch.write(&nested(127));
    scratch.register(&registration()).expect("as deep as is read");
    let first = scratch.file.clone();
    scratch.register(&registration()).expect("and again");
    assert_eq!(scratch.file, first);
    scratch.write(&nested(128));
    assert!(scratch.register(&registration()).expect_err("too deep").contains("not valid JSON"));
}
