use pullcept::cli::{
    session_id_launch_args, Cli, APPEND_SYSTEM_PROMPT_FLAG, SESSION_ID_PLACEHOLDER,
};
use pullcept::flags::{CHANNEL_FLAG, SETTINGS_FLAG};
use pullcept::hooks::{limited_hook_url, status_hook_url, ROOM_TOKEN_ENV};
use pullcept::line::{split_launch_options, status_line_command};
use pullcept::server_name::server_name_for;
use pullcept::settings::{declared_character, launch_args, settings_launch_args};
use serde_json::Value;

const LIN: &str = "8f14e45f-ceea-467a-b160-6f14e45fceea";
const LAY: &str = "2b1c9a70-3d4e-4f80-91a2-b3c4d5e6f708";
const ROOM: &str = "5d41402a-bc4b-4a76-b971-9d911017c592";

fn own() -> String {
    server_name_for(LIN, ROOM)
}


#[test]
fn a_declared_character_rides_in_settings_json() {
    let args =
        settings_launch_args(
        &["--verbose".to_string()],
        Some("character_Lay"),
        &own(),
        &[],
        None,
        None,
    );
    assert_eq!(args.len(), 3);
    assert_eq!(args[0], "--verbose");
    assert_eq!(args[1], SETTINGS_FLAG);
    let settled: Value = serde_json::from_str(&args[2]).expect("valid JSON");
    assert_eq!(settled["outputStyle"], Value::from("character_Lay"));
}

#[test]
fn a_character_with_a_quote_in_it_stays_one_json_string() {
    let args = settings_launch_args(&[], Some(r#"quote"style"#), &own(), &[], None, None);
    let settled: Value = serde_json::from_str(&args[1]).expect("valid JSON");
    assert_eq!(settled["outputStyle"], Value::from(r#"quote"style"#));
}

#[test]
fn the_launch_approves_its_own_room_server() {
    let resume = split_launch_options("--resume {session_id}");
    let line = launch_args(&resume, Some(Cli::ClaudeCode), &own(), None, &[], None, None);
    assert!(!line.iter().any(|arg| arg == "--session-id"), "{line:?}");
    let at = line
        .iter()
        .position(|arg| arg == SETTINGS_FLAG)
        .expect("a line with nothing else to declare still carries settings");
    let settled: Value = serde_json::from_str(&line[at + 1]).expect("valid JSON");
    assert_eq!(settled["enabledMcpjsonServers"], Value::from(vec![own()]));
    assert_eq!(settled.as_object().expect("object").len(), 1);
}

#[test]
fn a_blank_character_is_not_an_empty_style() {
    for character in [None, Some(""), Some("   ")] {
        let args = settings_launch_args(&["--verbose".to_string()], character, &own(), &[], None, None);
        let settled: Value = serde_json::from_str(&args[2]).expect("valid JSON");
        assert!(settled.get("outputStyle").is_none(), "{character:?}");
    }
    assert_eq!(declared_character(Some("  x  ")), Some("x"));
}

#[test]
fn a_line_with_its_own_settings_and_nothing_else_to_declare_is_left_alone() {
    let base = vec![SETTINGS_FLAG.to_string(), r#"{"model":"x"}"#.to_string()];
    assert_eq!(settings_launch_args(&base, None, &own(), &[], None, None), base);
    assert_eq!(settings_launch_args(&base, Some("  "), &own(), &[], None, None), base);
    let written = vec!["--settings=C:/x/settings.json".to_string()];
    assert_eq!(settings_launch_args(&written, None, &own(), &[], None, None), written);
}

#[test]
fn a_sibling_registration_is_named_as_one_this_launch_does_not_start() {
    let lay = server_name_for(LAY, ROOM);
    let args =
        settings_launch_args(
        &[],
        Some("character_Lin"),
        &own(),
        std::slice::from_ref(&lay),
        None,
        None,
    );
    let settled: Value = serde_json::from_str(&args[1]).expect("valid JSON");
    assert_eq!(settled["outputStyle"], Value::from("character_Lin"));
    assert_eq!(settled["enabledMcpjsonServers"], Value::from(vec![own()]));
    assert_eq!(settled["disabledMcpjsonServers"], Value::from(vec![lay.clone()]));
}

#[test]
fn a_sibling_registration_puts_settings_on_a_line_with_no_character() {
    let lay = server_name_for(LAY, ROOM);
    let args = settings_launch_args(
        &["--verbose".to_string()],
        None,
        &own(),
        std::slice::from_ref(&lay),
        None,
        None,
    );
    assert_eq!(args[0], "--verbose");
    assert_eq!(args[1], SETTINGS_FLAG);
    let settled: Value = serde_json::from_str(&args[2]).expect("valid JSON");
    assert_eq!(settled["disabledMcpjsonServers"], Value::from(vec![lay.clone()]));
    assert!(
        settled.get("outputStyle").is_none(),
        "an undeclared character must not become an empty style"
    );
}

#[test]
fn one_line_carries_the_room_and_the_character_together() {
    let room = server_name_for(LIN, ROOM);
    let line = launch_args(
        &["--verbose".to_string()],
        Some(Cli::ClaudeCode),
        &room,
        Some("character_Lin"),
        &[],
        None,
        None,
    );
    let told = Cli::ClaudeCode.room_system_prompt(&room).expect("a safe text");
    assert_eq!(
        line[..8],
        [
            "--verbose".to_string(),
            "--session-id".to_string(),
            SESSION_ID_PLACEHOLDER.to_string(),
            APPEND_SYSTEM_PROMPT_FLAG.to_string(),
            told,
            CHANNEL_FLAG.to_string(),
            format!("server:{room}"),
            SETTINGS_FLAG.to_string(),
        ]
    );
    assert_eq!(line.len(), 9);
    let settled: Value = serde_json::from_str(&line[8]).expect("valid JSON");
    assert_eq!(settled["outputStyle"], Value::from("character_Lin"));
    assert_eq!(settled["enabledMcpjsonServers"], Value::from(vec![room.clone()]));
}

#[test]
fn one_line_starts_this_account_and_stops_the_others() {
    let room = server_name_for(LIN, ROOM);
    let lay = server_name_for(LAY, ROOM);
    let line = launch_args(
        &[],
        None,
        &room,
        Some("character_Lin"),
        std::slice::from_ref(&lay),
        None,
        None,
    );
    assert_eq!(line[0], CHANNEL_FLAG);
    assert_eq!(line[1], format!("server:{room}"));
    assert_eq!(line[2], SETTINGS_FLAG);
    let settled: Value = serde_json::from_str(&line[3]).expect("valid JSON");
    assert_eq!(settled["enabledMcpjsonServers"], Value::from(vec![room.clone()]));
    assert_eq!(settled["disabledMcpjsonServers"], Value::from(vec![lay.clone()]));
    assert_ne!(
        settled["disabledMcpjsonServers"][0],
        Value::from(room.clone()),
        "the server the channel flag just named must not be disabled"
    );
}

#[test]
fn the_limit_hook_rides_in_settings_and_fires_on_the_rate_limit_only() {
    let url = limited_hook_url(1234, ROOM, LIN);
    let line = launch_args(&[], Some(Cli::ClaudeCode), &own(), None, &[], Some(&url), None);
    let at = line.iter().position(|arg| arg == SETTINGS_FLAG).expect("settings");
    let settled: Value = serde_json::from_str(&line[at + 1]).expect("valid JSON");
    let groups = settled["hooks"]["StopFailure"].as_array().expect("StopFailure");
    assert_eq!(groups.len(), 1);
    assert_eq!(groups[0]["matcher"], Value::from("rate_limit"));
    let hook = &groups[0]["hooks"][0];
    assert_eq!(hook["type"], Value::from("http"));
    assert_eq!(hook["url"], Value::from(url.clone()));
    assert_eq!(
        hook["headers"]["Authorization"],
        Value::from(format!("Bearer ${{{ROOM_TOKEN_ENV}}}"))
    );
    assert_eq!(hook["allowedEnvVars"], Value::from(vec![ROOM_TOKEN_ENV]));
    assert_eq!(settled["hooks"].as_object().expect("hooks").len(), 1);
}

#[test]
fn a_line_with_no_room_port_carries_no_hook() {
    let line = launch_args(&[], Some(Cli::ClaudeCode), &own(), None, &[], None, None);
    let at = line.iter().position(|arg| arg == SETTINGS_FLAG).expect("settings");
    let settled: Value = serde_json::from_str(&line[at + 1]).expect("valid JSON");
    assert!(settled.get("hooks").is_none());
}

#[test]
fn a_line_left_alone_for_its_own_settings_carries_no_hook_either() {
    let base = vec![SETTINGS_FLAG.to_string(), r#"{"model":"x"}"#.to_string()];
    let url = limited_hook_url(1234, ROOM, LIN);
    assert_eq!(settings_launch_args(&base, None, &own(), &[], Some(&url), None), base);
}

#[test]
fn the_status_line_rides_in_settings_and_names_the_script_and_the_seat() {
    let url = status_hook_url(1234, ROOM, LIN);
    let script = r"C:\pullcept\sidecar\src\status.mjs";
    let command = status_line_command(script, &url).expect("a path with nothing to escape");
    assert_eq!(command, format!("node C:/pullcept/sidecar/src/status.mjs {url}"));
    let line = launch_args(&[], Some(Cli::ClaudeCode), &own(), None, &[], None, Some(&command));
    let at = line.iter().position(|arg| arg == SETTINGS_FLAG).expect("settings");
    let settled: Value = serde_json::from_str(&line[at + 1]).expect("valid JSON");
    assert_eq!(settled["statusLine"]["type"], Value::from("command"));
    assert_eq!(settled["statusLine"]["command"], Value::from(command.clone()));
    assert!(!command.contains(ROOM_TOKEN_ENV), "{command}");
    assert!(!command.contains("Bearer"), "{command}");
}

#[test]
fn the_whole_settings_argument_carries_nothing_cmd_exe_acts_on() {
    let lay = server_name_for(LAY, ROOM);
    let limited = limited_hook_url(62361, ROOM, LIN);
    let status = status_hook_url(62361, ROOM, LIN);
    let command = status_line_command(
        "C:/pullcept/sidecar/src/status.mjs",
        &status,
    )
    .expect("safe path");
    let line = launch_args(
        &[],
        Some(Cli::ClaudeCode),
        &own(),
        Some("character_Lin"),
        std::slice::from_ref(&lay),
        Some(&limited),
        Some(&command),
    );
    let at = line.iter().position(|arg| arg == SETTINGS_FLAG).expect("settings");
    let settings = &line[at + 1];
    for ch in ['&', '|', '<', '>', '^', '(', ')'] {
        assert!(
            !settings.contains(ch),
            "{ch:?} is acted on by cmd.exe and must not reach the launch line: {settings}"
        );
    }
    let settled: Value = serde_json::from_str(settings).expect("valid JSON");
    assert_eq!(settled["statusLine"]["command"], Value::from(command.clone()));
    assert_eq!(settled["hooks"]["StopFailure"][0]["hooks"][0]["url"], Value::from(limited.clone()));
}

#[test]
fn a_script_path_that_cannot_be_written_onto_the_line_carries_no_status_line() {
    let url = status_hook_url(1234, ROOM, LIN);
    let script = r"C:\Program Files (x86)\pullcept\status.mjs";
    assert_eq!(status_line_command(script, &url), None);
    let line = launch_args(&[], Some(Cli::ClaudeCode), &own(), None, &[], None, None);
    let at = line.iter().position(|arg| arg == SETTINGS_FLAG).expect("settings");
    let settled: Value = serde_json::from_str(&line[at + 1]).expect("valid JSON");
    assert!(settled.get("statusLine").is_none());
}

#[test]
fn a_line_left_alone_for_its_own_settings_carries_no_status_line_either() {
    let base = vec![SETTINGS_FLAG.to_string(), r#"{"model":"x"}"#.to_string()];
    let url = status_hook_url(1234, ROOM, LIN);
    let script = "C:/pullcept/sidecar/src/status.mjs";
    let command = status_line_command(script, &url).expect("safe path");
    assert_eq!(
        settings_launch_args(&base, None, &own(), &[], None, Some(&command)),
        base
    );
}

#[test]
fn a_kind_naming_no_cli_is_handed_nothing_of_the_apps() {
    let base = split_launch_options("--dangerously-skip-permissions");
    assert_eq!(session_id_launch_args(&base, None), base);

    let limited = limited_hook_url(1234, ROOM, LIN);
    let status = status_line_command(
        "C:/pullcept/sidecar/src/status.mjs",
        &status_hook_url(1234, ROOM, LIN),
    )
    .expect("safe path");
    let line = launch_args(
        &base,
        None,
        &own(),
        None,
        &[],
        Some(&limited),
        Some(&status),
    );
    let at = line.iter().position(|arg| arg == SETTINGS_FLAG).expect("settings");
    let settled: Value = serde_json::from_str(&line[at + 1]).expect("valid JSON");
    assert_eq!(settled["enabledMcpjsonServers"], Value::from(vec![own()]));
    assert!(settled.get("hooks").is_none(), "{settled}");
    assert!(settled.get("statusLine").is_none(), "{settled}");
    assert!(!line.iter().any(|arg| arg == APPEND_SYSTEM_PROMPT_FLAG), "{line:?}");
}

#[test]
fn settings_hold_a_character_the_console_acts_on_only_where_something_declared_does() {
    let plain = settings_launch_args(&[], Some("a\tb"), &own(), &[], Some("u"), Some("c"));
    let bent = settings_launch_args(&[], Some("a&b"), &own(), &[], Some("u"), Some("c"));
    for ch in ['&', '|', '<', '>', '^', '(', ')'] {
        assert!(!plain[1].contains(ch), "{}", plain[1]);
        assert_eq!(bent[1].contains(ch), ch == '&', "{}", bent[1]);
    }
}
