use pullcept::cli::{
    declares_session_id, migrated_cli, session_id_launch_args, substitute_session_id,
    system_prompt_launch_args, transcript_path, Cli, SESSION_ID_PLACEHOLDER, SLUG_LIMIT,
};
use pullcept::line::{
    carried_launch_options, console_safe, line_safe_text, line_safe_word, split_launch_options,
    status_line_command,
};
use pullcept::server_name::server_name_for;
use std::path::PathBuf;

const LIN: &str = "8f14e45f-ceea-467a-b160-6f14e45fceea";
const ROOM: &str = "5d41402a-bc4b-4a76-b971-9d911017c592";

fn below(home: &str, steps: Option<Vec<String>>) -> Option<PathBuf> {
    steps.map(|steps| steps.iter().fold(PathBuf::from(home), |path, step| path.join(step)))
}


#[test]
fn a_status_line_command_carries_nothing_a_shell_on_the_way_acts_on() {
    assert!(line_safe_word("C:/pullcept/sidecar/src/status.mjs"));
    for hazard in [
        "C:/Program Files (x86)/p/status.mjs",
        "C:/a&b/status.mjs",
        "C:/a|b/status.mjs",
        "C:/a^b/status.mjs",
        "C:/a<b/status.mjs",
        "C:/a>b/status.mjs",
        "C:/my files/status.mjs",
        "C:\\pullcept\\status.mjs",
        "C:/ゆーざ/status.mjs",
        "",
    ] {
        assert!(!line_safe_word(hazard), "{hazard}");
    }
}

#[test]
fn splits_launch_options_keeping_quoted_arguments_whole() {
    assert_eq!(
        split_launch_options("  --a   --b=1  "),
        vec!["--a".to_string(), "--b=1".to_string()]
    );
    assert_eq!(
        split_launch_options(r#"--add-dir "C:\Program Files\x" --flag"#),
        vec![
            "--add-dir".to_string(),
            r"C:\Program Files\x".to_string(),
            "--flag".to_string(),
        ]
    );
    assert!(split_launch_options("   ").is_empty());
    assert_eq!(
        split_launch_options("--x \"\""),
        vec!["--x".to_string(), String::new()]
    );
}

#[test]
fn a_session_id_is_substituted_wherever_the_account_wrote_it() {
    let args = split_launch_options("--resume {session_id} --verbose");
    let filled = substitute_session_id(&args, "0f5a-uuid");
    assert_eq!(filled, vec!["--resume", "0f5a-uuid", "--verbose"]);
}

#[test]
fn a_session_id_is_substituted_inside_one_argument_too() {
    let args = split_launch_options("--session-id={session_id}");
    let filled = substitute_session_id(&args, "0f5a-uuid");
    assert_eq!(filled, vec!["--session-id=0f5a-uuid"]);
}

#[test]
fn options_with_no_placeholder_declare_no_session_id() {
    let args = split_launch_options("--dangerously-skip-permissions");
    assert!(!declares_session_id(&args));
    assert_eq!(substitute_session_id(&args, "0f5a-uuid"), args);
}

#[test]
fn options_naming_the_placeholder_declare_a_session_id() {
    assert!(declares_session_id(&split_launch_options(
        "--session-id {session_id}"
    )));
}

#[test]
fn the_transcript_of_a_session_sits_under_the_slug_of_its_directory() {
    let home = r"C:\Users\smile";
    let joined = PathBuf::from(home);
    assert_eq!(
        below(home, transcript_path("helm", r"C:\Users\smile\Code", "0f5a-uuid")),
        Some(joined.join(".helm").join("projects").join("C--Users-smile-Code").join("0f5a-uuid.jsonl"))
    );
    assert_eq!(
        below(home, transcript_path("helm", r"C:\Users\smile\Notes", "0f5a-uuid")),
        Some(joined.join(".helm").join("projects").join("C--Users-smile-Notes").join("0f5a-uuid.jsonl"))
    );
}

#[test]
fn every_character_that_is_not_a_letter_or_a_digit_folds_into_a_dash() {
    let home = r"C:\Users\smile";
    let joined = PathBuf::from(home);
    assert_eq!(
        below(home, transcript_path("helm", r"C:\Users\smile\my code.v2\部屋\😀", "id")),
        Some(joined.join(".helm")
                .join("projects")
                .join("C--Users-smile-my-code-v2------")
                .join("id.jsonl")
        )
    );
}

#[test]
fn a_directory_too_long_to_spell_out_names_no_transcript() {
    let long = format!("C:\\{}", "d".repeat(SLUG_LIMIT));
    assert_eq!(
        below("C:\\home", transcript_path("helm", &long, "id")),
        None
    );
    let edge = format!("C:\\{}", "d".repeat(SLUG_LIMIT - 3));
    assert!(below("C:\\home", transcript_path("helm", &edge, "id")).is_some());
}

#[test]
fn the_transcript_a_kind_names_is_the_layout_of_the_cli_it_names() {
    let home = r"C:\Users\smile";
    let joined = PathBuf::from(home);
    let cwd = r"C:\Users\smile\Code";
    assert_eq!(
        below(home, Cli::ClaudeCode.transcript_path("helm", cwd, "0f5a-uuid")),
        below(home, transcript_path("helm", cwd, "0f5a-uuid"))
    );
}

#[test]
fn a_launch_command_names_the_cli_it_is() {
    assert_eq!(Cli::of_command("helm", "helm"), Some(Cli::ClaudeCode));
    assert_eq!(Cli::of_command("helm", "helm.exe"), Some(Cli::ClaudeCode));
    assert_eq!(Cli::of_command("helm", "Helm.CMD"), Some(Cli::ClaudeCode));
    assert_eq!(
        Cli::of_command("helm", r"C:\Users\smile\AppData\helm.exe"),
        Some(Cli::ClaudeCode)
    );
    assert_eq!(Cli::of_command("helm", "/usr/local/bin/helm"), Some(Cli::ClaudeCode));
    assert_eq!(Cli::of_command("helm", "  helm  "), Some(Cli::ClaudeCode));
    assert_eq!(Cli::of_command("helm", "helm-wrapper"), None);
    assert_eq!(Cli::of_command("helm", "codex"), None);
    assert_eq!(Cli::of_command("helm", ""), None);
}

#[test]
fn the_claude_code_kind_hands_over_the_session_id_itself() {
    let base = split_launch_options("--dangerously-skip-permissions");
    let line = session_id_launch_args(&base, Some(Cli::ClaudeCode));
    assert_eq!(
        line,
        vec!["--dangerously-skip-permissions", "--session-id", "{session_id}"]
    );
    assert!(declares_session_id(&line));
    assert_eq!(
        substitute_session_id(&line, "0f5a-uuid").last().map(String::as_str),
        Some("0f5a-uuid")
    );
}

#[test]
fn a_line_that_already_names_the_flag_is_not_given_a_second_one() {
    for written in ["--session-id {session_id}", "--session-id=abc", "--session-id abc"] {
        let base = split_launch_options(written);
        assert_eq!(
            session_id_launch_args(&base, Some(Cli::ClaudeCode)),
            base,
            "{written}"
        );
    }
}

#[test]
fn the_conventions_take_their_own_argument_back_out_of_the_options() {
    let written = split_launch_options(
        "--dangerously-skip-permissions --session-id {session_id} --verbose",
    );
    assert_eq!(
        Cli::ClaudeCode.without_session_id_args(&written),
        vec!["--dangerously-skip-permissions", "--verbose"]
    );
    let joined = split_launch_options("--session-id={session_id} --verbose");
    assert_eq!(
        Cli::ClaudeCode.without_session_id_args(&joined),
        vec!["--verbose"]
    );
    let theirs = split_launch_options("--verbose");
    assert_eq!(Cli::ClaudeCode.without_session_id_args(&theirs), theirs);
}

#[test]
fn an_account_with_a_way_back_of_its_own_keeps_it_and_the_generic_kind() {
    let theirs = "helm --resume {session_id} --dangerously-skip-permissions";
    assert_eq!(migrated_cli("helm", "helm", Some(theirs)), None);
    assert_eq!(
        migrated_cli("helm", "helm", Cli::ClaudeCode.resume_command("helm").as_deref()),
        Some(Cli::ClaudeCode)
    );
    assert_eq!(migrated_cli("helm", "helm", None), Some(Cli::ClaudeCode));
    assert_eq!(migrated_cli("helm", "helm", Some("  ")), Some(Cli::ClaudeCode));
    assert_eq!(migrated_cli("helm", "codex", None), None);
    assert_eq!(migrated_cli("helm", "codex", Some(theirs)), None);
}

#[test]
fn a_seat_is_told_the_full_name_of_the_tool_the_room_is_spoken_to_through() {
    let room = server_name_for(LIN, ROOM);
    let told = Cli::ClaudeCode.room_system_prompt(&room).expect("a safe text");
    assert!(told.contains(&format!("mcp__{room}__say_to_room")), "{told}");
    assert!(!told.contains("channel"), "{told}");
    assert!(told.contains("Terminal output does not reach the room"), "{told}");
}

#[test]
fn what_a_seat_is_told_carries_nothing_a_shell_on_the_way_acts_on() {
    assert!(line_safe_text("You are a participant in a Pullcept room."));
    for hazard in [
        "a & b",
        "a | b",
        "a ^ b",
        "a < b",
        "a > b",
        "(a) b",
        "say \"hello\"",
        "100% done",
        "部屋へ発言する",
        "",
    ] {
        assert!(!line_safe_text(hazard), "{hazard}");
    }
    let told = Cli::ClaudeCode
        .room_system_prompt(&server_name_for(LIN, ROOM))
        .expect("a safe text");
    for ch in ['&', '|', '<', '>', '^', '(', ')', '"', '%'] {
        assert!(!told.contains(ch), "{ch:?} must not reach the launch line: {told}");
    }
}

#[test]
fn a_line_that_already_appends_a_system_prompt_is_not_given_a_second_one() {
    let room = server_name_for(LIN, ROOM);
    let base = split_launch_options("--append-system-prompt \"be brief\"");
    assert_eq!(
        system_prompt_launch_args(&base, Some(Cli::ClaudeCode), &room),
        base
    );
    let base = split_launch_options("--append-system-prompt-file=C:/p/prompt.txt");
    assert_eq!(
        system_prompt_launch_args(&base, Some(Cli::ClaudeCode), &room),
        base
    );
}

#[test]
fn the_resume_line_of_a_kind_names_where_the_id_goes() {
    let line = Cli::ClaudeCode.resume_command("helm").expect("a way back");
    assert!(line.contains(SESSION_ID_PLACEHOLDER), "{line}");
    let mut parts = split_launch_options(&line);
    assert_eq!(parts.remove(0), "helm");
    assert!(declares_session_id(&parts), "{parts:?}");
}

#[test]
fn an_argument_is_filled_at_every_place_left_for_the_id() {
    let args = vec!["{session_id}{session_id}".to_string(), "{{session_id}}".to_string()];
    assert_eq!(substitute_session_id(&args, "x"), vec!["xx", "{x}"]);
}

#[test]
fn a_slug_takes_two_dashes_for_a_character_outside_the_basic_plane() {
    assert_eq!(pullcept::cli::project_slug("a部😀b").as_deref(), Some("a---b"));
    assert_eq!(pullcept::cli::project_slug(&"x".repeat(SLUG_LIMIT + 1)), None);
}

#[test]
fn a_session_is_told_once() {
    let base = vec!["--verbose".to_string()];
    let once = system_prompt_launch_args(&base, Some(Cli::ClaudeCode), "pullcept-room-x");
    assert_eq!(once.len(), 3);
    assert_eq!(once[1], "--append-system-prompt");
    assert_eq!(
        system_prompt_launch_args(&once, Some(Cli::ClaudeCode), "pullcept-room-x"),
        once
    );
    assert_eq!(system_prompt_launch_args(&base, None, "pullcept-room-x"), base);
    assert_eq!(
        system_prompt_launch_args(&base, Some(Cli::ClaudeCode), "a&b"),
        base
    );
}

#[test]
fn a_session_id_is_handed_over_once() {
    let base = vec!["--verbose".to_string()];
    let once = session_id_launch_args(&base, Some(Cli::ClaudeCode));
    assert_eq!(session_id_launch_args(&once, Some(Cli::ClaudeCode)), once);
    assert_eq!(Cli::ClaudeCode.without_session_id_args(&once), base);
}

#[test]
fn options_are_carried_whole_or_not_at_all() {
    let safe = split_launch_options("--a --b=1");
    assert_eq!(carried_launch_options(&safe), &safe[..]);
    let bent = split_launch_options("--a a&b");
    assert!(carried_launch_options(&bent).is_empty());
    for ch in ['&', '|', '<', '>', '^', '(', ')', '"'] {
        assert!(!console_safe(&format!("a{ch}b")), "{ch}");
    }
    assert!(console_safe("C:\\部屋 %x%"));
    assert!(console_safe(""));
}

#[test]
fn white_space_of_every_kind_parts_words_and_quotes_group_it() {
    assert_eq!(
        split_launch_options("a\u{3000}b\t\n\"c\u{a0}d\"e"),
        vec!["a", "b", "c\u{a0}de"]
    );
    assert_eq!(split_launch_options("\"open to the end"), vec!["open to the end"]);
    assert_eq!(
        split_launch_options("\"one two\" \"\" \"three\" "),
        vec!["one two", "", "three"]
    );
}

#[test]
fn white_space_is_what_the_standard_library_calls_so() {
    for code in 0..=0x10ffffu32 {
        if let Some(c) = char::from_u32(code) {
            assert_eq!(pullcept::text::whitespace(c), c.is_whitespace(), "{code:x}");
            assert_eq!(pullcept::text::alphanumeric(c), c.is_ascii_alphanumeric(), "{code:x}");
            assert_eq!(pullcept::text::lower(c), c.to_ascii_lowercase(), "{code:x}");
        }
    }
}

#[test]
fn texts_are_trimmed_and_ordered_as_the_standard_library_does() {
    let texts = ["", " ", "a", " a b ", "\u{3000}ab\u{85}", "aé", "b", "ab", "\u{ffff}", "😀"];
    for a in texts {
        assert_eq!(pullcept::text::trim(a), a.trim(), "{a:?}");
        for b in texts {
            assert_eq!(pullcept::text::less(a, b), a < b, "{a:?} {b:?}");
            assert_eq!(pullcept::text::same_text(a, b), a == b, "{a:?} {b:?}");
            assert_eq!(pullcept::text::starts_with(a, b), a.starts_with(b), "{a:?} {b:?}");
        }
    }
}

#[test]
fn numbers_are_written_as_the_standard_library_does() {
    for n in [0u64, 7, 10, 99, 100, 65_535, u64::MAX] {
        assert_eq!(pullcept::text::decimal_text(n), n.to_string());
        assert_eq!(pullcept::text::padded_text(n, 4), format!("{n:04}"));
    }
}

#[test]
fn a_status_line_needs_both_its_words_to_be_safe() {
    assert_eq!(
        status_line_command("C:\\p\\status.mjs", "http://127.0.0.1:1/hooks/status/a/b"),
        Some("node C:/p/status.mjs http://127.0.0.1:1/hooks/status/a/b".to_string())
    );
    assert_eq!(status_line_command("s.mjs", "http://127.0.0.1:1/%20"), None);
    assert!(line_safe_word("a"));
}

#[test]
fn arguments_joined_by_single_spaces_come_back() {
    let args = ["", "a b", "\\", "c\u{3000}", ""];
    let line = args.map(|arg| format!("\"{arg}\"")).join(" ");
    assert_eq!(split_launch_options(&line), args);
    for plain in ["", " a  b\tc ", "部屋\u{a0}x"] {
        assert_eq!(
            split_launch_options(plain),
            plain.split_whitespace().collect::<Vec<_>>()
        );
    }
}
