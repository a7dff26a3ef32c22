use pullcept::flags::{
    channel_launch_args, declares_settings, reject_incompatible_flags, without_flag, CHANNEL_FLAG,
    INCOMPATIBLE_FLAGS, SETTINGS_FLAG,
};
use pullcept::server_name::{fnv1a, server_name_for, slugify, SERVER_PREFIX};

const LIN: &str = "8f14e45f-ceea-467a-b160-6f14e45fceea";
const LAY: &str = "2b1c9a70-3d4e-4f80-91a2-b3c4d5e6f708";
const ROOM: &str = "5d41402a-bc4b-4a76-b971-9d911017c592";
const OTHER_ROOM: &str = "7e2b0a9c-1f3d-4c5e-8a6b-0c1d2e3f4a5b";


#[test]
fn a_server_name_is_a_function_of_the_account_and_the_room() {
    assert_eq!(server_name_for(LIN, ROOM), server_name_for(LIN, ROOM));
    assert_ne!(server_name_for(LIN, ROOM), server_name_for(LAY, ROOM));
    assert_ne!(server_name_for(LIN, ROOM), server_name_for(LIN, OTHER_ROOM));
    assert!(server_name_for(LIN, ROOM).starts_with(SERVER_PREFIX));
    assert_ne!(server_name_for("ab", "c"), server_name_for("a", "bc"));
    assert!(server_name_for("マスター", ROOM).starts_with("pullcept-room-"));
    assert_ne!(server_name_for("マスター", ROOM), server_name_for("ますたー", ROOM));
    assert_ne!(server_name_for("Lin", ROOM), server_name_for("lin!", ROOM));
    assert!(server_name_for("Lin さん / 2", "部屋 1")
        .chars()
        .all(|c| c.is_ascii_alphanumeric() || c == '-'));
}

#[test]
fn rejects_flags_that_stop_channel_pushes() {
    for arg in ["--channels", "--print", "--input-format", "--output-format"] {
        let args = vec!["--verbose".to_string(), arg.to_string()];
        assert_eq!(reject_incompatible_flags(&args), Err(arg));
    }
}

#[test]
fn rejects_an_incompatible_flag_written_with_an_equals_sign() {
    let args = vec!["--output-format=stream-json".to_string()];
    assert_eq!(reject_incompatible_flags(&args), Err("--output-format"));
}

#[test]
fn accepts_arguments_that_do_not_touch_that_axis() {
    let args = vec!["--verbose".to_string(), "--model=opus".to_string()];
    assert_eq!(reject_incompatible_flags(&args), Ok(()));
}

#[test]
fn merges_the_room_into_a_channel_flag_the_person_already_wrote() {
    let base: Vec<String> = [
        "--dangerously-skip-permissions",
        CHANNEL_FLAG,
        "server:github-webhook-mcp",
    ]
    .iter()
    .map(|s| s.to_string())
    .collect();

    let room = server_name_for(LIN, ROOM);
    let merged = channel_launch_args(&base, &room);
    assert_eq!(
        merged,
        vec![
            "--dangerously-skip-permissions".to_string(),
            CHANNEL_FLAG.to_string(),
            format!("server:{room}"),
            "server:github-webhook-mcp".to_string(),
        ]
    );
    assert_eq!(
        merged.iter().filter(|arg| *arg == CHANNEL_FLAG).count(),
        1,
        "the flag must not appear twice"
    );
}

#[test]
fn does_not_add_the_room_twice() {
    let room = server_name_for(LIN, ROOM);
    let base = vec![CHANNEL_FLAG.to_string(), format!("server:{room}")];
    assert_eq!(channel_launch_args(&base, &room), base);
}

#[test]
fn settings_written_by_hand_is_visible_to_the_caller() {
    assert!(declares_settings(&[SETTINGS_FLAG.to_string()]));
    assert!(declares_settings(&["--settings=C:/x/settings.json".to_string()]));
    assert!(!declares_settings(&["--verbose".to_string()]));
}

fn words(list: &[&str]) -> Vec<String> {
    list.iter().map(|word| word.to_string()).collect()
}

#[test]
fn a_line_without_the_channel_flag_is_given_it_at_the_end() {
    assert_eq!(
        channel_launch_args(&words(&["--verbose"]), "x"),
        words(&["--verbose", CHANNEL_FLAG, "server:x"])
    );
}

#[test]
fn merging_a_channel_twice_is_merging_it_once() {
    let base = words(&[CHANNEL_FLAG, "server:a", CHANNEL_FLAG]);
    let once = channel_launch_args(&base, "x");
    assert_eq!(once, words(&[CHANNEL_FLAG, "server:x", "server:a", CHANNEL_FLAG]));
    assert_eq!(channel_launch_args(&once, "x"), once);
}

#[test]
fn the_first_offending_flag_is_the_one_that_is_named() {
    let args = words(&["--output-format=x", "--print"]);
    assert_eq!(reject_incompatible_flags(&args), Err("--output-format"));
    assert_eq!(INCOMPATIBLE_FLAGS.len(), 4);
}

#[test]
fn a_flag_is_taken_out_with_its_value_in_either_spelling() {
    let args = words(&["a", "--f", "v", "b", "--f=v", "--fx", "--f"]);
    assert_eq!(without_flag(&args, "--f"), words(&["a", "b", "--fx"]));
    assert_eq!(without_flag(&words(&["--f", "--f", "x"]), "--f"), words(&["x"]));
}

#[test]
fn a_slug_folds_letters_and_keeps_one_dash_between_words() {
    assert_eq!(slugify("Lin さん / 2"), "lin-2");
    assert_eq!(slugify("--Lin--"), "lin");
    assert_eq!(slugify("マスター"), "");
    assert_eq!(slugify("abcdefghijklmnopqrstuvw x"), "abcdefghijklmnopqrstuvw");
    assert_eq!(slugify("abcdefghijklmnopqrstuvwxyz"), "abcdefghijklmnopqrstuvwx");
}

#[test]
fn a_server_name_holds_the_slug_and_the_hash_of_both_ids() {
    assert_eq!(fnv1a(""), 2_166_136_261);
    assert_eq!(fnv1a("a"), 0xe40c_292c);
    assert_eq!(fnv1a("foobar"), 0xbf9c_f968);
    assert_eq!(
        server_name_for("Lin", "r"),
        format!("pullcept-room-lin-{:08x}", fnv1a("Lin\nr"))
    );
    assert_eq!(
        server_name_for("", "r"),
        format!("pullcept-room-{:08x}", fnv1a("\nr"))
    );
}

#[test]
fn a_slug_holds_its_dashes_apart() {
    for text in ["--a--b  c!!", "a".repeat(23).as_str(), "日a本-b", "- -"] {
        let slug = slugify(text);
        assert!(!slug.starts_with('-') && !slug.ends_with('-') && !slug.contains("--"), "{slug}");
    }
}
