use pullcept::prose::{framed_line, spoken_lines};
use pullcept::topics::{
    delete, file_to_delete, has_posts, names_one_file, read, read_posts, rename_topic, title_from, unreadable_report,
    topic_of_file, topic_path, LoggedPost, Removal, TopicFile, TopicIndex, TopicRef, TITLE_CHARS,
};
use serde_json::Value;
use std::collections::BTreeMap;

const NOW: &str = "2026-08-28T00:00:00+09:00";

/// A room's directory: its files by name, and the index as it was last written.
struct Scratch {
    files: BTreeMap<String, String>,
    index: Option<TopicIndex>,
}

impl Scratch {
    fn new() -> Self {
        Scratch { files: BTreeMap::new(), index: None }
    }

    fn remove(&mut self, file: &str) -> Removal {
        match self.files.remove(file) {
            Some(_) => Removal::Removed,
            None => Removal::Missing,
        }
    }

    fn write(&mut self, index: &TopicIndex) {
        self.index = Some(index.clone());
    }

    fn delete(&mut self, index: &mut TopicIndex, topic_id: &str) -> Result<(), String> {
        let file = file_to_delete(index, topic_id)?;
        let removal = self.remove(&file);
        delete(index, topic_id, removal)
    }

    fn read(&self) -> (TopicIndex, bool) {
        let found: Vec<TopicFile> = self
            .files
            .iter()
            .filter_map(|(name, text)| {
                topic_of_file(name).map(|topic_id| TopicFile {
                    topic_id,
                    first: posts_in(text).0.into_iter().next(),
                })
            })
            .collect();
        read(self.index.clone(), &found, NOW)
    }
}

fn parse(line: &str) -> Option<LoggedPost> {
    let value: Value = serde_json::from_str(line).ok()?;
    let text = |key: &str| value.get(key).and_then(Value::as_str).map(str::to_string);
    Some(LoggedPost {
        message_id: text("message_id")?,
        speaker: text("speaker")?,
        content: text("content")?,
        to: text("to"),
        ts: text("ts")?,
    })
}

fn posts_in(text: &str) -> (Vec<LoggedPost>, usize) {
    read_posts(spoken_lines(text).iter().map(|line| parse(line)).collect())
}

fn put_topic(scratch: &mut Scratch, topic_id: &str, content: &str, ts: &str) {
    let mut post = serde_json::Map::new();
    post.insert("message_id".to_string(), Value::from("m-1"));
    post.insert("speaker".to_string(), Value::from("Lin"));
    post.insert("content".to_string(), Value::from(content));
    post.insert("ts".to_string(), Value::from(ts));
    let line = framed_line(Value::Object(post).to_string());
    scratch.files.insert(topic_path(topic_id), line);
}

fn read_now(scratch: &Scratch) -> TopicIndex {
    scratch.read().0
}

#[test]
fn adopts_a_topic_file_the_index_does_not_name() {
    let mut scratch = Scratch::new();
    put_topic(&mut scratch, "alpha", "最初の一言", "2026-08-27T10:00:00+09:00");

    let (index, needs_write) = scratch.read();

    assert!(needs_write, "an adoption is a change the caller has to write");
    let topic = index.find("alpha").expect("adopted");
    assert_eq!(topic.title, "最初の一言");
    assert_eq!(topic.created_at, "2026-08-27T10:00:00+09:00");
}

#[test]
fn a_topic_with_posts_is_told_from_one_without_them() {
    let mut scratch = Scratch::new();
    put_topic(&mut scratch, "spoken", "先に言われたこと", "2026-08-27T10:00:00+09:00");
    scratch.files.insert(topic_path("opened"), String::new());
    let size = |id: &str| scratch.files.get(&topic_path(id)).map(|text| text.len() as u64);

    assert!(has_posts(size("spoken")), "a topic that was spoken in has posts");
    assert!(
        !has_posts(size("opened")),
        "a topic realised by a launch and never spoken in has none"
    );
    assert!(!has_posts(size("never-made")), "a topic with no file at all has none");
}

#[test]
fn deleting_takes_the_file_and_the_entry_together() {
    let mut scratch = Scratch::new();
    put_topic(&mut scratch, "alpha", "消す方", "2026-08-27T10:00:00+09:00");
    let mut index = read_now(&scratch);
    assert!(index.find("alpha").is_some());

    scratch.delete(&mut index, "alpha").expect("delete");
    scratch.write(&index);

    assert!(!scratch.files.contains_key(&topic_path("alpha")));
    assert!(
        read_now(&scratch).find("alpha").is_none(),
        "a deleted topic does not come back on the next read"
    );
}

#[test]
fn removing_only_the_entry_lets_the_next_read_resurrect_the_topic() {
    let mut scratch = Scratch::new();
    put_topic(&mut scratch, "alpha", "消えない方", "2026-08-27T10:00:00+09:00");
    let mut index = read_now(&scratch);

    index.forget("alpha");
    scratch.write(&index);
    assert!(
        read_now(&scratch).find("alpha").is_some(),
        "the file is still there, so the read adopts it back"
    );

    let mut index = read_now(&scratch);
    scratch.delete(&mut index, "alpha").expect("delete");
    scratch.write(&index);
    assert!(read_now(&scratch).find("alpha").is_none());
}

#[test]
fn deleting_one_topic_leaves_the_others_where_they_were() {
    let mut scratch = Scratch::new();
    put_topic(&mut scratch, "alpha", "残る方", "2026-08-27T10:00:00+09:00");
    put_topic(&mut scratch, "beta", "消す方", "2026-08-27T11:00:00+09:00");
    put_topic(&mut scratch, "gamma", "残る方も", "2026-08-27T12:00:00+09:00");
    let mut index = read_now(&scratch);

    scratch.delete(&mut index, "beta").expect("delete");
    scratch.write(&index);

    let index = read_now(&scratch);
    let ids: Vec<&str> = index.topics.iter().map(|one| one.topic_id.as_str()).collect();
    assert_eq!(ids, vec!["alpha", "gamma"]);
    assert!(scratch.files.contains_key(&topic_path("alpha")));
    assert!(scratch.files.contains_key(&topic_path("gamma")));
}

#[test]
fn deleting_an_entry_whose_file_is_missing_is_not_a_failure() {
    let mut scratch = Scratch::new();
    let mut index = TopicIndex::default();
    index.realize("orphaned", NOW);
    scratch.write(&index);

    let mut index = read_now(&scratch);
    assert!(index.find("orphaned").is_some(), "an entry with no file stays");

    scratch.delete(&mut index, "orphaned").expect("delete");
    scratch.write(&index);

    assert!(read_now(&scratch).find("orphaned").is_none());
}

#[test]
fn forgetting_a_session_leaves_the_topic_and_the_other_accounts() {
    let mut index = TopicIndex::default();
    let topic = index.realize("alpha", NOW);
    topic.sessions.insert("lay".to_string(), "dead".to_string());
    topic.sessions.insert("lin".to_string(), "alive".to_string());

    assert!(index.forget_session("alpha", "lay", "dead"));

    let topic = index.find("alpha").expect("the topic itself stays");
    assert_eq!(topic.sessions.get("lay"), None);
    assert_eq!(
        topic.sessions.get("lin").map(String::as_str),
        Some("alive"),
        "one account's dead id is not another account's"
    );
}

#[test]
fn forgetting_takes_only_the_id_it_was_told_about() {
    let mut index = TopicIndex::default();
    index
        .realize("alpha", NOW)
        .sessions
        .insert("lay".to_string(), "fresh".to_string());

    assert!(!index.forget_session("alpha", "lay", "dead"));
    assert_eq!(
        index.find("alpha").expect("topic").sessions.get("lay").map(String::as_str),
        Some("fresh"),
        "a record that has moved on is not this caller's to undo"
    );

    assert!(!index.forget_session("alpha", "nobody", "dead"));
    assert!(!index.forget_session("missing", "lay", "fresh"));
}

#[test]
fn refuses_an_id_that_is_not_one_file_name() {
    for id in ["../outsider", "..\\outsider", "..", ".", ""] {
        let mut index = TopicIndex::default();
        index.realize(id, NOW);
        let refused = delete(&mut index, id, Removal::Missing);
        assert_eq!(
            refused,
            Err(format!("Refusing to delete a topic whose id is not one file name: {id}")),
            "id {id:?} names more than one file"
        );
        assert!(file_to_delete(&index, id).is_err());
        assert!(index.find(id).is_some());
        assert!(!names_one_file(id));
    }
    assert!(!names_one_file("C:x"));
    assert!(names_one_file("a.b"));
}

#[test]
fn a_title_is_the_first_line_collapsed_and_cut() {
    assert_eq!(title_from("  こんにちは   部屋  "), "こんにちは 部屋");
    assert_eq!(title_from("一行目\n二行目"), "一行目 二行目");
    assert_eq!(title_from("   "), "");

    let long = "あ".repeat(TITLE_CHARS + 5);
    let cut = title_from(&long);
    assert_eq!(cut.chars().count(), TITLE_CHARS + 1, "the cut plus its mark");
    assert!(cut.ends_with('…'));

    let exact = "い".repeat(TITLE_CHARS);
    assert_eq!(title_from(&exact), exact, "no mark when nothing was cut");
}

#[test]
fn a_torn_line_is_skipped_and_counted_rather_than_failing_the_read() {
    let mut scratch = Scratch::new();
    put_topic(&mut scratch, "alpha", "読める行", "2026-08-27T10:00:00+09:00");
    let mut content = scratch.files.get(&topic_path("alpha")).expect("file").clone();
    content.push_str("{\"message_id\":\"torn\",\"spea\n");

    let (posts, skipped) = posts_in(&content);
    assert_eq!(posts.len(), 1);
    assert_eq!(skipped, 1);
    assert_eq!(
        unreadable_report(skipped).as_deref(),
        Some("読めなかった記録が 1 件あります")
    );
    assert_eq!(unreadable_report(0), None);
}

#[test]
fn a_read_puts_the_oldest_first_and_dates_an_empty_file_by_the_fallback() {
    let mut scratch = Scratch::new();
    put_topic(&mut scratch, "b", "二", "2026-08-27T11:00:00+09:00");
    put_topic(&mut scratch, "c", "一", "2026-08-27T10:00:00+09:00");
    put_topic(&mut scratch, "a", "二", "2026-08-27T11:00:00+09:00");
    scratch.files.insert("empty.jsonl".to_string(), String::new());
    scratch.files.insert("notes.txt".to_string(), String::new());
    scratch.files.insert(".jsonl".to_string(), String::new());

    let (index, needs_write) = scratch.read();
    assert!(needs_write);
    let ids: Vec<&str> = index.topics.iter().map(|one| one.topic_id.as_str()).collect();
    assert_eq!(ids, vec!["c", "a", "b", "empty"]);
    let empty = index.find("empty").expect("adopted");
    assert_eq!((empty.title.as_str(), empty.created_at.as_str()), ("", NOW));

    scratch.write(&index);
    assert!(!scratch.read().1, "nothing was adopted and there was an index");
}

#[test]
fn a_topic_is_given_one_entry_and_keeps_its_title() {
    let topic = TopicRef { topic_id: "t".to_string(), created_at: NOW.to_string() };
    let mut index = TopicIndex::default();
    index.record_session(&topic, "lin", "s-1");
    index.realize_from_first_post(&topic, "最初の  一言");
    index.realize_from_first_post(&topic, "次の一言");
    index.record_session(&topic, "lin", "s-2");
    assert_eq!(index.topics.len(), 1);
    assert_eq!(index.topics[0].title, "最初の 一言");
    assert_eq!(index.topics[0].created_at, NOW);
    assert_eq!(index.session_of("t", "lin"), Some("s-2".to_string()));
    assert_eq!(index.session_of("t", "lay"), None);
    assert_eq!(index.session_of("u", "lin"), None);
    index.find_mut("t").expect("entry").title = "x".to_string();
    assert_eq!(index.find("t").expect("entry").title, "x");
    assert!(index.find_mut("u").is_none());
}

#[test]
fn a_topic_is_renamed_where_it_is_known() {
    let current = TopicRef { topic_id: "now".to_string(), created_at: NOW.to_string() };
    let mut index = TopicIndex::default();
    assert_eq!(
        rename_topic(&mut index, &current, "now", "  "),
        Err("トピック名を入力してください。".to_string())
    );
    assert_eq!(
        rename_topic(&mut index, &current, "gone", "x"),
        Err("トピック gone は見つかりません。".to_string())
    );
    assert!(index.topics.is_empty());
    assert_eq!(rename_topic(&mut index, &current, "now", " 名前 "), Ok(()));
    assert_eq!(index.find("now").expect("realized").title, "名前");
    assert_eq!(file_to_delete(&index, "gone"), Err("トピック gone は見つかりません。".to_string()));
    assert_eq!(file_to_delete(&index, "now"), Ok("now.jsonl".to_string()));
}

#[test]
fn an_entry_stays_when_its_file_cannot_be_removed() {
    let mut index = TopicIndex::default();
    index.realize("t", NOW);
    assert_eq!(
        delete(&mut index, "t", Removal::Failed("in use".to_string())),
        Err("Failed to delete the topic's log: in use".to_string())
    );
    assert!(index.find("t").is_some());
}

#[test]
fn a_log_gives_back_its_lines() {
    let lines = ["{\"a\":1}", " x ", "部屋"];
    let text: String = lines.iter().map(|line| framed_line(line.to_string())).collect();
    assert_eq!(text, "{\"a\":1}\n x \n部屋\n");
    assert_eq!(spoken_lines(&text), lines);
    assert_eq!(spoken_lines("a\r\n\n \t\nb\rc\nd\r"), vec!["a", "b\rc", "d\r"]);
    assert_eq!(
        pullcept::prose::lines("a\r\n\r\n\nb\r"),
        "a\r\n\r\n\nb\r".lines().collect::<Vec<_>>()
    );
}

#[test]
fn a_fresh_topic_is_named_by_one_file() {
    let a = TopicRef::new(NOW.to_string());
    let b = TopicRef::new(NOW.to_string());
    assert_ne!(a.topic_id, b.topic_id);
    assert_eq!(a.created_at, NOW);
    assert_eq!(a.topic_id.len(), 36);
    assert!(names_one_file(&a.topic_id));
    assert_eq!(topic_of_file(&topic_path(&a.topic_id)), Some(a.topic_id));
}

#[test]
fn a_title_is_its_own_title() {
    for content in [
        "",
        "  a \n b ",
        "0123456789 0123456789 0123456789 012345 and more",
        "0123456789 0123456789 0123456789 0123456",
    ] {
        let title = title_from(content);
        assert_eq!(title_from(&title), title);
        let flat = content.split_whitespace().collect::<Vec<_>>().join(" ");
        assert_eq!(title_from(&flat), title);
    }
}
