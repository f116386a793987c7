use cerebra::config::{resolve_path, Config, ConfigError};
use cerebra::last::{calculate_max_widths, LastRow};
use cerebra::store::{Note, NoteChange, NoteStore, StoreError};
use cerebra::tags::{get_tags, NoteTags, TagError};

fn strings(v: &[&str]) -> Vec<String> {
    v.iter().map(|s| s.to_string()).collect()
}

fn pairs(v: &[(&str, &str)]) -> Vec<(String, String)> {
    v.iter().map(|(a, b)| (a.to_string(), b.to_string())).collect()
}

#[test]
fn tag_arguments() {
    let got = get_tags(&strings(&["source:book", "topic:it/rust", "x:y:z", "context:home"])).unwrap();
    assert_eq!(got, pairs(&[("source", "book"), ("topic", "it/rust"), ("context", "home")]));
    assert_eq!(get_tags(&strings(&["source:book", "plain"])), Err(TagError::Format));
    assert_eq!(get_tags(&vec![]).unwrap(), vec![]);
}

#[test]
fn note_tags_from_pairs() {
    let t = NoteTags::from_pairs(&pairs(&[("topic", "a"), ("source", "s"), ("topic", "b")]), false).unwrap();
    assert_eq!(t.topic, "b");
    assert_eq!(t.source, "s");
    assert_eq!(t.context, "");
    assert_eq!(t.content, "");
    assert_eq!(
        NoteTags::from_pairs(&pairs(&[("content", "x")]), false).unwrap_err(),
        TagError::UnknownKey
    );
    let t = NoteTags::from_pairs(&pairs(&[("content", "x")]), true).unwrap();
    assert_eq!(t.content, "x");
    assert_eq!(
        NoteTags::from_pairs(&pairs(&[("colour", "red")]), true).unwrap_err(),
        TagError::UnknownKey
    );
}

fn sample() -> Config {
    Config::new(
        "/h/db".to_string(),
        "/h/log".to_string(),
        "/h/notes".to_string(),
        "/h/misc".to_string(),
        "/h/todos".to_string(),
        "/h/journal".to_string(),
        "/h/code".to_string(),
        "light".to_string(),
        "vim".to_string(),
    )
}

#[test]
fn config_text() {
    assert_eq!(
        sample().to_string(),
        "db_path=/h/db\nlog_path=/h/log\nnote_path=/h/notes\nmisc_path=/h/misc\ntodo_path=/h/todos\njournal_path=/h/journal\ncode_path=/h/code\ntheme=light\neditor=vim\n"
    );
}

#[test]
fn config_round_trip() {
    let c = sample();
    let back = Config::from_string(&c.to_string(), "/ignored").unwrap();
    assert_eq!(back.to_string(), c.to_string());
    assert_eq!(back.editor, "vim");
}

#[test]
fn config_defaults_and_errors() {
    let d = Config::default("/home/u");
    assert_eq!(d.db_path, "/home/u/.cerebra/cerebra.db");
    assert_eq!(d.note_path, "/home/u/cerebra/notes");
    assert_eq!(d.theme, "dark");
    assert_eq!(d.editor, "nvim");
    let d = Config::default("/home/u/");
    assert_eq!(d.log_path, "/home/u/.cerebra/cerebra.log");
    let c = Config::from_string("theme=solar\r\neditor=hx", "/r").unwrap();
    assert_eq!(c.theme, "solar");
    assert_eq!(c.editor, "hx");
    assert_eq!(c.todo_path, "/r/cerebra/todos");
    assert_eq!(Config::from_string("theme", "/r").unwrap_err(), ConfigError::MissingValue);
    assert_eq!(Config::from_string("theme=a\n\neditor=b", "/r").unwrap_err(), ConfigError::MissingValue);
    assert_eq!(Config::from_string("font=mono", "/r").unwrap_err(), ConfigError::UnknownKey);
    let c = Config::from_string("editor=a=b", "/r").unwrap();
    assert_eq!(c.editor, "a");
}

#[test]
fn store_operations() {
    let mut s = NoteStore::new();
    assert_eq!(s.add("one", 1, 2, 3), Some(1));
    assert_eq!(s.add("two", 1, 2, 3), Some(2));
    let none = NoteChange { content: None, source_id: None, topic_id: None, context_id: None };
    assert_eq!(s.modify(1, none), Err(StoreError::NoChange));
    let ch = NoteChange { content: None, source_id: Some(9), topic_id: None, context_id: None };
    assert_eq!(s.modify(5, ch), Err(StoreError::NotFound));
    let ch = NoteChange { content: Some("uno".to_string()), source_id: None, topic_id: Some(8), context_id: None };
    assert_eq!(s.modify(1, ch), Ok(()));
    let n = &s.notes[0];
    assert_eq!((n.content.as_str(), n.source_id, n.topic_id, n.context_id), ("uno", 1, 8, 3));
    assert_eq!(s.remove(1), Ok("uno".to_string()));
    assert_eq!(s.remove(1), Err(StoreError::NotFound));
    assert_eq!(s.add("three", 1, 1, 1), Some(3));
    let full = vec![Note { id: i64::MAX, content: String::new(), source_id: 1, topic_id: 1, context_id: 1 }];
    let mut f = NoteStore::from_notes(full).unwrap();
    assert_eq!(f.add("x", 1, 1, 1), None);
    let bad = vec![
        Note { id: 3, content: String::new(), source_id: 1, topic_id: 1, context_id: 1 },
        Note { id: 3, content: String::new(), source_id: 1, topic_id: 1, context_id: 1 },
    ];
    assert!(NoteStore::from_notes(bad).is_none());
}

#[test]
fn listing_column_widths() {
    assert_eq!(calculate_max_widths(&vec![]), vec![2, 7, 5, 7, 6]);
    let rows = vec![
        LastRow {
            id: "12345".to_string(),
            content: "hi".to_string(),
            topic: "programming".to_string(),
            context: "é".to_string(),
            source: "s".to_string(),
        },
        LastRow {
            id: "1".to_string(),
            content: "a longer content".to_string(),
            topic: "t".to_string(),
            context: "c".to_string(),
            source: "sourcesource".to_string(),
        },
    ];
    assert_eq!(calculate_max_widths(&rows), vec![5, 16, 11, 7, 12]);
}

#[test]
fn expand_paths() {
    assert_eq!(resolve_path("~/x/y", "/home/u", "/w"), "/home/u/x/y");
    assert_eq!(resolve_path("$HOME/.cerebra/cerebra.db", "/home/u", "/w"), "/home/u/.cerebra/cerebra.db");
    assert_eq!(resolve_path("$HOME", "/home/u", "/w"), "/home/u/");
    assert_eq!(resolve_path("~", "/home/u/", "/w"), "/home/u/");
    assert_eq!(resolve_path("./notes", "/home/u", "/w"), "/w/notes");
    assert_eq!(resolve_path("/abs/p", "/home/u", "/w"), "/abs/p");
    assert_eq!(resolve_path("~x", "/home/u", "/w"), "~x");
}
