use cerebra::forest::{TagNode, TagTree};
use cerebra::mirror::{location_of, Document, Mirror};
use cerebra::note::{add, modify, remove, Database, NoteError};
use cerebra::tags::NoteTags;

fn tags(source: &str, topic: &str, context: &str, content: &str) -> NoteTags {
    NoteTags {
        source: source.to_string(),
        topic: topic.to_string(),
        context: context.to_string(),
        content: content.to_string(),
    }
}

fn strings(v: &[&str]) -> Vec<String> {
    v.iter().map(|s| s.to_string()).collect()
}

fn doc<'a>(m: &'a Mirror, dirs: &[&str], name: &str) -> &'a Document {
    let dirs = strings(dirs);
    m.documents
        .iter()
        .find(|d| d.dirs == dirs && d.name == name)
        .expect("document missing")
}

#[test]
fn two_leaves_share_one_document() {
    let mut db = Database::new();
    let mut m = Mirror::new();
    let a = add(&mut db, &mut m, "hello", &tags("book", "it/programming/rust", "work", "")).unwrap();
    let b = add(&mut db, &mut m, "world", &tags("book", "it/programming/go", "work", "")).unwrap();
    assert_ne!(a, b);
    assert_eq!(m.documents.len(), 1);
    let d = doc(&m, &["it"], "programming");
    assert_eq!(
        d.lines,
        strings(&["# programming", "", "## rust", "", "hello", "", "## go", "", "world"])
    );
    assert_eq!(db.notes.notes.len(), 2);
    assert_eq!(db.sources.nodes.len(), 1);
}

#[test]
fn modify_rewrites_only_matching_line() {
    let mut db = Database::new();
    let mut m = Mirror::new();
    let a = add(&mut db, &mut m, "hello", &tags("book", "it/programming/rust", "work", "")).unwrap();
    add(&mut db, &mut m, "world", &tags("book", "it/programming/go", "work", "")).unwrap();
    assert_eq!(modify(&mut db, &mut m, a, &tags("", "", "", "hello v2")), Ok(()));
    let d = doc(&m, &["it"], "programming");
    assert_eq!(
        d.lines,
        strings(&["# programming", "", "## rust", "", "hello v2", "", "## go", "", "world"])
    );
    assert_eq!(db.notes.content_of(a), Some("hello v2".to_string()));
}

#[test]
fn modify_leaves_other_documents_alone() {
    let mut db = Database::new();
    let mut m = Mirror::new();
    let a = add(&mut db, &mut m, "alpha note", &tags("web", "x/y/z", "home", "")).unwrap();
    add(&mut db, &mut m, "beta", &tags("web", "p/q", "home", "")).unwrap();
    let before = doc(&m, &[], "p").lines.clone();
    assert_eq!(modify(&mut db, &mut m, a, &tags("", "", "", "gamma")), Ok(()));
    assert_eq!(doc(&m, &[], "p").lines, before);
    assert_eq!(
        doc(&m, &["x"], "y").lines,
        strings(&["# y", "", "## z", "", "gamma"])
    );
}

#[test]
fn round_trip_three_segments() {
    let mut db = Database::new();
    let mut m = Mirror::new();
    add(&mut db, &mut m, "entry", &tags("s", "a/b/c", "k", "")).unwrap();
    let d = doc(&m, &["a"], "b");
    let h = d.lines.iter().position(|l| l == "## c").expect("section missing");
    assert_eq!(d.lines[h + 2], "entry");
}

#[test]
fn root_level_topic_names_its_own_document() {
    let mut db = Database::new();
    let mut m = Mirror::new();
    add(&mut db, &mut m, "one", &tags("s", "a", "k", "")).unwrap();
    add(&mut db, &mut m, "two", &tags("s", "a", "k", "")).unwrap();
    assert_eq!(m.documents.len(), 1);
    assert_eq!(doc(&m, &[], "a").lines, strings(&["# a", "", "## a", "two", "", "one"]));
}

#[test]
fn remove_clears_row_and_lines_in_nested_documents() {
    let mut db = Database::new();
    let mut m = Mirror::new();
    let a = add(&mut db, &mut m, "shared", &tags("s", "a/b/c/d", "k", "")).unwrap();
    add(&mut db, &mut m, "other", &tags("s", "a/b/c/d", "k", "")).unwrap();
    m.documents.push(Document {
        dirs: strings(&["x", "y"]),
        name: "z".to_string(),
        lines: strings(&["# z", "a shared line", "kept"]),
    });
    assert_eq!(remove(&mut db, &mut m, a), Ok(()));
    assert_eq!(db.notes.find(a), None);
    assert_eq!(db.notes.notes.len(), 1);
    assert_eq!(doc(&m, &["a", "b"], "c").lines, strings(&["# c", "", "## d", "other", ""]));
    assert_eq!(doc(&m, &["x", "y"], "z").lines, strings(&["# z", "kept"]));
}

#[test]
fn remove_unknown_note() {
    let mut db = Database::new();
    let mut m = Mirror::new();
    assert_eq!(remove(&mut db, &mut m, 7), Err(NoteError::NotFound));
}

#[test]
fn remove_without_mirror_line_reports_mismatch() {
    let mut db = Database::new();
    let mut m = Mirror::new();
    let a = add(&mut db, &mut m, "text", &tags("s", "t", "k", "")).unwrap();
    m.documents.clear();
    assert_eq!(remove(&mut db, &mut m, a), Err(NoteError::MirrorMatch));
    assert_eq!(db.notes.notes.len(), 0);
}

#[test]
fn modify_errors() {
    let mut db = Database::new();
    let mut m = Mirror::new();
    let a = add(&mut db, &mut m, "text", &tags("s", "t", "k", "")).unwrap();
    assert_eq!(modify(&mut db, &mut m, a, &tags("", "", "", "")), Err(NoteError::NoChange));
    assert_eq!(modify(&mut db, &mut m, a + 1, &tags("", "", "", "x")), Err(NoteError::NotFound));
    assert_eq!(modify(&mut db, &mut m, a, &tags("", "a//b", "", "")), Err(NoteError::InvalidPath));
    m.documents.clear();
    assert_eq!(modify(&mut db, &mut m, a, &tags("", "", "", "new")), Err(NoteError::MirrorMatch));
    assert_eq!(db.notes.content_of(a), Some("new".to_string()));
}

#[test]
fn modify_tags_only_keeps_mirror() {
    let mut db = Database::new();
    let mut m = Mirror::new();
    let a = add(&mut db, &mut m, "text", &tags("s", "t/u", "k", "")).unwrap();
    let before = doc(&m, &[], "t").lines.clone();
    assert_eq!(modify(&mut db, &mut m, a, &tags("paper", "v/w", "", "")), Ok(()));
    assert_eq!(doc(&m, &[], "t").lines, before);
    assert_eq!(m.documents.len(), 1);
    let n = &db.notes.notes[0];
    assert_eq!(db.sources.find(&"paper".to_string(), None), Some(n.source_id));
    assert_eq!(db.topics.nodes.len(), 4);
}

#[test]
fn add_refuses_missing_or_bad_paths() {
    let mut db = Database::new();
    let mut m = Mirror::new();
    assert_eq!(add(&mut db, &mut m, "x", &tags("s", "", "k", "")), Err(NoteError::InvalidPath));
    assert_eq!(add(&mut db, &mut m, "x", &tags("s", "a/", "k", "")), Err(NoteError::InvalidPath));
    assert_eq!(add(&mut db, &mut m, "x", &tags("", "a", "k", "")), Err(NoteError::InvalidPath));
    assert_eq!(add(&mut db, &mut m, "x", &tags("s", "a", "/k", "")), Err(NoteError::InvalidPath));
    assert_eq!(db.topics.nodes.len(), 0);
    assert_eq!(m.documents.len(), 0);
}

#[test]
fn location_rule() {
    let loc = location_of(&strings(&["it", "programming"]), &"rust".to_string());
    assert_eq!(loc.dirs, strings(&["it"]));
    assert_eq!(loc.document, "programming");
    assert_eq!(loc.section, "rust");
    let loc = location_of(&vec![], &"a".to_string());
    assert!(loc.dirs.is_empty());
    assert_eq!(loc.document, "a");
    assert_eq!(loc.section, "a");
}

#[test]
fn replace_and_remove_by_text_report_matches() {
    let mut m = Mirror::new();
    m.documents.push(Document {
        dirs: vec![],
        name: "n".to_string(),
        lines: strings(&["keep", "drop me", "also drop"]),
    });
    assert!(!m.replace_by_text("absent", "x"));
    assert!(m.replace_by_text("drop", "swapped"));
    assert_eq!(m.documents[0].lines, strings(&["keep", "swapped", "swapped"]));
    assert!(m.remove_by_text("swap"));
    assert_eq!(m.documents[0].lines, strings(&["keep"]));
    assert!(!m.remove_by_text("swap"));
}

#[test]
fn failed_resolution_rolls_back_created_tags() {
    let mut db = Database::new();
    db.contexts = TagTree::from_nodes(vec![TagNode { id: i64::MAX, name: "full".to_string(), parent: None }]).unwrap();
    let mut m = Mirror::new();
    assert_eq!(
        add(&mut db, &mut m, "x", &tags("new source", "new/topic", "other", "")),
        Err(NoteError::ResolutionError)
    );
    assert_eq!(db.sources.nodes.len(), 0);
    assert_eq!(db.topics.nodes.len(), 0);
    assert_eq!(db.contexts.nodes.len(), 1);
    assert_eq!(db.notes.notes.len(), 0);
    assert!(m.documents.is_empty());
    let id = add(&mut db, &mut m, "x", &tags("s", "t", "full", "")).unwrap();
    assert_eq!(
        modify(&mut db, &mut m, id, &tags("fresh", "", "more", "")),
        Err(NoteError::ResolutionError)
    );
    assert_eq!(db.sources.nodes.len(), 1);
    assert_eq!(db.notes.notes[0].source_id, db.sources.nodes[0].id);
}
