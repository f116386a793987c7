use cerebra::forest::{ResolveError, TagNode, TagTree};
use cerebra::path::{get_parents, PathError};
use cerebra::source;
use cerebra::topic::get_id;

fn strings(v: &[&str]) -> Vec<String> {
    v.iter().map(|s| s.to_string()).collect()
}

#[test]
fn same_path_twice_gives_same_id() {
    let mut t = TagTree::new();
    let a = get_id(&mut t, "rust", strings(&["it", "programming"])).unwrap();
    let n = t.nodes.len();
    let b = get_id(&mut t, "rust", strings(&["it", "programming"])).unwrap();
    assert_eq!(a, b);
    assert_eq!(t.nodes.len(), n);
    assert_eq!(n, 3);
}

#[test]
fn same_leaf_under_different_parents_is_two_nodes() {
    let mut t = TagTree::new();
    let a = get_id(&mut t, "rust", strings(&["it", "programming"])).unwrap();
    let b = get_id(&mut t, "rust", strings(&["it", "languages"])).unwrap();
    let c = get_id(&mut t, "rust", vec![]).unwrap();
    assert_ne!(a, b);
    assert_ne!(a, c);
    assert_ne!(b, c);
    assert_eq!(t.nodes.len(), 6);
}

#[test]
fn root_tag_resolved_twice_is_one_node() {
    let mut t = TagTree::new();
    let a = get_id(&mut t, "a", vec![]).unwrap();
    let b = get_id(&mut t, "a", vec![]).unwrap();
    assert_eq!(a, b);
    assert_eq!(t.nodes.len(), 1);
    assert_eq!(t.nodes[0].name, "a");
    assert_eq!(t.nodes[0].parent, None);
}

#[test]
fn parents_are_linked_root_first() {
    let mut t = TagTree::new();
    let leaf = get_id(&mut t, "c", strings(&["a", "b"])).unwrap();
    assert_eq!(t.nodes.len(), 3);
    assert_eq!(t.nodes[0].name, "a");
    assert_eq!(t.nodes[0].parent, None);
    assert_eq!(t.nodes[1].name, "b");
    assert_eq!(t.nodes[1].parent, Some(t.nodes[0].id));
    assert_eq!(t.nodes[2].id, leaf);
    assert_eq!(t.nodes[2].parent, Some(t.nodes[1].id));
    assert_eq!(leaf, 3);
}

#[test]
fn empty_segment_is_refused() {
    let mut t = TagTree::new();
    assert_eq!(get_id(&mut t, "", vec![]), Err(ResolveError::InvalidPath));
    assert_eq!(get_id(&mut t, "x", strings(&["a", ""])), Err(ResolveError::InvalidPath));
    assert!(t.nodes.is_empty());
}

#[test]
fn exhausted_ids_leave_table_unchanged() {
    let nodes = vec![
        TagNode { id: i64::MAX - 1, name: "a".to_string(), parent: None },
    ];
    let mut t = TagTree::from_nodes(nodes).unwrap();
    assert_eq!(get_id(&mut t, "a", vec![]), Ok(i64::MAX - 1));
    assert_eq!(get_id(&mut t, "c", strings(&["b"])), Err(ResolveError::IdsExhausted));
    assert_eq!(t.nodes.len(), 1);
    assert_eq!(get_id(&mut t, "b", vec![]), Ok(i64::MAX));
}

#[test]
fn loaded_tables_are_checked() {
    let ok = vec![
        TagNode { id: 4, name: "a".to_string(), parent: None },
        TagNode { id: 9, name: "b".to_string(), parent: Some(4) },
    ];
    let mut t = TagTree::from_nodes(ok).unwrap();
    assert_eq!(get_id(&mut t, "b", strings(&["a"])), Ok(9));
    assert_eq!(get_id(&mut t, "z", vec![]), Ok(10));
    let unordered = vec![
        TagNode { id: 4, name: "a".to_string(), parent: None },
        TagNode { id: 2, name: "b".to_string(), parent: None },
    ];
    assert!(TagTree::from_nodes(unordered).is_none());
    let orphan = vec![TagNode { id: 1, name: "a".to_string(), parent: Some(7) }];
    assert!(TagTree::from_nodes(orphan).is_none());
    let twice = vec![
        TagNode { id: 1, name: "a".to_string(), parent: None },
        TagNode { id: 2, name: "a".to_string(), parent: None },
    ];
    assert!(TagTree::from_nodes(twice).is_none());
    let unnamed = vec![TagNode { id: 1, name: String::new(), parent: None }];
    assert!(TagTree::from_nodes(unnamed).is_none());
}

#[test]
fn flat_tags_are_created_once() {
    let mut t = TagTree::new();
    let a = source::get_id(&mut t, "book").unwrap();
    let b = source::get_id(&mut t, "web").unwrap();
    let c = source::get_id(&mut t, "book").unwrap();
    assert_eq!(a, c);
    assert_ne!(a, b);
    assert_eq!(t.nodes.len(), 2);
    assert_eq!(source::get_id(&mut t, ""), Err(ResolveError::InvalidPath));
}

#[test]
fn split_tag_paths() {
    let (p, l) = get_parents("it/programming/rust").unwrap();
    assert_eq!(p, strings(&["it", "programming"]));
    assert_eq!(l, "rust");
    let (p, l) = get_parents("solo").unwrap();
    assert!(p.is_empty());
    assert_eq!(l, "solo");
    assert_eq!(get_parents(""), Err(PathError::InvalidPath));
    assert_eq!(get_parents("a/"), Err(PathError::InvalidPath));
    assert_eq!(get_parents("/a"), Err(PathError::InvalidPath));
    assert_eq!(get_parents("a//b"), Err(PathError::InvalidPath));
    let (p, l) = get_parents("ü/ß").unwrap();
    assert_eq!(p, strings(&["ü"]));
    assert_eq!(l, "ß");
}
