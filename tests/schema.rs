use cerebra::schema::{next_selection, related_tables, Column, ForeignKey, SchemaKey, Table};

fn table(name: &str, refs: &[&str]) -> Table {
    Table {
        name: name.to_string(),
        columns: vec![Column { name: "id".to_string(), data_type: "INTEGER".to_string() }],
        foreign_keys: refs
            .iter()
            .map(|r| ForeignKey { table: r.to_string(), from: "x_id".to_string(), to: "id".to_string() })
            .collect(),
        indices: vec![],
    }
}

#[test]
fn selection_moves_with_keys() {
    assert_eq!(next_selection(None, 3, SchemaKey::Down), Some(0));
    assert_eq!(next_selection(Some(0), 3, SchemaKey::Down), Some(1));
    assert_eq!(next_selection(Some(2), 3, SchemaKey::Down), Some(2));
    assert_eq!(next_selection(Some(1), 3, SchemaKey::Up), Some(0));
    assert_eq!(next_selection(Some(0), 3, SchemaKey::Up), Some(0));
    assert_eq!(next_selection(None, 3, SchemaKey::Up), None);
    assert_eq!(next_selection(Some(2), 3, SchemaKey::Enter), None);
    assert_eq!(next_selection(Some(1), 3, SchemaKey::Enter), Some(1));
    assert_eq!(next_selection(Some(1), 3, SchemaKey::Click(2)), Some(2));
    assert_eq!(next_selection(Some(1), 3, SchemaKey::Click(7)), Some(1));
    assert_eq!(next_selection(Some(1), 3, SchemaKey::Other), Some(1));
}

#[test]
fn related_tables_follow_foreign_keys() {
    let tables = vec![
        table("Context", &[]),
        table("Note", &["Source", "Missing", "Topic", "Context"]),
        table("Source", &[]),
        table("Topic", &["Topic"]),
    ];
    assert_eq!(related_tables(&tables, Some(1)), vec![2, 3, 0]);
    assert_eq!(related_tables(&tables, Some(3)), vec![3]);
    assert_eq!(related_tables(&tables, Some(0)), Vec::<usize>::new());
    assert_eq!(related_tables(&tables, None), Vec::<usize>::new());
    assert_eq!(related_tables(&tables, Some(9)), Vec::<usize>::new());
}
