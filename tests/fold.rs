use todo_api::{
    entity_from_rows, flatten_entity, fold_to_entities, Label, RepositoryError, TodoEntity,
    TodoWithLabelRow,
};

fn row(id: i32, text: &str, label: Option<(i32, &str)>) -> TodoWithLabelRow {
    TodoWithLabelRow {
        id,
        text: text.to_string(),
        completed: false,
        label_id: label.map(|l| l.0),
        label_name: label.map(|l| l.1.to_string()),
    }
}

#[test]
fn test_fold_entities() {
    // Prepare five rows
    let mut rows = vec![];
    rows.push(TodoWithLabelRow {
        id: 1,
        text: "text1".to_string(),
        completed: false,
        label_id: Some(1),
        label_name: Some("label1".to_string()),
    });
    rows.push(TodoWithLabelRow {
        id: 1,
        text: "text1".to_string(),
        completed: false,
        label_id: Some(2),
        label_name: Some("label2".to_string()),
    });
    rows.push(TodoWithLabelRow {
        id: 2,
        text: "text2".to_string(),
        completed: false,
        label_id: Some(3),
        label_name: Some("label3".to_string()),
    });
    rows.push(TodoWithLabelRow {
        id: 2,
        text: "text2".to_string(),
        completed: false,
        label_id: Some(4),
        label_name: Some("label4".to_string()),
    });
    rows.push(TodoWithLabelRow {
        id: 3,
        text: "text3".to_string(),
        completed: false,
        label_id: None,
        label_name: None,
    });

    // Then fold to entities
    let entities = fold_to_entities(rows);
    assert_eq!(entities.len(), 3);
    // Check first entity
    assert_eq!(entities[0].id, 1);
    assert_eq!(entities[0].text, "text1");
    assert!(!entities[0].completed);
    assert_eq!(
        entities[0].labels,
        vec![
            Label {
                id: 1,
                name: "label1".to_string(),
            },
            Label {
                id: 2,
                name: "label2".to_string(),
            },
        ]
    );
    // Check second entity
    assert_eq!(entities[1].id, 2);
    assert_eq!(entities[1].text, "text2");
    assert!(!entities[1].completed);
    assert_eq!(
        entities[1].labels,
        vec![
            Label {
                id: 3,
                name: "label3".to_string(),
            },
            Label {
                id: 4,
                name: "label4".to_string(),
            },
        ]
    );
    // Check third entity
    assert_eq!(entities[2].id, 3);
    assert_eq!(entities[2].text, "text3");
    assert!(!entities[2].completed);
    assert_eq!(entities[2].labels, vec![]);
}

#[test]
fn fold_of_no_rows_is_empty() {
    assert!(fold_to_entities(vec![]).is_empty());
}

#[test]
fn fold_orders_by_id_whatever_the_row_order() {
    let rows = vec![
        row(3, "c", None),
        row(1, "a", Some((7, "x"))),
        row(2, "b", Some((8, "y"))),
        row(1, "a", Some((5, "z"))),
    ];
    let entities = fold_to_entities(rows);
    let ids: Vec<i32> = entities.iter().map(|e| e.id).collect();
    assert_eq!(ids, vec![1, 2, 3]);
    // labels keep the order of the rows, not the order of label ids
    assert_eq!(
        entities[0].labels,
        vec![Label::new(7, "x".to_string()), Label::new(5, "z".to_string())]
    );
    assert_eq!(entities[1].labels, vec![Label::new(8, "y".to_string())]);
    assert!(entities[2].labels.is_empty());
}

#[test]
fn fold_takes_fields_from_the_first_row_of_a_todo() {
    let mut second = row(4, "later", None);
    second.completed = true;
    let rows = vec![row(4, "first", None), second];
    let entities = fold_to_entities(rows);
    assert_eq!(entities.len(), 1);
    assert_eq!(entities[0].text, "first");
    assert!(!entities[0].completed);
}

#[test]
fn fold_skips_rows_with_half_a_label() {
    let mut only_id = row(1, "a", None);
    only_id.label_id = Some(9);
    let mut only_name = row(1, "a", None);
    only_name.label_name = Some("ghost".to_string());
    let rows = vec![only_id, row(1, "a", Some((2, "kept"))), only_name];
    let entities = fold_to_entities(rows);
    assert_eq!(entities.len(), 1);
    assert_eq!(entities[0].labels, vec![Label::new(2, "kept".to_string())]);
}

#[test]
fn maybe_from_empty_group_is_none() {
    assert_eq!(TodoEntity::maybe_from(vec![]), None);
}

#[test]
fn maybe_from_builds_the_entity_of_a_group() {
    let group = vec![row(5, "e", Some((1, "l1"))), row(5, "e", None)];
    let e = TodoEntity::maybe_from(group).expect("a group with rows gives an entity");
    assert_eq!(e.id, 5);
    assert_eq!(e.text, "e");
    assert_eq!(e.labels, vec![Label::new(1, "l1".to_string())]);
}

#[test]
fn flatten_gives_one_row_per_label() {
    let entity = TodoEntity {
        id: 7,
        text: "seven".to_string(),
        completed: true,
        labels: vec![Label::new(1, "a".to_string()), Label::new(2, "b".to_string())],
    };
    let rows = flatten_entity(&entity);
    assert_eq!(rows.len(), 2);
    assert_eq!(rows[0].id, 7);
    assert_eq!(rows[0].text, "seven");
    assert!(rows[0].completed);
    assert_eq!(rows[0].label_id, Some(1));
    assert_eq!(rows[0].label_name, Some("a".to_string()));
    assert_eq!(rows[1].label_id, Some(2));
    assert_eq!(rows[1].label_name, Some("b".to_string()));
}

#[test]
fn flatten_of_an_entity_without_labels_gives_one_bare_row() {
    let entity = TodoEntity::new(3, "bare".to_string());
    let rows = flatten_entity(&entity);
    assert_eq!(rows, vec![row(3, "bare", None)]);
    assert_eq!(fold_to_entities(rows), vec![entity]);
}

#[test]
fn flatten_then_fold_gives_the_entity_back() {
    let entity = TodoEntity {
        id: 2,
        text: "round".to_string(),
        completed: true,
        labels: vec![Label::new(4, "d".to_string()), Label::new(3, "c".to_string())],
    };
    let back = fold_to_entities(flatten_entity(&entity));
    assert_eq!(back, vec![entity]);
}

#[test]
fn entity_from_rows_picks_the_rows_of_the_id() {
    let rows = vec![row(2, "b", Some((1, "x"))), row(1, "a", None), row(2, "b", Some((3, "y")))];
    let e = entity_from_rows(2, rows).expect("a row has id 2");
    assert_eq!(e.id, 2);
    assert_eq!(e.text, "b");
    assert_eq!(e.labels, vec![Label::new(1, "x".to_string()), Label::new(3, "y".to_string())]);
}

#[test]
fn entity_from_rows_without_the_id_is_not_found() {
    assert_eq!(entity_from_rows(4, vec![row(1, "a", None)]), Err(RepositoryError::NotFound(4)));
    assert_eq!(entity_from_rows(4, vec![]), Err(RepositoryError::NotFound(4)));
}
