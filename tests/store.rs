use todo_api::{
    CreateLabel, CreateTodo, Label, LabelRepository, LabelRepositoryForMemory, RepositoryError,
    TodoEntity, TodoRepository, TodoRepositoryMemory, UpdateTodo, ValidationError,
};

fn create(repo: &mut TodoRepositoryMemory, text: &str, labels: Vec<i32>) -> TodoEntity {
    repo.create(CreateTodo::new(text.to_string(), labels))
        .expect("failed to create todo")
}

#[test]
fn test_todo_repo_scenario() {
    // create todo
    let mut repo = TodoRepositoryMemory::new();
    let todo = create(&mut repo, "test todo", vec![]);
    assert_eq!(todo.id, 1);

    let todo2 = create(&mut repo, "test todo2", vec![]);
    assert_eq!(todo2.id, 2);

    // get id = 1 todo
    let todo_found = repo.find(1).expect("failed to find todo");
    assert_eq!(todo_found, todo);

    // list all todo
    let all = repo.all().expect("failed to get all todo");
    assert_eq!(all.len(), 2);
    assert_eq!(all[0], todo);
    assert_eq!(all[1], todo2);

    // update todo
    repo.update(
        1,
        UpdateTodo {
            text: Some("updated todo".to_string()),
            completed: Some(true),
            labels: Some(vec![]),
        },
    )
    .expect("failed to update todo");

    let todo_updated = repo.find(1).expect("failed to find todo");
    assert_eq!(todo_updated.text, "updated todo".to_string());
    assert!(todo_updated.completed);
}

#[test]
fn label_crud_scenario() {
    let name = "label name".to_string();
    let id = 1;
    let expected = Label::new(id, name.clone());

    let mut repo = LabelRepositoryForMemory::new();

    // create
    let label = repo
        .create(CreateLabel { name })
        .expect("failed create label");
    assert_eq!(expected, label);

    // all
    let labels = repo.all().expect("failed get all labels");
    assert_eq!(vec![label], labels);

    // delete
    repo.delete(id).expect("failed delete label");
    let labels = repo.all().expect("failed get all labels");
    assert_eq!(labels.len(), 0);
}

#[test]
fn created_todo_is_found_with_its_text_and_no_labels() {
    let mut repo = TodoRepositoryMemory::new();
    let created = create(&mut repo, "test todo", vec![]);
    let found = repo.find(created.id).expect("failed to find todo");
    assert_eq!(found.text, "test todo");
    assert!(!found.completed);
    assert!(found.labels.is_empty());
}

#[test]
fn todo_ids_are_sequential_whatever_labels_are_created() {
    let mut repo = TodoRepositoryMemory::new();
    repo.create_label(CreateLabel::new("a".to_string()))
        .expect("failed create label");
    let first = create(&mut repo, "one", vec![1]);
    repo.create_label(CreateLabel::new("b".to_string()))
        .expect("failed create label");
    repo.create_label(CreateLabel::new("c".to_string()))
        .expect("failed create label");
    let second = create(&mut repo, "two", vec![]);
    assert_eq!(first.id, 1);
    assert_eq!(second.id, 2);
}

#[test]
fn update_of_completed_only_keeps_the_text() {
    let mut repo = TodoRepositoryMemory::new();
    create(&mut repo, "a", vec![]);
    let updated = repo
        .update(1, UpdateTodo::new(None, Some(true), None))
        .expect("failed to update todo");
    assert_eq!(updated.id, 1);
    assert_eq!(updated.text, "a");
    assert!(updated.completed);
    assert_eq!(repo.find(1).expect("failed to find todo"), updated);
}

#[test]
fn update_of_text_only_keeps_completed_and_labels() {
    let mut repo = TodoRepositoryMemory::new();
    let label = repo
        .create_label(CreateLabel::new("work".to_string()))
        .expect("failed create label");
    create(&mut repo, "a", vec![label.id]);
    repo.update(1, UpdateTodo::new(None, Some(true), None))
        .expect("failed to update todo");
    let updated = repo
        .update(1, UpdateTodo::new(Some("b".to_string()), None, None))
        .expect("failed to update todo");
    assert_eq!(updated.text, "b");
    assert!(updated.completed);
    assert_eq!(updated.labels, vec![label]);
}

#[test]
fn update_with_labels_replaces_them_all() {
    let mut repo = TodoRepositoryMemory::new();
    let a = repo.create_label(CreateLabel::new("a".to_string())).expect("failed create label");
    let b = repo.create_label(CreateLabel::new("b".to_string())).expect("failed create label");
    let c = repo.create_label(CreateLabel::new("c".to_string())).expect("failed create label");
    create(&mut repo, "t", vec![a.id, b.id]);
    let updated = repo
        .update(1, UpdateTodo::new(None, None, Some(vec![c.id, a.id])))
        .expect("failed to update todo");
    assert_eq!(updated.labels, vec![c.clone(), a.clone()]);
    let cleared = repo
        .update(1, UpdateTodo::new(None, None, Some(vec![])))
        .expect("failed to update todo");
    assert!(cleared.labels.is_empty());
}

#[test]
fn update_of_a_missing_todo_is_not_found() {
    let mut repo = TodoRepositoryMemory::new();
    create(&mut repo, "t", vec![]);
    let r = repo.update(2, UpdateTodo::new(Some("x".to_string()), None, None));
    assert_eq!(r, Err(RepositoryError::NotFound(2)));
    assert_eq!(repo.find(1).expect("failed to find todo").text, "t");
}

#[test]
fn created_todo_carries_the_labels_that_exist() {
    let mut repo = TodoRepositoryMemory::new();
    let a = repo.create_label(CreateLabel::new("a".to_string())).expect("failed create label");
    let b = repo.create_label(CreateLabel::new("b".to_string())).expect("failed create label");
    // 99 names no label: like an outer join, it contributes nothing
    let todo = create(&mut repo, "t", vec![b.id, 99, a.id]);
    assert_eq!(todo.labels, vec![b, a]);
}

#[test]
fn deleted_label_disappears_from_todos() {
    let mut repo = TodoRepositoryMemory::new();
    let a = repo.create_label(CreateLabel::new("a".to_string())).expect("failed create label");
    let b = repo.create_label(CreateLabel::new("b".to_string())).expect("failed create label");
    create(&mut repo, "t", vec![a.id, b.id]);
    repo.delete_label(a.id).expect("failed delete label");
    assert_eq!(repo.find(1).expect("failed to find todo").labels, vec![b]);
}

#[test]
fn delete_then_find_is_not_found() {
    let mut repo = TodoRepositoryMemory::new();
    create(&mut repo, "t", vec![]);
    repo.delete(1).expect("failed to delete todo");
    assert_eq!(repo.find(1), Err(RepositoryError::NotFound(1)));
    assert_eq!(repo.delete(1), Err(RepositoryError::NotFound(1)));
}

#[test]
fn delete_of_a_missing_todo_is_not_found() {
    let mut repo = TodoRepositoryMemory::new();
    create(&mut repo, "t", vec![]);
    assert_eq!(repo.delete(2), Err(RepositoryError::NotFound(2)));
    assert_eq!(repo.all().expect("failed to get all todo").len(), 1);
}

#[test]
fn ids_are_not_reused_after_a_delete() {
    let mut repo = TodoRepositoryMemory::new();
    create(&mut repo, "one", vec![]);
    create(&mut repo, "two", vec![]);
    repo.delete(1).expect("failed to delete todo");
    let third = create(&mut repo, "three", vec![]);
    assert_eq!(third.id, 3);
    let ids: Vec<i32> = repo.all().expect("failed to get all todo").iter().map(|t| t.id).collect();
    assert_eq!(ids, vec![2, 3]);
}

#[test]
fn all_lists_todos_by_ascending_id_with_their_labels() {
    let mut repo = TodoRepositoryMemory::new();
    let a = repo.create_label(CreateLabel::new("a".to_string())).expect("failed create label");
    create(&mut repo, "one", vec![a.id]);
    create(&mut repo, "two", vec![]);
    let all = repo.all().expect("failed to get all todo");
    assert_eq!(all.len(), 2);
    assert_eq!(all[0].labels, vec![a]);
    assert!(all[1].labels.is_empty());
    assert_eq!(all[1].text, "two");
}

#[test]
fn find_in_an_empty_store_is_not_found() {
    let repo = TodoRepositoryMemory::new();
    assert_eq!(repo.find(1), Err(RepositoryError::NotFound(1)));
    assert!(repo.all().expect("failed to get all todo").is_empty());
}

#[test]
fn second_label_with_the_same_name_is_duplicated() {
    let mut repo = LabelRepositoryForMemory::new();
    let first = repo
        .create(CreateLabel::new("same".to_string()))
        .expect("failed create label");
    let second = repo.create(CreateLabel::new("same".to_string()));
    assert_eq!(second, Err(RepositoryError::DuplicatedLabel(first.id)));
    assert_eq!(repo.all().expect("failed get all labels"), vec![first]);
}

#[test]
fn labels_are_listed_by_ascending_id() {
    let mut repo = LabelRepositoryForMemory::new();
    repo.create(CreateLabel::new("x".to_string())).expect("failed create label");
    repo.create(CreateLabel::new("y".to_string())).expect("failed create label");
    let labels = repo.all().expect("failed get all labels");
    assert_eq!(
        labels,
        vec![Label::new(1, "x".to_string()), Label::new(2, "y".to_string())]
    );
    assert_eq!(repo.find(2), Some(Label::new(2, "y".to_string())));
    assert_eq!(repo.find(3), None);
}

#[test]
fn delete_of_a_missing_label_is_not_found() {
    let mut repo = LabelRepositoryForMemory::new();
    assert_eq!(repo.delete(1), Err(RepositoryError::NotFound(1)));
}

#[test]
fn label_created_after_a_todo_shows_on_it() {
    let mut repo = TodoRepositoryMemory::new();
    // no label has id 1 yet
    let todo = create(&mut repo, "t", vec![1]);
    assert!(todo.labels.is_empty());
    let label = repo
        .create_label(CreateLabel::new("late".to_string()))
        .expect("failed create label");
    assert_eq!(label.id, 1);
    assert_eq!(repo.find(todo.id).expect("failed to find todo").labels, vec![label]);
}

#[test]
fn store_lists_its_labels() {
    let mut repo = TodoRepositoryMemory::new();
    repo.create_label(CreateLabel::new("p".to_string())).expect("failed create label");
    repo.create_label(CreateLabel::new("q".to_string())).expect("failed create label");
    assert_eq!(repo.create_label(CreateLabel::new("p".to_string())), Err(RepositoryError::DuplicatedLabel(1)));
    repo.delete_label(1).expect("failed delete label");
    assert_eq!(repo.all_labels().expect("failed get all labels"), vec![Label::new(2, "q".to_string())]);
    assert_eq!(repo.delete_label(1), Err(RepositoryError::NotFound(1)));
}

#[test]
fn store_refuses_an_empty_text() {
    let mut repo = TodoRepositoryMemory::new();
    let r = repo.create(CreateTodo::new(String::new(), vec![]));
    assert_eq!(r, Err(RepositoryError::Invalid(ValidationError::Empty)));
    assert!(repo.all().expect("failed to get all todo").is_empty());
    // the refused todo used no id
    assert_eq!(create(&mut repo, "ok", vec![]).id, 1);
}

#[test]
fn store_refuses_an_overlong_update() {
    let mut repo = TodoRepositoryMemory::new();
    create(&mut repo, "keep", vec![]);
    let r = repo.update(1, UpdateTodo::new(Some("x".repeat(289)), Some(true), None));
    assert_eq!(r, Err(RepositoryError::Invalid(ValidationError::TooLong)));
    let kept = repo.find(1).expect("failed to find todo");
    assert_eq!(kept.text, "keep");
    assert!(!kept.completed);
}

#[test]
fn store_refuses_an_empty_label_name() {
    let mut repo = LabelRepositoryForMemory::new();
    assert_eq!(repo.create(CreateLabel::new(String::new())), Err(RepositoryError::Invalid(ValidationError::Empty)));
    assert!(repo.all().expect("failed get all labels").is_empty());
}
