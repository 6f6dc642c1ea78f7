use todo_api::{RepositoryError, Todo, UpdateTodo, ValidationError};

#[test]
fn merge_keeps_what_the_payload_leaves_out() {
    let stored = Todo::new(1, "a".to_string(), false);
    let merged = UpdateTodo::new(None, Some(true), None).merge(&stored);
    assert_eq!(merged, Todo::new(1, "a".to_string(), true));
}

#[test]
fn merge_takes_the_text_of_the_payload() {
    let stored = Todo::new(3, "old".to_string(), true);
    let merged = UpdateTodo::new(Some("new".to_string()), None, Some(vec![1])).merge(&stored);
    assert_eq!(merged, Todo::new(3, "new".to_string(), true));
}

#[test]
fn not_found_is_reported_as_404() {
    assert_eq!(RepositoryError::NotFound(4).status_code(), 404);
}

#[test]
fn other_failures_are_reported_as_500() {
    assert_eq!(RepositoryError::DuplicatedLabel(1).status_code(), 500);
    assert_eq!(RepositoryError::Unexpected("down".to_string()).status_code(), 500);
}

#[test]
fn refused_payloads_are_reported_as_400() {
    assert_eq!(RepositoryError::Invalid(ValidationError::TooLong).status_code(), 400);
}
