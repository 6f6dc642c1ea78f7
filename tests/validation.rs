use todo_api::{CreateLabel, CreateTodo, UpdateTodo, ValidationError};

#[test]
fn todo_text_must_not_be_empty() {
    let todo = CreateTodo::new(String::new(), vec![]);
    assert_eq!(todo.validate(), Err(ValidationError::Empty));
}

#[test]
fn todo_text_may_have_288_characters() {
    let todo = CreateTodo::new("a".repeat(288), vec![]);
    assert_eq!(todo.validate(), Ok(()));
}

#[test]
fn todo_text_of_289_characters_is_too_long() {
    let todo = CreateTodo::new("a".repeat(289), vec![]);
    assert_eq!(todo.validate(), Err(ValidationError::TooLong));
}

#[test]
fn todo_text_length_counts_characters_not_bytes() {
    // 288 characters of three bytes each
    let todo = CreateTodo::new("日".repeat(288), vec![]);
    assert_eq!(todo.validate(), Ok(()));
}

#[test]
fn update_without_text_is_valid() {
    let update = UpdateTodo::new(None, Some(true), None);
    assert_eq!(update.validate(), Ok(()));
}

#[test]
fn update_with_empty_text_is_refused() {
    let update = UpdateTodo::new(Some(String::new()), None, None);
    assert_eq!(update.validate(), Err(ValidationError::Empty));
}

#[test]
fn update_with_long_text_is_refused() {
    let update = UpdateTodo::new(Some("b".repeat(300)), None, None);
    assert_eq!(update.validate(), Err(ValidationError::TooLong));
}

#[test]
fn label_name_must_not_be_empty() {
    assert_eq!(CreateLabel::new(String::new()).validate(), Err(ValidationError::Empty));
}

#[test]
fn label_name_may_have_255_characters() {
    assert_eq!(CreateLabel::new("n".repeat(255)).validate(), Ok(()));
}

#[test]
fn label_name_of_256_characters_is_too_long() {
    assert_eq!(CreateLabel::new("n".repeat(256)).validate(), Err(ValidationError::TooLong));
}
