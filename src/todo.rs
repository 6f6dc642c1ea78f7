use vstd::prelude::*;

use crate::error::ValidationError;
use crate::label::{labels_view, Label, LabelView};
use crate::validate::{check_length, length_ok, TODO_TEXT_MAX};

verus! {

/// A todo as it is stored: without its labels.
#[derive(Debug, Clone, PartialEq, Eq)]
pub struct Todo {
    pub id: i32,
    pub text: String,
    pub completed: bool,
}

impl Todo {
    pub fn new(id: i32, text: String, completed: bool) -> (r: Todo)
        ensures
            r.id == id,
            r.text == text,
            r.completed == completed,
    {
        Todo { id, text, completed }
    }

    /// A copy of this todo.
    pub fn duplicate(&self) -> (r: Todo)
        ensures
            r == *self,
    {
        Todo { id: self.id, text: self.text.clone(), completed: self.completed }
    }
}

/// A todo together with the labels attached to it.
#[derive(Debug, Clone, PartialEq, Eq)]
pub struct TodoEntity {
    pub id: i32,
    pub text: String,
    pub completed: bool,
    pub labels: Vec<Label>,
}

/// What a `TodoEntity` holds, as mathematical values.
pub struct TodoView {
    pub id: i32,
    pub text: Seq<char>,
    pub completed: bool,
    pub labels: Seq<LabelView>,
}

impl View for TodoEntity {
    type V = TodoView;

    open spec fn view(&self) -> TodoView {
        TodoView {
            id: self.id,
            text: self.text@,
            completed: self.completed,
            labels: labels_view(self.labels@),
        }
    }
}

/// The views of a sequence of entities.
pub open spec fn entities_view(es: Seq<TodoEntity>) -> Seq<TodoView> {
    es.map_values(|e: TodoEntity| e@)
}

impl TodoEntity {
    /// A todo without labels that is not completed.
    pub fn new(id: i32, text: String) -> (r: TodoEntity)
        ensures
            r@ == (TodoView { id, text: text@, completed: false, labels: seq![] }),
    {
        let r = TodoEntity { id, text, completed: false, labels: Vec::new() };
        assert(labels_view(r.labels@) =~= seq![]);
        r
    }
}

/// One row of the outer join of todos with their labels: a todo's fields and
/// one of its labels, or no label at all.
#[derive(Debug, Clone, PartialEq, Eq)]
pub struct TodoWithLabelRow {
    pub id: i32,
    pub text: String,
    pub completed: bool,
    pub label_id: Option<i32>,
    pub label_name: Option<String>,
}

/// What a `TodoWithLabelRow` holds, as mathematical values.
pub struct RowView {
    pub id: i32,
    pub text: Seq<char>,
    pub completed: bool,
    pub label_id: Option<i32>,
    pub label_name: Option<Seq<char>>,
}

impl View for TodoWithLabelRow {
    type V = RowView;

    open spec fn view(&self) -> RowView {
        RowView {
            id: self.id,
            text: self.text@,
            completed: self.completed,
            label_id: self.label_id,
            label_name: match self.label_name {
                Some(n) => Some(n@),
                None => None,
            },
        }
    }
}

/// The views of a sequence of rows.
pub open spec fn rows_view(rows: Seq<TodoWithLabelRow>) -> Seq<RowView> {
    rows.map_values(|r: TodoWithLabelRow| r@)
}

impl TodoWithLabelRow {
    /// A copy of this row.
    pub fn duplicate(&self) -> (r: TodoWithLabelRow)
        ensures
            r == *self,
    {
        let label_name = match &self.label_name {
            Some(n) => Some(n.clone()),
            None => None,
        };
        TodoWithLabelRow {
            id: self.id,
            text: self.text.clone(),
            completed: self.completed,
            label_id: self.label_id,
            label_name,
        }
    }
}

/// The payload that creates a todo: its text and the ids of its labels.
#[derive(Debug, Clone, PartialEq, Eq)]
pub struct CreateTodo {
    pub text: String,
    pub labels: Vec<i32>,
}

impl CreateTodo {
    pub fn new(text: String, labels: Vec<i32>) -> (r: CreateTodo)
        ensures
            r.text == text,
            r.labels == labels,
    {
        CreateTodo { text, labels }
    }

    /// A text of one to 288 characters.
    pub open spec fn is_valid(&self) -> bool {
        length_ok(self.text@, TODO_TEXT_MAX)
    }

    /// Checks the text: it may be neither empty nor longer than 288 characters.
    pub fn validate(&self) -> (r: Result<(), ValidationError>)
        ensures
            r is Ok <==> self.is_valid(),
            r == Err::<(), _>(ValidationError::Empty) <==> self.text@.len() == 0,
            r == Err::<(), _>(ValidationError::TooLong) <==> self.text@.len() > TODO_TEXT_MAX,
    {
        check_length(self.text.as_str(), TODO_TEXT_MAX)
    }
}

/// The payload that changes a todo: each field that is present replaces the
/// stored one, and a list of label ids replaces all of the todo's labels.
#[derive(Debug, Clone, PartialEq, Eq)]
pub struct UpdateTodo {
    pub text: Option<String>,
    pub completed: Option<bool>,
    pub labels: Option<Vec<i32>>,
}

impl UpdateTodo {
    pub fn new(text: Option<String>, completed: Option<bool>, labels: Option<Vec<i32>>) -> (r:
        UpdateTodo)
        ensures
            r.text == text,
            r.completed == completed,
            r.labels == labels,
    {
        UpdateTodo { text, completed, labels }
    }

    /// The stored todo `old` with the fields that this payload holds put in
    /// place of its own; a field that the payload leaves out keeps its value.
    pub fn merge(&self, old: &Todo) -> (r: Todo)
        ensures
            r.id == old.id,
            r.text@ == match self.text {
                Some(t) => t@,
                None => old.text@,
            },
            r.completed == match self.completed {
                Some(c) => c,
                None => old.completed,
            },
    {
        let text = match &self.text {
            Some(t) => t.clone(),
            None => old.text.clone(),
        };
        let completed = match self.completed {
            Some(c) => c,
            None => old.completed,
        };
        Todo { id: old.id, text, completed }
    }

    /// No text, or a text of one to 288 characters.
    pub open spec fn is_valid(&self) -> bool {
        match self.text {
            Some(t) => length_ok(t@, TODO_TEXT_MAX),
            None => true,
        }
    }

    /// Checks the text where one is given, as `CreateTodo::validate` does.
    pub fn validate(&self) -> (r: Result<(), ValidationError>)
        ensures
            r is Ok <==> self.is_valid(),
            r == Err::<(), _>(ValidationError::Empty) <==> (self.text matches Some(t) && t@.len()
                == 0),
            r == Err::<(), _>(ValidationError::TooLong) <==> (self.text matches Some(t) && t@.len()
                > TODO_TEXT_MAX),
    {
        match &self.text {
            Some(t) => check_length(t.as_str(), TODO_TEXT_MAX),
            None => Ok(()),
        }
    }
}

} // verus!
