use vstd::prelude::*;

use crate::error::ValidationError;
use crate::validate::{check_length, length_ok, LABEL_NAME_MAX};

verus! {

/// A named tag that many todos may carry.
#[derive(Debug, Clone, PartialEq, Eq)]
pub struct Label {
    pub id: i32,
    pub name: String,
}

/// What a `Label` holds, with its name as characters.
pub struct LabelView {
    pub id: i32,
    pub name: Seq<char>,
}

impl View for Label {
    type V = LabelView;

    open spec fn view(&self) -> LabelView {
        LabelView { id: self.id, name: self.name@ }
    }
}

/// The views of a sequence of labels.
pub open spec fn labels_view(labels: Seq<Label>) -> Seq<LabelView> {
    labels.map_values(|l: Label| l@)
}

impl Label {
    pub fn new(id: i32, name: String) -> (r: Label)
        ensures
            r.id == id,
            r.name == name,
    {
        Label { id, name }
    }

    /// A copy of this label.
    pub fn duplicate(&self) -> (r: Label)
        ensures
            r == *self,
    {
        Label { id: self.id, name: self.name.clone() }
    }
}

/// The payload that creates a label.
#[derive(Debug, Clone, PartialEq, Eq)]
pub struct CreateLabel {
    pub name: String,
}

impl CreateLabel {
    pub fn new(name: String) -> (r: CreateLabel)
        ensures
            r.name == name,
    {
        CreateLabel { name }
    }

    /// A name of one to 255 characters.
    pub open spec fn is_valid(&self) -> bool {
        length_ok(self.name@, LABEL_NAME_MAX)
    }

    /// Checks the name: it may be neither empty nor longer than 255 characters.
    pub fn validate(&self) -> (r: Result<(), ValidationError>)
        ensures
            r is Ok <==> self.is_valid(),
            r == Err::<(), _>(ValidationError::Empty) <==> self.name@.len() == 0,
            r == Err::<(), _>(ValidationError::TooLong) <==> self.name@.len() > LABEL_NAME_MAX,
    {
        check_length(self.name.as_str(), LABEL_NAME_MAX)
    }
}

} // verus!
