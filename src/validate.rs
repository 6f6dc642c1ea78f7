use vstd::prelude::*;

verus! {

/// Most characters a todo's text may hold.
pub const TODO_TEXT_MAX: u64 = 288;

/// Most characters a label's name may hold.
pub const LABEL_NAME_MAX: u64 = 255;

/// Relies on `validator::validate_length`: on a `&str` it counts the characters
/// and checks them against the bounds that are given.
#[verifier::external_body]
fn validate_length(s: &str, min: Option<u64>, max: Option<u64>) -> (r: bool)
    ensures
        r == ((min is None || min.unwrap() <= s@.len()) && (max is None || s@.len()
            <= max.unwrap())),
{
    validator::validate_length(s, min, max, None)
}

/// A text of one to `max` characters.
pub open spec fn length_ok(s: Seq<char>, max: u64) -> bool {
    1 <= s.len() <= max
}

/// Checks that `s` has at least one and at most `max` characters.
pub(crate) fn check_length(s: &str, max: u64) -> (r: Result<(), crate::error::ValidationError>)
    ensures
        r is Ok <==> length_ok(s@, max),
        r == Err::<(), _>(crate::error::ValidationError::Empty) <==> s@.len() == 0,
        r == Err::<(), _>(crate::error::ValidationError::TooLong) <==> s@.len() > max,
{
    if !validate_length(s, Some(1), None) {
        Err(crate::error::ValidationError::Empty)
    } else if !validate_length(s, None, Some(max)) {
        Err(crate::error::ValidationError::TooLong)
    } else {
        Ok(())
    }
}

} // verus!
