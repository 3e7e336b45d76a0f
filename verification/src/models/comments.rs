use vstd::prelude::*;

verus! {

/// The form with which a user submits a comment.
#[derive(Debug)]
pub struct CreateComment {
    pub content: String,
}

} // verus!
