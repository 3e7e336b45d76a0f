use vstd::prelude::*;

verus! {

/// The form with which a user submits a new article.
#[derive(Debug)]
pub struct CreateArticle {
    pub title: String,
    pub description: String,
    pub content: String,
}

impl CreateArticle {
    /// A new-article form with the given title, description and content.
    pub fn new(title: String, description: String, content: String) -> (a: CreateArticle)
        ensures
            a.title == title,
            a.description == description,
            a.content == content,
    {
        CreateArticle { title, description, content }
    }
}

} // verus!
