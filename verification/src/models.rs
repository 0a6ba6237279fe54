//! Data types exchanged with callers: items, tags, request payloads, and
//! the error body, together with their mathematical views.

use vstd::prelude::*;

verus! {

/// Mathematical view of a stored tag.
pub struct TagView {
    pub id: int,
    pub name: Seq<char>,
    pub color: Option<Seq<char>>,
    pub created_at: Seq<char>,
}

/// Mathematical view of an item together with its associated tags.
pub struct ItemView {
    pub id: int,
    pub content: Seq<char>,
    pub checked: bool,
    pub created_at: Seq<char>,
    pub updated_at: Seq<char>,
    pub tags: Seq<TagView>,
}

/// A tag: a named, optionally colored label attachable to items.
#[derive(Debug)]
pub struct Tag {
    pub id: i64,
    pub name: String,
    pub color: Option<String>,
    pub created_at: String,
}

/// A shopping-list entry, carrying its full tag set as a read projection.
#[derive(Debug)]
pub struct Item {
    pub id: i64,
    pub content: String,
    pub checked: bool,
    pub created_at: String,
    pub updated_at: String,
    pub tags: Vec<Tag>,
}

impl View for Tag {
    type V = TagView;

    open spec fn view(&self) -> TagView {
        TagView {
            id: self.id as int,
            name: self.name@,
            color: match self.color {
                Some(c) => Some(c@),
                None => None,
            },
            created_at: self.created_at@,
        }
    }
}

impl View for Item {
    type V = ItemView;

    open spec fn view(&self) -> ItemView {
        ItemView {
            id: self.id as int,
            content: self.content@,
            checked: self.checked,
            created_at: self.created_at@,
            updated_at: self.updated_at@,
            tags: self.tags@.map_values(|t: Tag| t@),
        }
    }
}

impl Tag {
    /// A field-for-field copy of the tag.
    pub fn duplicate(&self) -> (r: Tag)
        ensures
            r@ == self@,
    {
        Tag {
            id: self.id,
            name: self.name.clone(),
            color: match &self.color {
                Some(c) => Some(c.clone()),
                None => None,
            },
            created_at: self.created_at.clone(),
        }
    }
}

/// Payload for creating an item; `checked` defaults to false and
/// `tag_ids` to empty when absent from the request body.
#[derive(Debug)]
pub struct CreateItemRequest {
    pub content: String,
    pub checked: bool,
    pub tag_ids: Vec<i64>,
}

/// Partial-update payload for an item: an absent field is left unchanged;
/// a present `tag_ids` (even empty) replaces the whole association set.
#[derive(Debug)]
pub struct UpdateItemRequest {
    pub content: Option<String>,
    pub checked: Option<bool>,
    pub tag_ids: Option<Vec<i64>>,
}

/// Payload for creating a tag.
#[derive(Debug)]
pub struct CreateTagRequest {
    pub name: String,
    pub color: Option<String>,
}

/// Partial-update payload for a tag.
#[derive(Debug)]
pub struct UpdateTagRequest {
    pub name: Option<String>,
    pub color: Option<String>,
}

/// Query parameters of the item-listing route.
#[derive(Debug)]
pub struct FilterParams {
    pub tag_id: Option<i64>,
}

/// JSON error body returned with every non-success status.
#[derive(Debug)]
pub struct ErrorResponse {
    pub error: String,
}

impl ErrorResponse {
    pub fn new(error: &str) -> (r: Self)
        ensures
            r.error@ == error@,
    {
        ErrorResponse { error: error.to_owned() }
    }
}

} // verus!
