//! Per-request decision logic: semantic validation, storage invocation,
//! and the mapping of every outcome to an HTTP status code and body.
//!
//! The serving runtime parses requests and hands the plain payloads in;
//! these functions decide everything else.

use vstd::prelude::*;

use crate::models::{
    CreateItemRequest, CreateTagRequest, ErrorResponse, FilterParams, Item, Tag, UpdateItemRequest,
    UpdateTagRequest,
};
use crate::store::{
    all_tags_exist, create_item_model, create_tag_model, delete_item_model, delete_tag_model,
    find_item, find_tag, get_item_model, has_item_id, has_tag_id, has_tag_name, ids_view,
    item_view, list_items_model, name_conflict, new_item_row, new_tag_row, opt_id_view,
    opt_text_view, opt_ids_view, patched_row, patched_tag, update_item_model, update_tag_model, wf,
    Store,
};

verus! {

pub const STATUS_CREATED: u16 = 201;

pub const STATUS_NO_CONTENT: u16 = 204;

pub const STATUS_BAD_REQUEST: u16 = 400;

pub const STATUS_NOT_FOUND: u16 = 404;

pub const STATUS_INTERNAL_ERROR: u16 = 500;

/// An optional content patch passes validation when absent or at least
/// three characters long.
pub open spec fn content_patch_ok(content: Option<String>) -> bool {
    match content {
        Some(c) => c@.len() >= 3,
        None => true,
    }
}

/// An optional name patch passes validation when absent or non-empty.
pub open spec fn name_patch_ok(name: Option<String>) -> bool {
    match name {
        Some(n) => n@.len() > 0,
        None => true,
    }
}

/// Decides the validation rule for item content: at least three
/// characters.
pub fn valid_item_content(content: &str) -> (r: bool)
    ensures
        r == (content@.len() >= 3),
{
    content.unicode_len() >= 3
}

/// Decides the validation rule for tag names: non-empty.
pub fn valid_tag_name(name: &str) -> (r: bool)
    ensures
        r == (name@.len() > 0),
{
    name.unicode_len() > 0
}

/// Lists items, optionally filtered by tag id: newest first, each with
/// its full tag set.
pub fn get_items(store: &Store, params: &FilterParams) -> (r: Result<
    Vec<Item>,
    (u16, ErrorResponse),
>)
    ensures
        r matches Ok(items) && items@.map_values(|it: Item| it@) == list_items_model(
            store@,
            store@.items,
            opt_id_view(params.tag_id),
        ),
{
    Ok(store.get_all_items(params.tag_id))
}

/// Fetches one item; an absent id maps to 404.
pub fn get_item(store: &Store, id: i64) -> (r: Result<Item, (u16, ErrorResponse)>)
    ensures
        r matches Ok(item) ==> get_item_model(store@, id as int) == Some(item@),
        r matches Err(e) ==> e.0 == STATUS_NOT_FOUND && e.1.error@ == "Item not found"@
            && get_item_model(store@, id as int) is None,
        r is Ok <==> find_item(store@.items, id as int) is Some,
{
    match store.get_item_by_id(id) {
        Some(item) => Ok(item),
        None => Err((STATUS_NOT_FOUND, ErrorResponse::new("Item not found"))),
    }
}

/// Creates an item. Content shorter than three characters maps to 400
/// without touching storage; a storage failure maps to 500.
pub fn create_item(store: &mut Store, payload: &CreateItemRequest, now: &str) -> (r: Result<
    (u16, Item),
    (u16, ErrorResponse),
>)
    requires
        wf(old(store)@),
        old(store).next_item_id < i64::MAX,
    ensures
        wf(final(store)@),
        payload.content@.len() < 3 ==> (r matches Err(e) && e.0 == STATUS_BAD_REQUEST
            && e.1.error@ == "content must be at least 3 characters"@ && final(store)@ == old(
            store,
        )@),
        payload.content@.len() >= 3 && !all_tags_exist(
            old(store)@.tags,
            ids_view(payload.tag_ids@),
        ) ==> (r matches Err(e) && e.0 == STATUS_INTERNAL_ERROR && e.1.error@
            == "Failed to create item"@ && final(store)@ == old(store)@),
        payload.content@.len() >= 3 && all_tags_exist(
            old(store)@.tags,
            ids_view(payload.tag_ids@),
        ) ==> (r matches Ok(p) && p.0 == STATUS_CREATED && final(store)@ == create_item_model(
            old(store)@,
            payload.content@,
            payload.checked,
            ids_view(payload.tag_ids@),
            now@,
        ) && p.1@ == item_view(
            final(store)@,
            new_item_row(old(store)@, payload.content@, payload.checked, now@),
        )),
{
    if !valid_item_content(payload.content.as_str()) {
        return Err((
            STATUS_BAD_REQUEST,
            ErrorResponse::new("content must be at least 3 characters"),
        ));
    }
    match store.create_item(payload, now) {
        Ok(item) => Ok((STATUS_CREATED, item)),
        Err(_) => Err((STATUS_INTERNAL_ERROR, ErrorResponse::new("Failed to create item"))),
    }
}

/// Partially updates an item. Supplied content shorter than three
/// characters maps to 400 without touching storage; an absent id to 404;
/// a storage failure to 500.
pub fn update_item(store: &mut Store, id: i64, payload: &UpdateItemRequest, now: &str) -> (r:
    Result<Item, (u16, ErrorResponse)>)
    requires
        wf(old(store)@),
    ensures
        wf(final(store)@),
        !content_patch_ok(payload.content) ==> (r matches Err(e) && e.0 == STATUS_BAD_REQUEST
            && e.1.error@ == "content must be at least 3 characters"@ && final(store)@ == old(
            store,
        )@),
        content_patch_ok(payload.content) && find_item(old(store)@.items, id as int) is None ==> (
        r matches Err(e) && e.0 == STATUS_NOT_FOUND && e.1.error@ == "Item not found"@
            && final(store)@ == old(store)@),
        content_patch_ok(payload.content) && find_item(old(store)@.items, id as int) is Some && (
        payload.tag_ids matches Some(v) && !all_tags_exist(old(store)@.tags, ids_view(v@))) ==> (
        r matches Err(e) && e.0 == STATUS_INTERNAL_ERROR && e.1.error@ == "Failed to update item"@
            && final(store)@ == old(store)@),
        content_patch_ok(payload.content) && find_item(old(store)@.items, id as int) is Some && (
        match payload.tag_ids {
            Some(ref v) => all_tags_exist(old(store)@.tags, ids_view(v@)),
            None => true,
        }) ==> (r matches Ok(item) && final(store)@ == update_item_model(
            old(store)@,
            id as int,
            opt_text_view(payload.content),
            payload.checked,
            opt_ids_view(payload.tag_ids),
            now@,
        ) && (find_item(old(store)@.items, id as int) matches Some(row0) && item@ == item_view(
            final(store)@,
            patched_row(row0, opt_text_view(payload.content), payload.checked, now@),
        ))),
{
    if let Some(content) = &payload.content {
        if !valid_item_content(content.as_str()) {
            return Err((
                STATUS_BAD_REQUEST,
                ErrorResponse::new("content must be at least 3 characters"),
            ));
        }
    }
    match store.update_item(id, payload, now) {
        Ok(Some(item)) => Ok(item),
        Ok(None) => Err((STATUS_NOT_FOUND, ErrorResponse::new("Item not found"))),
        Err(_) => Err((STATUS_INTERNAL_ERROR, ErrorResponse::new("Failed to update item"))),
    }
}

/// Deletes an item: 204 with no body on success, 404 when absent.
pub fn delete_item(store: &mut Store, id: i64) -> (r: Result<u16, (u16, ErrorResponse)>)
    requires
        wf(old(store)@),
    ensures
        wf(final(store)@),
        final(store)@ == delete_item_model(old(store)@, id as int),
        r is Ok <==> has_item_id(old(store)@.items, id as int),
        r matches Ok(s) ==> s == STATUS_NO_CONTENT,
        r matches Err(e) ==> e.0 == STATUS_NOT_FOUND && e.1.error@ == "Item not found"@,
{
    if store.delete_item(id) {
        Ok(STATUS_NO_CONTENT)
    } else {
        Err((STATUS_NOT_FOUND, ErrorResponse::new("Item not found")))
    }
}

/// Lists every tag, ascending by name.
pub fn get_tags(store: &Store) -> (r: Result<Vec<Tag>, (u16, ErrorResponse)>)
    ensures
        r matches Ok(tags) && tags@.map_values(|t: Tag| t@) == store@.tags,
{
    Ok(store.get_all_tags())
}

/// Fetches one tag; an absent id maps to 404.
pub fn get_tag(store: &Store, id: i64) -> (r: Result<Tag, (u16, ErrorResponse)>)
    ensures
        r matches Ok(t) ==> find_tag(store@.tags, id as int) == Some(t@),
        r matches Err(e) ==> e.0 == STATUS_NOT_FOUND && e.1.error@ == "Tag not found"@ && find_tag(
            store@.tags,
            id as int,
        ) is None,
        r is Ok <==> find_tag(store@.tags, id as int) is Some,
{
    match store.get_tag_by_id(id) {
        Some(t) => Ok(t),
        None => Err((STATUS_NOT_FOUND, ErrorResponse::new("Tag not found"))),
    }
}

/// Creates a tag. An empty name maps to 400 without touching storage; a
/// name collision maps to 400 with a conflict message.
pub fn create_tag(store: &mut Store, payload: &CreateTagRequest, now: &str) -> (r: Result<
    (u16, Tag),
    (u16, ErrorResponse),
>)
    requires
        wf(old(store)@),
        old(store).next_tag_id < i64::MAX,
    ensures
        wf(final(store)@),
        payload.name@.len() == 0 ==> (r matches Err(e) && e.0 == STATUS_BAD_REQUEST && e.1.error@
            == "name is required"@ && final(store)@ == old(store)@),
        payload.name@.len() > 0 && has_tag_name(old(store)@.tags, payload.name@) ==> (r matches
            Err(e) && e.0 == STATUS_BAD_REQUEST && e.1.error@
            == "Tag with this name already exists"@ && final(store)@ == old(store)@),
        payload.name@.len() > 0 && !has_tag_name(old(store)@.tags, payload.name@) ==> (r matches
            Ok(p) && p.0 == STATUS_CREATED && final(store)@ == create_tag_model(
            old(store)@,
            payload.name@,
            opt_text_view(payload.color),
            now@,
        ) && p.1@ == new_tag_row(old(store)@, payload.name@, opt_text_view(payload.color), now@)),
{
    if !valid_tag_name(payload.name.as_str()) {
        return Err((STATUS_BAD_REQUEST, ErrorResponse::new("name is required")));
    }
    match store.create_tag(payload, now) {
        Ok(t) => Ok((STATUS_CREATED, t)),
        Err(_) => Err((
            STATUS_BAD_REQUEST,
            ErrorResponse::new("Tag with this name already exists"),
        )),
    }
}

/// Partially updates a tag. A supplied empty name maps to 400 without
/// touching storage; an absent id to 404; a name collision to 400 with
/// a conflict message.
pub fn update_tag(store: &mut Store, id: i64, payload: &UpdateTagRequest) -> (r: Result<
    Tag,
    (u16, ErrorResponse),
>)
    requires
        wf(old(store)@),
    ensures
        wf(final(store)@),
        !name_patch_ok(payload.name) ==> (r matches Err(e) && e.0 == STATUS_BAD_REQUEST
            && e.1.error@ == "name cannot be empty"@ && final(store)@ == old(store)@),
        name_patch_ok(payload.name) && find_tag(old(store)@.tags, id as int) is None ==> (r
            matches Err(e) && e.0 == STATUS_NOT_FOUND && e.1.error@ == "Tag not found"@
            && final(store)@ == old(store)@),
        name_patch_ok(payload.name) && find_tag(old(store)@.tags, id as int) is Some && (
        payload.name matches Some(n) && name_conflict(old(store)@, id as int, n@)) ==> (r matches
            Err(e) && e.0 == STATUS_BAD_REQUEST && e.1.error@
            == "Tag with this name already exists"@ && final(store)@ == old(store)@),
        name_patch_ok(payload.name) && find_tag(old(store)@.tags, id as int) is Some && (match
            payload.name {
            Some(ref n) => !name_conflict(old(store)@, id as int, n@),
            None => true,
        }) ==> (r matches Ok(t) && final(store)@ == update_tag_model(
            old(store)@,
            id as int,
            opt_text_view(payload.name),
            opt_text_view(payload.color),
        ) && (find_tag(old(store)@.tags, id as int) matches Some(t0) && t@ == patched_tag(
            t0,
            opt_text_view(payload.name),
            opt_text_view(payload.color),
        ))),
{
    if let Some(name) = &payload.name {
        if !valid_tag_name(name.as_str()) {
            return Err((STATUS_BAD_REQUEST, ErrorResponse::new("name cannot be empty")));
        }
    }
    match store.update_tag(id, payload) {
        Ok(Some(t)) => Ok(t),
        Ok(None) => Err((STATUS_NOT_FOUND, ErrorResponse::new("Tag not found"))),
        Err(_) => Err((
            STATUS_BAD_REQUEST,
            ErrorResponse::new("Tag with this name already exists"),
        )),
    }
}

/// Deletes a tag: 204 with no body on success, 404 when absent. The
/// tag's associations go with it; the items stay.
pub fn delete_tag(store: &mut Store, id: i64) -> (r: Result<u16, (u16, ErrorResponse)>)
    requires
        wf(old(store)@),
    ensures
        wf(final(store)@),
        final(store)@ == delete_tag_model(old(store)@, id as int),
        r is Ok <==> has_tag_id(old(store)@.tags, id as int),
        r matches Ok(s) ==> s == STATUS_NO_CONTENT,
        r matches Err(e) ==> e.0 == STATUS_NOT_FOUND && e.1.error@ == "Tag not found"@,
{
    if store.delete_tag(id) {
        Ok(STATUS_NO_CONTENT)
    } else {
        Err((STATUS_NOT_FOUND, ErrorResponse::new("Tag not found")))
    }
}

} // verus!
