use shopping_list_backend::handlers::{
    create_item, create_tag, delete_item, delete_tag, get_item, get_items, get_tag, get_tags,
    update_item, update_tag, STATUS_BAD_REQUEST, STATUS_CREATED, STATUS_INTERNAL_ERROR,
    STATUS_NOT_FOUND, STATUS_NO_CONTENT,
};
use shopping_list_backend::models::{
    CreateItemRequest, CreateTagRequest, FilterParams, UpdateItemRequest, UpdateTagRequest,
};
use shopping_list_backend::store::Store;

const T1: &str = "2024-01-01 08:00:00";
const T2: &str = "2024-01-01 09:00:00";
const T3: &str = "2024-01-01 10:00:00";

fn item_req(content: &str) -> CreateItemRequest {
    CreateItemRequest { content: content.to_string(), checked: false, tag_ids: Vec::new() }
}

fn tag_req(name: &str, color: Option<&str>) -> CreateTagRequest {
    CreateTagRequest { name: name.to_string(), color: color.map(|c| c.to_string()) }
}

fn untouched_item_patch() -> UpdateItemRequest {
    UpdateItemRequest { content: None, checked: None, tag_ids: None }
}

#[test]
fn create_item_defaults() {
    let mut store = Store::new();
    let (status, item) = create_item(&mut store, &item_req("Milk"), T1).unwrap();
    assert_eq!(status, STATUS_CREATED);
    assert_eq!(item.id, 1);
    assert_eq!(item.content, "Milk");
    assert!(!item.checked);
    assert_eq!(item.created_at, T1);
    assert_eq!(item.updated_at, T1);
    assert!(item.tags.is_empty());
}

#[test]
fn create_item_short_content_rejected() {
    let mut store = Store::new();
    let err = create_item(&mut store, &item_req("ab"), T1).unwrap_err();
    assert_eq!(err.0, STATUS_BAD_REQUEST);
    assert_eq!(err.1.error, "content must be at least 3 characters");
    // nothing was persisted
    let items = get_items(&store, &FilterParams { tag_id: None }).unwrap();
    assert!(items.is_empty());
}

#[test]
fn create_item_content_of_three_chars_accepted() {
    let mut store = Store::new();
    let (status, item) = create_item(&mut store, &item_req("abc"), T1).unwrap();
    assert_eq!(status, STATUS_CREATED);
    assert_eq!(item.content, "abc");
}

#[test]
fn create_item_unknown_tag_is_internal_error() {
    let mut store = Store::new();
    let req = CreateItemRequest { content: "Milk".to_string(), checked: false, tag_ids: vec![7] };
    let err = create_item(&mut store, &req, T1).unwrap_err();
    assert_eq!(err.0, STATUS_INTERNAL_ERROR);
    assert!(get_items(&store, &FilterParams { tag_id: None }).unwrap().is_empty());
}

#[test]
fn list_items_newest_first() {
    let mut store = Store::new();
    create_item(&mut store, &item_req("first"), T1).unwrap();
    create_item(&mut store, &item_req("second"), T2).unwrap();
    create_item(&mut store, &item_req("third"), T3).unwrap();
    let items = get_items(&store, &FilterParams { tag_id: None }).unwrap();
    let contents: Vec<&str> = items.iter().map(|i| i.content.as_str()).collect();
    assert_eq!(contents, ["third", "second", "first"]);
}

#[test]
fn filter_by_tag_lists_each_item_once() {
    let mut store = Store::new();
    let (_, tag) = create_tag(&mut store, &tag_req("urgent", None), T1).unwrap();
    let tagged = CreateItemRequest {
        content: "Milk".to_string(),
        checked: false,
        // a duplicate association attempt is a silent no-op
        tag_ids: vec![tag.id, tag.id],
    };
    let (_, item) = create_item(&mut store, &tagged, T1).unwrap();
    create_item(&mut store, &item_req("Bread"), T2).unwrap();
    let filtered = get_items(&store, &FilterParams { tag_id: Some(tag.id) }).unwrap();
    assert_eq!(filtered.len(), 1);
    assert_eq!(filtered[0].id, item.id);
    assert_eq!(filtered[0].tags.len(), 1);
    assert_eq!(filtered[0].tags[0].name, "urgent");
}

#[test]
fn update_checked_only_keeps_content_and_tags() {
    let mut store = Store::new();
    let (_, tag) = create_tag(&mut store, &tag_req("urgent", None), T1).unwrap();
    let req = CreateItemRequest {
        content: "Milk".to_string(),
        checked: false,
        tag_ids: vec![tag.id],
    };
    let (_, item) = create_item(&mut store, &req, T1).unwrap();
    let patch = UpdateItemRequest { content: None, checked: Some(true), tag_ids: None };
    let updated = update_item(&mut store, item.id, &patch, T2).unwrap();
    assert!(updated.checked);
    assert_eq!(updated.content, "Milk");
    assert_eq!(updated.tags.len(), 1);
    assert_eq!(updated.created_at, T1);
    assert_eq!(updated.updated_at, T2);
}

#[test]
fn update_with_empty_tag_list_clears_associations() {
    let mut store = Store::new();
    let (_, tag) = create_tag(&mut store, &tag_req("urgent", None), T1).unwrap();
    let req = CreateItemRequest {
        content: "Milk".to_string(),
        checked: false,
        tag_ids: vec![tag.id],
    };
    let (_, item) = create_item(&mut store, &req, T1).unwrap();
    assert_eq!(item.tags.len(), 1);
    let patch = UpdateItemRequest { content: None, checked: None, tag_ids: Some(Vec::new()) };
    let updated = update_item(&mut store, item.id, &patch, T2).unwrap();
    assert!(updated.tags.is_empty());
    // only the association went away, not the tag itself
    assert_eq!(get_tags(&store).unwrap().len(), 1);
}

#[test]
fn update_item_short_content_rejected() {
    let mut store = Store::new();
    let (_, item) = create_item(&mut store, &item_req("Milk"), T1).unwrap();
    let patch = UpdateItemRequest { content: Some("ab".to_string()), checked: None, tag_ids: None };
    let err = update_item(&mut store, item.id, &patch, T2).unwrap_err();
    assert_eq!(err.0, STATUS_BAD_REQUEST);
    let unchanged = get_item(&store, item.id).unwrap();
    assert_eq!(unchanged.content, "Milk");
    assert_eq!(unchanged.updated_at, T1);
}

#[test]
fn duplicate_tag_name_conflicts() {
    let mut store = Store::new();
    create_tag(&mut store, &tag_req("urgent", Some("#ff0000")), T1).unwrap();
    let err = create_tag(&mut store, &tag_req("urgent", None), T2).unwrap_err();
    assert_eq!(err.0, STATUS_BAD_REQUEST);
    assert_eq!(err.1.error, "Tag with this name already exists");
    assert_eq!(get_tags(&store).unwrap().len(), 1);
}

#[test]
fn empty_tag_name_rejected() {
    let mut store = Store::new();
    let err = create_tag(&mut store, &tag_req("", None), T1).unwrap_err();
    assert_eq!(err.0, STATUS_BAD_REQUEST);
    assert_eq!(err.1.error, "name is required");
    assert!(get_tags(&store).unwrap().is_empty());
}

#[test]
fn tags_listed_by_name_ascending() {
    let mut store = Store::new();
    create_tag(&mut store, &tag_req("pantry", None), T1).unwrap();
    create_tag(&mut store, &tag_req("dairy", None), T1).unwrap();
    create_tag(&mut store, &tag_req("frozen", None), T1).unwrap();
    let names: Vec<String> = get_tags(&store).unwrap().into_iter().map(|t| t.name).collect();
    assert_eq!(names, ["dairy", "frozen", "pantry"]);
}

#[test]
fn deleting_tag_keeps_items_and_shrinks_their_tag_lists() {
    let mut store = Store::new();
    let (_, urgent) = create_tag(&mut store, &tag_req("urgent", None), T1).unwrap();
    let (_, dairy) = create_tag(&mut store, &tag_req("dairy", None), T1).unwrap();
    let req = CreateItemRequest {
        content: "Milk".to_string(),
        checked: false,
        tag_ids: vec![urgent.id, dairy.id],
    };
    let (_, item) = create_item(&mut store, &req, T1).unwrap();
    assert_eq!(item.tags.len(), 2);
    assert_eq!(delete_tag(&mut store, urgent.id).unwrap(), STATUS_NO_CONTENT);
    let fetched = get_item(&store, item.id).unwrap();
    assert_eq!(fetched.content, "Milk");
    assert_eq!(fetched.tags.len(), 1);
    assert_eq!(fetched.tags[0].name, "dairy");
}

#[test]
fn nonexistent_ids_map_to_not_found() {
    let mut store = Store::new();
    assert_eq!(get_item(&store, 42).unwrap_err().0, STATUS_NOT_FOUND);
    assert_eq!(
        update_item(&mut store, 42, &untouched_item_patch(), T1).unwrap_err().0,
        STATUS_NOT_FOUND
    );
    assert_eq!(delete_item(&mut store, 42).unwrap_err().0, STATUS_NOT_FOUND);
    assert_eq!(get_tag(&store, 42).unwrap_err().0, STATUS_NOT_FOUND);
    let tag_patch = UpdateTagRequest { name: None, color: None };
    assert_eq!(update_tag(&mut store, 42, &tag_patch).unwrap_err().0, STATUS_NOT_FOUND);
    assert_eq!(delete_tag(&mut store, 42).unwrap_err().0, STATUS_NOT_FOUND);
}

#[test]
fn created_item_round_trips_through_fetch() {
    let mut store = Store::new();
    let (_, tag) = create_tag(&mut store, &tag_req("urgent", Some("#ff0000")), T1).unwrap();
    let req = CreateItemRequest {
        content: "Milk".to_string(),
        checked: true,
        tag_ids: vec![tag.id],
    };
    let (_, created) = create_item(&mut store, &req, T2).unwrap();
    let fetched = get_item(&store, created.id).unwrap();
    assert_eq!(fetched.id, created.id);
    assert_eq!(fetched.content, created.content);
    assert_eq!(fetched.checked, created.checked);
    assert_eq!(fetched.created_at, created.created_at);
    assert_eq!(fetched.updated_at, created.updated_at);
    assert_eq!(fetched.tags.len(), created.tags.len());
    assert_eq!(fetched.tags[0].id, created.tags[0].id);
    assert_eq!(fetched.tags[0].name, created.tags[0].name);
    assert_eq!(fetched.tags[0].color, created.tags[0].color);
    assert_eq!(fetched.tags[0].created_at, created.tags[0].created_at);
}

#[test]
fn update_tag_name_conflict_and_reorder() {
    let mut store = Store::new();
    let (_, a) = create_tag(&mut store, &tag_req("aa", None), T1).unwrap();
    let (_, z) = create_tag(&mut store, &tag_req("zz", None), T1).unwrap();
    // renaming onto an existing name conflicts
    let clash = UpdateTagRequest { name: Some("zz".to_string()), color: None };
    let err = update_tag(&mut store, a.id, &clash).unwrap_err();
    assert_eq!(err.0, STATUS_BAD_REQUEST);
    assert_eq!(err.1.error, "Tag with this name already exists");
    // renaming to a fresh name re-sorts the listing
    let rename = UpdateTagRequest { name: Some("mm".to_string()), color: None };
    let renamed = update_tag(&mut store, z.id, &rename).unwrap();
    assert_eq!(renamed.name, "mm");
    assert_eq!(renamed.created_at, z.created_at);
    let names: Vec<String> = get_tags(&store).unwrap().into_iter().map(|t| t.name).collect();
    assert_eq!(names, ["aa", "mm"]);
    // an empty replacement name is rejected
    let empty = UpdateTagRequest { name: Some(String::new()), color: None };
    assert_eq!(update_tag(&mut store, a.id, &empty).unwrap_err().0, STATUS_BAD_REQUEST);
}

#[test]
fn update_tag_color_only_keeps_name() {
    let mut store = Store::new();
    let (_, tag) = create_tag(&mut store, &tag_req("urgent", None), T1).unwrap();
    let patch = UpdateTagRequest { name: None, color: Some("#00ff00".to_string()) };
    let updated = update_tag(&mut store, tag.id, &patch).unwrap();
    assert_eq!(updated.name, "urgent");
    assert_eq!(updated.color.as_deref(), Some("#00ff00"));
    assert_eq!(get_tag(&store, tag.id).unwrap().color.as_deref(), Some("#00ff00"));
}

#[test]
fn delete_item_removes_it_from_listings() {
    let mut store = Store::new();
    let (_, item) = create_item(&mut store, &item_req("Milk"), T1).unwrap();
    create_item(&mut store, &item_req("Bread"), T2).unwrap();
    assert_eq!(delete_item(&mut store, item.id).unwrap(), STATUS_NO_CONTENT);
    let items = get_items(&store, &FilterParams { tag_id: None }).unwrap();
    assert_eq!(items.len(), 1);
    assert_eq!(items[0].content, "Bread");
    assert_eq!(get_item(&store, item.id).unwrap_err().0, STATUS_NOT_FOUND);
}

#[test]
fn content_length_counts_characters_not_bytes() {
    let mut store = Store::new();
    // three characters, more than three bytes
    let (status, item) = create_item(&mut store, &item_req("äöü"), T1).unwrap();
    assert_eq!(status, STATUS_CREATED);
    assert_eq!(item.content, "äöü");
}

#[test]
fn update_content_only_refreshes_timestamp() {
    let mut store = Store::new();
    let (_, item) = create_item(&mut store, &item_req("Milk"), T1).unwrap();
    let patch =
        UpdateItemRequest { content: Some("Oat milk".to_string()), checked: None, tag_ids: None };
    let updated = update_item(&mut store, item.id, &patch, T2).unwrap();
    assert_eq!(updated.content, "Oat milk");
    assert!(!updated.checked);
    assert_eq!(updated.created_at, T1);
    assert_eq!(updated.updated_at, T2);
}

#[test]
fn filter_by_unknown_tag_yields_empty_list() {
    let mut store = Store::new();
    create_item(&mut store, &item_req("Milk"), T1).unwrap();
    let items = get_items(&store, &FilterParams { tag_id: Some(99) }).unwrap();
    assert!(items.is_empty());
}
