//! The relational state of the application — item rows, tag rows and the
//! item–tag association table — together with every operation on it, each
//! specified against a mathematical model of the three tables.

use vstd::prelude::*;

use crate::models::{
    CreateItemRequest, CreateTagRequest, Item, ItemView, Tag, TagView, UpdateItemRequest,
    UpdateTagRequest,
};
use crate::order::{lex_le, lex_le_total, lex_le_trans, str_le};

verus! {

/// One persisted item row; the tag set is not stored inline but joined in
/// on read.
pub struct ItemRow {
    pub id: i64,
    pub content: String,
    pub checked: bool,
    pub created_at: String,
    pub updated_at: String,
}

/// Mathematical view of an item row.
#[verifier::ext_equal]
pub struct ItemRowView {
    pub id: int,
    pub content: Seq<char>,
    pub checked: bool,
    pub created_at: Seq<char>,
    pub updated_at: Seq<char>,
}

impl View for ItemRow {
    type V = ItemRowView;

    open spec fn view(&self) -> ItemRowView {
        ItemRowView {
            id: self.id as int,
            content: self.content@,
            checked: self.checked,
            created_at: self.created_at@,
            updated_at: self.updated_at@,
        }
    }
}

impl ItemRow {
    /// A field-for-field copy of the row.
    pub fn duplicate(&self) -> (r: ItemRow)
        ensures
            r@ == self@,
    {
        ItemRow {
            id: self.id,
            content: self.content.clone(),
            checked: self.checked,
            created_at: self.created_at.clone(),
            updated_at: self.updated_at.clone(),
        }
    }
}

/// One row of the item–tag association table: a link between an item and
/// a tag, with no payload of its own.
pub struct ItemTag {
    pub item_id: i64,
    pub tag_id: i64,
}

/// Mathematical view of an association row.
pub struct ItemTagView {
    pub item_id: int,
    pub tag_id: int,
}

impl View for ItemTag {
    type V = ItemTagView;

    open spec fn view(&self) -> ItemTagView {
        ItemTagView { item_id: self.item_id as int, tag_id: self.tag_id as int }
    }
}

/// Structured failure signal from the store, standing in for the
/// database's constraint errors.
pub enum StoreError {
    /// The tag-name uniqueness constraint was violated.
    UniqueViolation,
    /// An association referenced a tag id that does not exist.
    MissingReference,
}

/// The whole persisted state: the three tables and the two id counters.
///
/// Items are kept in creation order (ids strictly increasing), tags in
/// ascending name order; both facts are part of [`wf`].
pub struct Store {
    pub items: Vec<ItemRow>,
    pub tags: Vec<Tag>,
    pub item_tags: Vec<ItemTag>,
    pub next_item_id: i64,
    pub next_tag_id: i64,
}

/// Mathematical view of the whole store.
#[verifier::ext_equal]
pub struct StoreView {
    pub items: Seq<ItemRowView>,
    pub tags: Seq<TagView>,
    pub item_tags: Seq<ItemTagView>,
    pub next_item_id: int,
    pub next_tag_id: int,
}

impl View for Store {
    type V = StoreView;

    open spec fn view(&self) -> StoreView {
        StoreView {
            items: self.items@.map_values(|r: ItemRow| r@),
            tags: self.tags@.map_values(|t: Tag| t@),
            item_tags: self.item_tags@.map_values(|l: ItemTag| l@),
            next_item_id: self.next_item_id as int,
            next_tag_id: self.next_tag_id as int,
        }
    }
}

// ---------------------------------------------------------------------------
// The model: spec-level descriptions of lookups, joins and mutations.
// ---------------------------------------------------------------------------

/// Some item row carries this id.
pub open spec fn has_item_id(items: Seq<ItemRowView>, id: int) -> bool {
    exists|i: int| 0 <= i < items.len() && items[i].id == id
}

/// Some tag row carries this id.
pub open spec fn has_tag_id(tags: Seq<TagView>, id: int) -> bool {
    exists|i: int| 0 <= i < tags.len() && tags[i].id == id
}

/// Some tag row carries this name.
pub open spec fn has_tag_name(tags: Seq<TagView>, name: Seq<char>) -> bool {
    exists|i: int| 0 <= i < tags.len() && tags[i].name == name
}

/// The association table holds this (item, tag) pair.
pub open spec fn has_link(links: Seq<ItemTagView>, item_id: int, tag_id: int) -> bool {
    links.contains(ItemTagView { item_id, tag_id })
}

/// The first item row with this id, if any.
pub open spec fn find_item(items: Seq<ItemRowView>, id: int) -> Option<ItemRowView>
    decreases items.len(),
{
    if items.len() == 0 {
        None
    } else if items[0].id == id {
        Some(items[0])
    } else {
        find_item(items.skip(1), id)
    }
}

/// The first tag row with this id, if any.
pub open spec fn find_tag(tags: Seq<TagView>, id: int) -> Option<TagView>
    decreases tags.len(),
{
    if tags.len() == 0 {
        None
    } else if tags[0].id == id {
        Some(tags[0])
    } else {
        find_tag(tags.skip(1), id)
    }
}

/// The tag set of one item: the tag rows (in table order, which is name
/// order) that the association table links to the item.
pub open spec fn tags_of(tags: Seq<TagView>, links: Seq<ItemTagView>, item_id: int) -> Seq<TagView>
    decreases tags.len(),
{
    if tags.len() == 0 {
        Seq::empty()
    } else {
        tags_of(tags.drop_last(), links, item_id) + (if has_link(links, item_id, tags.last().id) {
            seq![tags.last()]
        } else {
            Seq::empty()
        })
    }
}

/// An item as returned to callers: its row joined with its tag set.
pub open spec fn item_view(s: StoreView, row: ItemRowView) -> ItemView {
    ItemView {
        id: row.id,
        content: row.content,
        checked: row.checked,
        created_at: row.created_at,
        updated_at: row.updated_at,
        tags: tags_of(s.tags, s.item_tags, row.id),
    }
}

/// The result of fetching one item by id.
pub open spec fn get_item_model(s: StoreView, id: int) -> Option<ItemView> {
    match find_item(s.items, id) {
        Some(row) => Some(item_view(s, row)),
        None => None,
    }
}

/// Whether a row passes the optional tag filter of the listing route.
pub open spec fn matches_filter(s: StoreView, row: ItemRowView, filter: Option<int>) -> bool {
    match filter {
        None => true,
        Some(tag_id) => has_link(s.item_tags, row.id, tag_id),
    }
}

/// The item listing: the rows passing the filter, newest first, each
/// joined with its tag set.
pub open spec fn list_items_model(s: StoreView, rows: Seq<ItemRowView>, filter: Option<int>) -> Seq<
    ItemView,
>
    decreases rows.len(),
{
    if rows.len() == 0 {
        Seq::empty()
    } else {
        (if matches_filter(s, rows.last(), filter) {
            seq![item_view(s, rows.last())]
        } else {
            Seq::empty()
        }) + list_items_model(s, rows.drop_last(), filter)
    }
}

/// View of an optional id parameter.
pub open spec fn opt_id_view(id: Option<i64>) -> Option<int> {
    match id {
        Some(x) => Some(x as int),
        None => None,
    }
}

/// Tags sorted strictly ascending by name (names pairwise distinct).
pub open spec fn sorted_by_name(tags: Seq<TagView>) -> bool {
    forall|i: int, j: int|
        0 <= i < j < tags.len() ==> lex_le(#[trigger] tags[i].name, #[trigger] tags[j].name)
            && tags[i].name != tags[j].name
}

/// Well-formedness of the store: unique ids below the counters, items in
/// creation order, tags in name order with unique names, association rows
/// pairwise distinct and referencing existing rows on both sides.
pub open spec fn wf(s: StoreView) -> bool {
    &&& 0 < s.next_item_id
    &&& 0 < s.next_tag_id
    &&& forall|i: int, j: int| 0 <= i < j < s.items.len() ==> s.items[i].id < s.items[j].id
    &&& forall|i: int| 0 <= i < s.items.len() ==> 0 < (#[trigger] s.items[i]).id < s.next_item_id
    &&& forall|i: int| 0 <= i < s.tags.len() ==> 0 < (#[trigger] s.tags[i]).id < s.next_tag_id
    &&& forall|i: int, j: int| 0 <= i < j < s.tags.len() ==> s.tags[i].id != s.tags[j].id
    &&& sorted_by_name(s.tags)
    &&& forall|i: int, j: int| 0 <= i < j < s.item_tags.len() ==> s.item_tags[i] != s.item_tags[j]
    &&& forall|k: int|
        0 <= k < s.item_tags.len() ==> has_item_id(s.items, (#[trigger] s.item_tags[k]).item_id)
            && has_tag_id(s.tags, s.item_tags[k].tag_id)
}

/// Views of a sequence of raw ids.
pub open spec fn ids_view(v: Seq<i64>) -> Seq<int> {
    v.map_values(|x: i64| x as int)
}

/// Every id in the sequence names an existing tag row.
pub open spec fn all_tags_exist(tags: Seq<TagView>, tag_ids: Seq<int>) -> bool {
    forall|k: int| 0 <= k < tag_ids.len() ==> has_tag_id(tags, #[trigger] tag_ids[k])
}

/// The association table after linking one item to each given tag in
/// turn, skipping pairs already present.
pub open spec fn add_links(links: Seq<ItemTagView>, item_id: int, tag_ids: Seq<int>) -> Seq<
    ItemTagView,
>
    decreases tag_ids.len(),
{
    if tag_ids.len() == 0 {
        links
    } else {
        let with_first = if has_link(links, item_id, tag_ids[0]) {
            links
        } else {
            links.push(ItemTagView { item_id, tag_id: tag_ids[0] })
        };
        add_links(with_first, item_id, tag_ids.skip(1))
    }
}

/// The row a freshly created item gets.
pub open spec fn new_item_row(
    s: StoreView,
    content: Seq<char>,
    checked: bool,
    now: Seq<char>,
) -> ItemRowView {
    ItemRowView { id: s.next_item_id, content, checked, created_at: now, updated_at: now }
}

/// The store after creating an item: its row appended, the given tags
/// linked, the id counter advanced.
pub open spec fn create_item_model(
    s: StoreView,
    content: Seq<char>,
    checked: bool,
    tag_ids: Seq<int>,
    now: Seq<char>,
) -> StoreView {
    StoreView {
        items: s.items.push(new_item_row(s, content, checked, now)),
        tags: s.tags,
        item_tags: add_links(s.item_tags, s.next_item_id, tag_ids),
        next_item_id: s.next_item_id + 1,
        next_tag_id: s.next_tag_id,
    }
}

/// The item table without the row carrying the given id.
pub open spec fn remove_item(items: Seq<ItemRowView>, id: int) -> Seq<ItemRowView>
    decreases items.len(),
{
    if items.len() == 0 {
        Seq::empty()
    } else {
        remove_item(items.drop_last(), id) + (if items.last().id == id {
            Seq::empty()
        } else {
            seq![items.last()]
        })
    }
}

/// The tag table without the row carrying the given id.
pub open spec fn remove_tag(tags: Seq<TagView>, id: int) -> Seq<TagView>
    decreases tags.len(),
{
    if tags.len() == 0 {
        Seq::empty()
    } else {
        remove_tag(tags.drop_last(), id) + (if tags.last().id == id {
            Seq::empty()
        } else {
            seq![tags.last()]
        })
    }
}

/// The association table without the rows of one item.
pub open spec fn links_without_item(links: Seq<ItemTagView>, item_id: int) -> Seq<ItemTagView>
    decreases links.len(),
{
    if links.len() == 0 {
        Seq::empty()
    } else {
        links_without_item(links.drop_last(), item_id) + (if links.last().item_id == item_id {
            Seq::empty()
        } else {
            seq![links.last()]
        })
    }
}

/// The association table without the rows of one tag.
pub open spec fn links_without_tag(links: Seq<ItemTagView>, tag_id: int) -> Seq<ItemTagView>
    decreases links.len(),
{
    if links.len() == 0 {
        Seq::empty()
    } else {
        links_without_tag(links.drop_last(), tag_id) + (if links.last().tag_id == tag_id {
            Seq::empty()
        } else {
            seq![links.last()]
        })
    }
}

/// The store after deleting an item: its row and its associations gone.
pub open spec fn delete_item_model(s: StoreView, id: int) -> StoreView {
    StoreView {
        items: remove_item(s.items, id),
        tags: s.tags,
        item_tags: links_without_item(s.item_tags, id),
        next_item_id: s.next_item_id,
        next_tag_id: s.next_tag_id,
    }
}

/// The store after deleting a tag: its row and its associations gone;
/// the items themselves untouched.
pub open spec fn delete_tag_model(s: StoreView, id: int) -> StoreView {
    StoreView {
        items: s.items,
        tags: remove_tag(s.tags, id),
        item_tags: links_without_tag(s.item_tags, id),
        next_item_id: s.next_item_id,
        next_tag_id: s.next_tag_id,
    }
}

/// View of an optional piece of text.
pub open spec fn opt_text_view(o: Option<String>) -> Option<Seq<char>> {
    match o {
        Some(s) => Some(s@),
        None => None,
    }
}

/// View of an optional id list.
pub open spec fn opt_ids_view(o: Option<Vec<i64>>) -> Option<Seq<int>> {
    match o {
        Some(v) => Some(ids_view(v@)),
        None => None,
    }
}

/// The tag table with one more row, inserted at its place in name order.
pub open spec fn insert_tag_sorted(tags: Seq<TagView>, t: TagView) -> Seq<TagView>
    decreases tags.len(),
{
    if tags.len() == 0 {
        seq![t]
    } else if lex_le(t.name, tags[0].name) {
        seq![t] + tags
    } else {
        seq![tags[0]] + insert_tag_sorted(tags.skip(1), t)
    }
}

/// The row a freshly created tag gets.
pub open spec fn new_tag_row(
    s: StoreView,
    name: Seq<char>,
    color: Option<Seq<char>>,
    now: Seq<char>,
) -> TagView {
    TagView { id: s.next_tag_id, name, color, created_at: now }
}

/// The store after creating a tag: its row inserted in name order, the
/// id counter advanced.
pub open spec fn create_tag_model(
    s: StoreView,
    name: Seq<char>,
    color: Option<Seq<char>>,
    now: Seq<char>,
) -> StoreView {
    StoreView {
        items: s.items,
        tags: insert_tag_sorted(s.tags, new_tag_row(s, name, color, now)),
        item_tags: s.item_tags,
        next_item_id: s.next_item_id,
        next_tag_id: s.next_tag_id + 1,
    }
}

/// A tag row after a partial update: present fields replace, absent
/// fields stay.
pub open spec fn patched_tag(
    t: TagView,
    name: Option<Seq<char>>,
    color: Option<Seq<char>>,
) -> TagView {
    TagView {
        id: t.id,
        name: match name {
            Some(n) => n,
            None => t.name,
        },
        color: match color {
            Some(c) => Some(c),
            None => t.color,
        },
        created_at: t.created_at,
    }
}

/// The store after a partial tag update: the row re-inserted at the
/// place its (possibly new) name gives it.
pub open spec fn update_tag_model(
    s: StoreView,
    id: int,
    name: Option<Seq<char>>,
    color: Option<Seq<char>>,
) -> StoreView {
    match find_tag(s.tags, id) {
        None => s,
        Some(t0) => StoreView {
            items: s.items,
            tags: insert_tag_sorted(remove_tag(s.tags, id), patched_tag(t0, name, color)),
            item_tags: s.item_tags,
            next_item_id: s.next_item_id,
            next_tag_id: s.next_tag_id,
        },
    }
}

/// Some other tag row already carries this name.
pub open spec fn name_conflict(s: StoreView, id: int, name: Seq<char>) -> bool {
    exists|j: int| 0 <= j < s.tags.len() && (#[trigger] s.tags[j]).name == name && s.tags[j].id != id
}

/// An item row after a partial update: present fields replace, absent
/// fields stay; any field change refreshes the updated timestamp.
pub open spec fn patched_row(
    row: ItemRowView,
    content: Option<Seq<char>>,
    checked: Option<bool>,
    now: Seq<char>,
) -> ItemRowView {
    ItemRowView {
        id: row.id,
        content: match content {
            Some(c) => c,
            None => row.content,
        },
        checked: match checked {
            Some(b) => b,
            None => row.checked,
        },
        created_at: row.created_at,
        updated_at: if content is Some || checked is Some {
            now
        } else {
            row.updated_at
        },
    }
}

/// The store after a partial item update: the row patched in place; a
/// supplied tag-id list (even empty) replaces the whole association set.
pub open spec fn update_item_model(
    s: StoreView,
    id: int,
    content: Option<Seq<char>>,
    checked: Option<bool>,
    tag_ids: Option<Seq<int>>,
    now: Seq<char>,
) -> StoreView {
    match find_item(s.items, id) {
        None => s,
        Some(_) => StoreView {
            items: s.items.map_values(
                |r: ItemRowView|
                    if r.id == id {
                        patched_row(r, content, checked, now)
                    } else {
                        r
                    },
            ),
            tags: s.tags,
            item_tags: match tag_ids {
                Some(ids) => add_links(links_without_item(s.item_tags, id), id, ids),
                None => s.item_tags,
            },
            next_item_id: s.next_item_id,
            next_tag_id: s.next_tag_id,
        },
    }
}

// ---------------------------------------------------------------------------
// Lemmas about the model.
// ---------------------------------------------------------------------------

/// Membership in a sequence extended by one element.
pub(crate) proof fn lemma_contains_push<T>(s: Seq<T>, x: T, y: T)
    ensures
        s.push(x).contains(y) <==> (s.contains(y) || x == y),
{
    if s.contains(y) {
        let i = choose|i: int| 0 <= i < s.len() && s[i] == y;
        assert(s.push(x)[i] == y);
    }
    assert(s.push(x)[s.len() as int] == x);
    if s.push(x).contains(y) && !s.contains(y) && x != y {
        let i = choose|i: int| 0 <= i < s.push(x).len() && s.push(x)[i] == y;
        if i < s.len() {
            assert(s[i] == y);
        }
    }
}

/// Looking an id up after appending a row finds the old row first, the
/// new one otherwise.
pub(crate) proof fn lemma_find_item_push(items: Seq<ItemRowView>, row: ItemRowView, id: int)
    ensures
        find_item(items.push(row), id) == (if find_item(items, id) is Some {
            find_item(items, id)
        } else if row.id == id {
            Some(row)
        } else {
            None::<ItemRowView>
        }),
    decreases items.len(),
{
    if items.len() == 0 {
        assert(items.push(row)[0] == row);
        assert(items.push(row).skip(1) =~= Seq::<ItemRowView>::empty());
        assert(find_item(Seq::<ItemRowView>::empty(), id) is None);
    } else {
        assert(items.push(row)[0] == items[0]);
        assert(items.push(row).skip(1) =~= items.skip(1).push(row));
        lemma_find_item_push(items.skip(1), row, id);
        if items[0].id == id {
            assert(find_item(items.push(row), id) == Some(items[0]));
            assert(find_item(items, id) == Some(items[0]));
        } else {
            assert(find_item(items.push(row), id) == find_item(items.skip(1).push(row), id));
            assert(find_item(items, id) == find_item(items.skip(1), id));
        }
    }
}

/// A lookup succeeds exactly when some row carries the id, and then
/// returns a row of the table carrying it.
pub(crate) proof fn lemma_find_item_props(items: Seq<ItemRowView>, id: int)
    ensures
        find_item(items, id) is Some <==> has_item_id(items, id),
        find_item(items, id) matches Some(r) ==> r.id == id && items.contains(r),
    decreases items.len(),
{
    if items.len() > 0 {
        lemma_find_item_props(items.skip(1), id);
        if items[0].id != id {
            if has_item_id(items, id) {
                let i = choose|i: int| 0 <= i < items.len() && items[i].id == id;
                assert(items.skip(1)[i - 1] == items[i]);
            }
            if has_item_id(items.skip(1), id) {
                let i = choose|i: int|
                    0 <= i < items.skip(1).len() && items.skip(1)[i].id == id;
                assert(items[i + 1] == items.skip(1)[i]);
            }
            match find_item(items.skip(1), id) {
                Some(r) => {
                    let i = choose|i: int|
                        0 <= i < items.skip(1).len() && items.skip(1)[i] == r;
                    assert(items[i + 1] == r);
                },
                None => {},
            }
        } else {
            assert(items.contains(items[0]));
        }
    }
}

/// The tag-table analogue of [`lemma_find_item_props`].
pub(crate) proof fn lemma_find_tag_props(tags: Seq<TagView>, id: int)
    ensures
        find_tag(tags, id) is Some <==> has_tag_id(tags, id),
        find_tag(tags, id) matches Some(t) ==> t.id == id && tags.contains(t),
    decreases tags.len(),
{
    if tags.len() > 0 {
        lemma_find_tag_props(tags.skip(1), id);
        if tags[0].id != id {
            if has_tag_id(tags, id) {
                let i = choose|i: int| 0 <= i < tags.len() && tags[i].id == id;
                assert(tags.skip(1)[i - 1] == tags[i]);
            }
            if has_tag_id(tags.skip(1), id) {
                let i = choose|i: int| 0 <= i < tags.skip(1).len() && tags.skip(1)[i].id == id;
                assert(tags[i + 1] == tags.skip(1)[i]);
            }
            match find_tag(tags.skip(1), id) {
                Some(t) => {
                    let i = choose|i: int| 0 <= i < tags.skip(1).len() && tags.skip(1)[i] == t;
                    assert(tags[i + 1] == t);
                },
                None => {},
            }
        } else {
            assert(tags.contains(tags[0]));
        }
    }
}

/// What ends up in the association table after linking: the old rows and
/// the new pairs, nothing else, and no duplicates arise.
pub(crate) proof fn lemma_add_links_props(links: Seq<ItemTagView>, item_id: int, tag_ids: Seq<int>)
    ensures
        forall|l: ItemTagView|
            #[trigger] add_links(links, item_id, tag_ids).contains(l) <==> (links.contains(l) || (
            l.item_id == item_id && tag_ids.contains(l.tag_id))),
        (forall|i: int, j: int| 0 <= i < j < links.len() ==> links[i] != links[j]) ==> (forall|
            i: int,
            j: int,
        |
            0 <= i < j < add_links(links, item_id, tag_ids).len() ==> add_links(
                links,
                item_id,
                tag_ids,
            )[i] != add_links(links, item_id, tag_ids)[j]),
    decreases tag_ids.len(),
{
    if tag_ids.len() == 0 {
        assert(add_links(links, item_id, tag_ids) == links);
    } else {
        let first = ItemTagView { item_id, tag_id: tag_ids[0] };
        let with_first = if has_link(links, item_id, tag_ids[0]) {
            links
        } else {
            links.push(first)
        };
        assert(add_links(links, item_id, tag_ids) == add_links(
            with_first,
            item_id,
            tag_ids.skip(1),
        ));
        lemma_add_links_props(with_first, item_id, tag_ids.skip(1));
        assert forall|l: ItemTagView| #[trigger] with_first.contains(l) <==> (links.contains(l)
            || l == first) by {
            lemma_contains_push(links, first, l);
            if has_link(links, item_id, tag_ids[0]) && l == first {
                assert(links.contains(first));
            }
        }
        assert forall|t: int| #[trigger] tag_ids.contains(t) <==> (t == tag_ids[0]
            || tag_ids.skip(1).contains(t)) by {
            if tag_ids.contains(t) {
                let i = choose|i: int| 0 <= i < tag_ids.len() && tag_ids[i] == t;
                if i > 0 {
                    assert(tag_ids.skip(1)[i - 1] == t);
                }
            }
            if tag_ids.skip(1).contains(t) {
                let i = choose|i: int| 0 <= i < tag_ids.skip(1).len() && tag_ids.skip(1)[i] == t;
                assert(tag_ids[i + 1] == t);
            }
        }
        assert forall|l: ItemTagView|
            #[trigger] add_links(links, item_id, tag_ids).contains(l) <==> (links.contains(l) || (
        l.item_id == item_id && tag_ids.contains(l.tag_id))) by {
            if l.item_id == item_id && tag_ids.contains(l.tag_id) && l.tag_id == tag_ids[0] {
                assert(l == first);
            }
        }
        if !has_link(links, item_id, tag_ids[0]) {
            if forall|i: int, j: int| 0 <= i < j < links.len() ==> links[i] != links[j] {
                assert forall|i: int, j: int|
                    0 <= i < j < with_first.len() implies with_first[i] != with_first[j] by {
                    if j == links.len() {
                        assert(with_first[j] == first);
                        assert(with_first[i] == links[i]);
                        if links[i] == first {
                            assert(links.contains(first));
                        }
                    } else {
                        assert(with_first[i] == links[i] && with_first[j] == links[j]);
                    }
                }
            }
        }
    }
}

/// What survives dropping one item's association rows.
pub(crate) proof fn lemma_links_without_item_props(links: Seq<ItemTagView>, item_id: int)
    ensures
        forall|l: ItemTagView|
            #[trigger] links_without_item(links, item_id).contains(l) <==> (links.contains(l)
                && l.item_id != item_id),
        (forall|i: int, j: int| 0 <= i < j < links.len() ==> links[i] != links[j]) ==> (forall|
            i: int,
            j: int,
        |
            0 <= i < j < links_without_item(links, item_id).len() ==> links_without_item(
                links,
                item_id,
            )[i] != links_without_item(links, item_id)[j]),
    decreases links.len(),
{
    if links.len() > 0 {
        let prefix = links.drop_last();
        lemma_links_without_item_props(prefix, item_id);
        assert forall|l: ItemTagView| #[trigger] links.contains(l) <==> (prefix.contains(l)
            || l == links.last()) by {
            lemma_contains_push(prefix, links.last(), l);
            assert(prefix.push(links.last()) =~= links);
        }
        if links.last().item_id == item_id {
            assert(links_without_item(links, item_id) =~= links_without_item(prefix, item_id));
        } else {
            assert(links_without_item(links, item_id) =~= links_without_item(
                prefix,
                item_id,
            ).push(links.last()));
            assert forall|l: ItemTagView|
                #[trigger] links_without_item(links, item_id).contains(l) <==> (links.contains(l)
                    && l.item_id != item_id) by {
                lemma_contains_push(links_without_item(prefix, item_id), links.last(), l);
            }
            if forall|i: int, j: int| 0 <= i < j < links.len() ==> links[i] != links[j] {
                assert forall|i: int, j: int| 0 <= i < j < prefix.len() implies prefix[i]
                    != prefix[j] by {
                    assert(links[i] == prefix[i] && links[j] == prefix[j]);
                }
                let res = links_without_item(links, item_id);
                let keep = links_without_item(prefix, item_id);
                assert forall|i: int, j: int| 0 <= i < j < res.len() implies res[i] != res[j] by {
                    if j == keep.len() {
                        assert(res[j] == links.last());
                        assert(res[i] == keep[i]);
                        if keep[i] == links.last() {
                            assert(keep.contains(links.last()));
                            assert(prefix.contains(links.last()));
                            let k = choose|k: int|
                                0 <= k < prefix.len() && prefix[k] == links.last();
                            assert(links[k] == links.last());
                        }
                    } else {
                        assert(res[i] == keep[i] && res[j] == keep[j]);
                    }
                }
            }
        }
    }
}

/// What survives dropping one tag's association rows.
pub(crate) proof fn lemma_links_without_tag_props(links: Seq<ItemTagView>, tag_id: int)
    ensures
        forall|l: ItemTagView|
            #[trigger] links_without_tag(links, tag_id).contains(l) <==> (links.contains(l)
                && l.tag_id != tag_id),
        (forall|i: int, j: int| 0 <= i < j < links.len() ==> links[i] != links[j]) ==> (forall|
            i: int,
            j: int,
        |
            0 <= i < j < links_without_tag(links, tag_id).len() ==> links_without_tag(
                links,
                tag_id,
            )[i] != links_without_tag(links, tag_id)[j]),
    decreases links.len(),
{
    if links.len() > 0 {
        let prefix = links.drop_last();
        lemma_links_without_tag_props(prefix, tag_id);
        assert forall|l: ItemTagView| #[trigger] links.contains(l) <==> (prefix.contains(l)
            || l == links.last()) by {
            lemma_contains_push(prefix, links.last(), l);
            assert(prefix.push(links.last()) =~= links);
        }
        if links.last().tag_id == tag_id {
            assert(links_without_tag(links, tag_id) =~= links_without_tag(prefix, tag_id));
        } else {
            assert(links_without_tag(links, tag_id) =~= links_without_tag(prefix, tag_id).push(
                links.last(),
            ));
            assert forall|l: ItemTagView|
                #[trigger] links_without_tag(links, tag_id).contains(l) <==> (links.contains(l)
                    && l.tag_id != tag_id) by {
                lemma_contains_push(links_without_tag(prefix, tag_id), links.last(), l);
            }
            if forall|i: int, j: int| 0 <= i < j < links.len() ==> links[i] != links[j] {
                assert forall|i: int, j: int| 0 <= i < j < prefix.len() implies prefix[i]
                    != prefix[j] by {
                    assert(links[i] == prefix[i] && links[j] == prefix[j]);
                }
                let res = links_without_tag(links, tag_id);
                let keep = links_without_tag(prefix, tag_id);
                assert forall|i: int, j: int| 0 <= i < j < res.len() implies res[i] != res[j] by {
                    if j == keep.len() {
                        assert(res[j] == links.last());
                        assert(res[i] == keep[i]);
                        if keep[i] == links.last() {
                            assert(keep.contains(links.last()));
                            assert(prefix.contains(links.last()));
                            let k = choose|k: int|
                                0 <= k < prefix.len() && prefix[k] == links.last();
                            assert(links[k] == links.last());
                        }
                    } else {
                        assert(res[i] == keep[i] && res[j] == keep[j]);
                    }
                }
            }
        }
    }
}

/// What survives deleting an item row: every other row, in order.
pub(crate) proof fn lemma_remove_item_props(items: Seq<ItemRowView>, id: int)
    ensures
        forall|r: ItemRowView|
            #[trigger] remove_item(items, id).contains(r) <==> (items.contains(r) && r.id != id),
        forall|x: int|
            has_item_id(remove_item(items, id), x) <==> (has_item_id(items, x) && x != id),
        (forall|i: int, j: int| 0 <= i < j < items.len() ==> items[i].id < items[j].id) ==> (forall|
            i: int,
            j: int,
        |
            0 <= i < j < remove_item(items, id).len() ==> remove_item(items, id)[i].id
                < remove_item(items, id)[j].id),
    decreases items.len(),
{
    if items.len() > 0 {
        let prefix = items.drop_last();
        lemma_remove_item_props(prefix, id);
        assert forall|r: ItemRowView| #[trigger] items.contains(r) <==> (prefix.contains(r)
            || r == items.last()) by {
            lemma_contains_push(prefix, items.last(), r);
            assert(prefix.push(items.last()) =~= items);
        }
        if items.last().id == id {
            assert(remove_item(items, id) =~= remove_item(prefix, id));
        } else {
            assert(remove_item(items, id) =~= remove_item(prefix, id).push(items.last()));
            assert forall|r: ItemRowView|
                #[trigger] remove_item(items, id).contains(r) <==> (items.contains(r) && r.id
                    != id) by {
                lemma_contains_push(remove_item(prefix, id), items.last(), r);
            }
            if forall|i: int, j: int| 0 <= i < j < items.len() ==> items[i].id < items[j].id {
                assert forall|i: int, j: int| 0 <= i < j < prefix.len() implies prefix[i].id
                    < prefix[j].id by {
                    assert(items[i] == prefix[i] && items[j] == prefix[j]);
                }
                let res = remove_item(items, id);
                let keep = remove_item(prefix, id);
                assert forall|i: int, j: int| 0 <= i < j < res.len() implies res[i].id
                    < res[j].id by {
                    if j == keep.len() {
                        assert(res[j] == items.last());
                        assert(res[i] == keep[i]);
                        assert(keep.contains(keep[i]));
                        assert(prefix.contains(keep[i]));
                        let k = choose|k: int| 0 <= k < prefix.len() && prefix[k] == keep[i];
                        assert(items[k] == keep[i]);
                        assert(items[k].id < items.last().id);
                    } else {
                        assert(res[i] == keep[i] && res[j] == keep[j]);
                    }
                }
            }
        }
        assert forall|x: int|
            has_item_id(remove_item(items, id), x) <==> (has_item_id(items, x) && x != id) by {
            let res = remove_item(items, id);
            if has_item_id(res, x) {
                let i = choose|i: int| 0 <= i < res.len() && res[i].id == x;
                assert(res.contains(res[i]));
                assert(items.contains(res[i]));
                let k = choose|k: int| 0 <= k < items.len() && items[k] == res[i];
            }
            if has_item_id(items, x) && x != id {
                let i = choose|i: int| 0 <= i < items.len() && items[i].id == x;
                assert(items.contains(items[i]));
                assert(res.contains(items[i]));
                let k = choose|k: int| 0 <= k < res.len() && res[k] == items[i];
            }
        }
    }
}

/// What survives deleting a tag row: every other row, still sorted.
pub(crate) proof fn lemma_remove_tag_props(tags: Seq<TagView>, id: int)
    ensures
        forall|t: TagView|
            #[trigger] remove_tag(tags, id).contains(t) <==> (tags.contains(t) && t.id != id),
        forall|x: int| has_tag_id(remove_tag(tags, id), x) <==> (has_tag_id(tags, x) && x != id),
        sorted_by_name(tags) ==> sorted_by_name(remove_tag(tags, id)),
        (forall|i: int, j: int| 0 <= i < j < tags.len() ==> tags[i].id != tags[j].id) ==> (forall|
            i: int,
            j: int,
        |
            0 <= i < j < remove_tag(tags, id).len() ==> remove_tag(tags, id)[i].id != remove_tag(
                tags,
                id,
            )[j].id),
        forall|i: int|
            0 <= i < remove_tag(tags, id).len() ==> tags.contains(#[trigger] remove_tag(tags, id)[i]),
    decreases tags.len(),
{
    if tags.len() > 0 {
        let prefix = tags.drop_last();
        lemma_remove_tag_props(prefix, id);
        assert forall|t: TagView| #[trigger] tags.contains(t) <==> (prefix.contains(t)
            || t == tags.last()) by {
            lemma_contains_push(prefix, tags.last(), t);
            assert(prefix.push(tags.last()) =~= tags);
        }
        if tags.last().id == id {
            assert(remove_tag(tags, id) =~= remove_tag(prefix, id));
        } else {
            assert(remove_tag(tags, id) =~= remove_tag(prefix, id).push(tags.last()));
            assert forall|t: TagView|
                #[trigger] remove_tag(tags, id).contains(t) <==> (tags.contains(t) && t.id
                    != id) by {
                lemma_contains_push(remove_tag(prefix, id), tags.last(), t);
            }
        }
        let res = remove_tag(tags, id);
        let keep = remove_tag(prefix, id);
        assert forall|i: int|
            0 <= i < res.len() implies tags.contains(#[trigger] res[i]) by {
            assert(res.contains(res[i]));
        }
        if sorted_by_name(tags) {
            assert forall|i: int, j: int| 0 <= i < j < prefix.len() implies lex_le(
                #[trigger] prefix[i].name,
                #[trigger] prefix[j].name,
            ) && prefix[i].name != prefix[j].name by {
                assert(tags[i] == prefix[i] && tags[j] == prefix[j]);
            }
            assert forall|i: int, j: int| 0 <= i < j < res.len() implies lex_le(
                #[trigger] res[i].name,
                #[trigger] res[j].name,
            ) && res[i].name != res[j].name by {
                if tags.last().id != id && j == keep.len() {
                    assert(res[j] == tags.last());
                    assert(res[i] == keep[i]);
                    assert(keep.contains(keep[i]));
                    assert(prefix.contains(keep[i]));
                    let k = choose|k: int| 0 <= k < prefix.len() && prefix[k] == keep[i];
                    assert(tags[k] == keep[i]);
                    assert(lex_le(tags[k].name, tags.last().name));
                } else {
                    assert(res[i] == keep[i] && res[j] == keep[j]);
                }
            }
        }
        if forall|i: int, j: int| 0 <= i < j < tags.len() ==> tags[i].id != tags[j].id {
            assert forall|i: int, j: int| 0 <= i < j < prefix.len() implies prefix[i].id
                != prefix[j].id by {
                assert(tags[i] == prefix[i] && tags[j] == prefix[j]);
            }
            assert forall|i: int, j: int| 0 <= i < j < res.len() implies res[i].id
                != res[j].id by {
                if tags.last().id != id && j == keep.len() {
                    assert(res[j] == tags.last());
                    assert(res[i] == keep[i]);
                    assert(keep.contains(keep[i]));
                    assert(prefix.contains(keep[i]));
                    let k = choose|k: int| 0 <= k < prefix.len() && prefix[k] == keep[i];
                    assert(tags[k] == keep[i]);
                } else {
                    assert(res[i] == keep[i] && res[j] == keep[j]);
                }
            }
        }
        assert forall|x: int|
            has_tag_id(res, x) <==> (has_tag_id(tags, x) && x != id) by {
            if has_tag_id(res, x) {
                let i = choose|i: int| 0 <= i < res.len() && res[i].id == x;
                assert(res.contains(res[i]));
                assert(tags.contains(res[i]));
                let k = choose|k: int| 0 <= k < tags.len() && tags[k] == res[i];
            }
            if has_tag_id(tags, x) && x != id {
                let i = choose|i: int| 0 <= i < tags.len() && tags[i].id == x;
                assert(tags.contains(tags[i]));
                assert(res.contains(tags[i]));
                let k = choose|k: int| 0 <= k < res.len() && res[k] == tags[i];
            }
        }
    }
}

/// A lookup finds the row at a known position once no earlier row
/// carries the id.
proof fn lemma_find_item_at(items: Seq<ItemRowView>, idx: int, id: int)
    requires
        0 <= idx < items.len(),
        items[idx].id == id,
        forall|j: int| 0 <= j < idx ==> (#[trigger] items[j]).id != id,
    ensures
        find_item(items, id) == Some(items[idx]),
    decreases idx,
{
    if idx > 0 {
        assert(items[0].id != id);
        assert forall|j: int| 0 <= j < idx - 1 implies (#[trigger] items.skip(1)[j]).id != id by {
            assert(items.skip(1)[j] == items[j + 1]);
        }
        assert(items.skip(1)[idx - 1] == items[idx]);
        lemma_find_item_at(items.skip(1), idx - 1, id);
    }
}

/// Inserting a fresh name in order keeps the table sorted and adds
/// exactly that row.
proof fn lemma_insert_tag_sorted_props(tags: Seq<TagView>, t: TagView)
    requires
        sorted_by_name(tags),
        forall|i: int| 0 <= i < tags.len() ==> (#[trigger] tags[i]).name != t.name,
    ensures
        insert_tag_sorted(tags, t).len() == tags.len() + 1,
        forall|x: TagView|
            #[trigger] insert_tag_sorted(tags, t).contains(x) <==> (tags.contains(x) || x == t),
        sorted_by_name(insert_tag_sorted(tags, t)),
    decreases tags.len(),
{
    let res = insert_tag_sorted(tags, t);
    if tags.len() == 0 {
        assert(res =~= seq![t]);
        assert(res[0] == t);
        assert forall|x: TagView| #[trigger] res.contains(x) <==> (tags.contains(x) || x == t) by {
            if res.contains(x) {
                let i = choose|i: int| 0 <= i < res.len() && res[i] == x;
            }
        }
    } else if lex_le(t.name, tags[0].name) {
        assert(res =~= seq![t] + tags);
        assert forall|x: TagView| #[trigger] res.contains(x) <==> (tags.contains(x) || x == t) by {
            if res.contains(x) {
                let i = choose|i: int| 0 <= i < res.len() && res[i] == x;
                if i > 0 {
                    assert(tags[i - 1] == x);
                }
            }
            if tags.contains(x) {
                let i = choose|i: int| 0 <= i < tags.len() && tags[i] == x;
                assert(res[i + 1] == x);
            }
            assert(res[0] == t);
        }
        assert forall|i: int, j: int| 0 <= i < j < res.len() implies lex_le(
            #[trigger] res[i].name,
            #[trigger] res[j].name,
        ) && res[i].name != res[j].name by {
            if i == 0 {
                assert(res[0] == t);
                assert(res[j] == tags[j - 1]);
                if j - 1 > 0 {
                    lex_le_trans(t.name, tags[0].name, tags[j - 1].name);
                }
            } else {
                assert(res[i] == tags[i - 1] && res[j] == tags[j - 1]);
            }
        }
    } else {
        let rest = insert_tag_sorted(tags.skip(1), t);
        assert(res =~= seq![tags[0]] + rest);
        assert forall|i: int| 0 <= i < tags.skip(1).len() implies (#[trigger] tags.skip(1)[i]).name
            != t.name by {
            assert(tags.skip(1)[i] == tags[i + 1]);
        }
        assert forall|i: int, j: int| 0 <= i < j < tags.skip(1).len() implies lex_le(
            #[trigger] tags.skip(1)[i].name,
            #[trigger] tags.skip(1)[j].name,
        ) && tags.skip(1)[i].name != tags.skip(1)[j].name by {
            assert(tags.skip(1)[i] == tags[i + 1] && tags.skip(1)[j] == tags[j + 1]);
        }
        lemma_insert_tag_sorted_props(tags.skip(1), t);
        assert forall|x: TagView| #[trigger] res.contains(x) <==> (tags.contains(x) || x == t) by {
            if res.contains(x) {
                let i = choose|i: int| 0 <= i < res.len() && res[i] == x;
                if i > 0 {
                    assert(rest[i - 1] == x);
                    assert(rest.contains(x));
                    if tags.skip(1).contains(x) {
                        let m = choose|m: int| 0 <= m < tags.skip(1).len() && tags.skip(1)[m] == x;
                        assert(tags[m + 1] == x);
                    }
                } else {
                    assert(tags.contains(tags[0]));
                }
            }
            if tags.contains(x) {
                let i = choose|i: int| 0 <= i < tags.len() && tags[i] == x;
                if i == 0 {
                    assert(res[0] == x);
                } else {
                    assert(tags.skip(1)[i - 1] == x);
                    assert(tags.skip(1).contains(x));
                    assert(rest.contains(x));
                    let m = choose|m: int| 0 <= m < rest.len() && rest[m] == x;
                    assert(res[m + 1] == x);
                }
            }
            if x == t {
                assert(rest.contains(t));
                let m = choose|m: int| 0 <= m < rest.len() && rest[m] == t;
                assert(res[m + 1] == t);
            }
        }
        lex_le_total(t.name, tags[0].name);
        assert forall|i: int, j: int| 0 <= i < j < res.len() implies lex_le(
            #[trigger] res[i].name,
            #[trigger] res[j].name,
        ) && res[i].name != res[j].name by {
            if i == 0 {
                assert(res[0] == tags[0]);
                assert(res[j] == rest[j - 1]);
                assert(rest.contains(rest[j - 1]));
                if tags.skip(1).contains(rest[j - 1]) {
                    let m = choose|m: int|
                        0 <= m < tags.skip(1).len() && tags.skip(1)[m] == rest[j - 1];
                    assert(tags[m + 1] == rest[j - 1]);
                    assert(lex_le(tags[0].name, tags[m + 1].name));
                } else {
                    assert(rest[j - 1] == t);
                }
            } else {
                assert(res[i] == rest[i - 1] && res[j] == rest[j - 1]);
            }
        }
    }
}

/// Mapping a function over a sequence commutes with prepending one element.
proof fn lemma_map_prepend<T, V>(s: Seq<T>, f: spec_fn(T) -> V, x: T)
    ensures
        (seq![x] + s).map_values(f) =~= seq![f(x)] + s.map_values(f),
{
}

impl Store {
    /// An empty store.
    pub fn new() -> (r: Store)
        ensures
            wf(r@),
            r@.items == Seq::<ItemRowView>::empty(),
            r@.tags == Seq::<TagView>::empty(),
            r@.item_tags == Seq::<ItemTagView>::empty(),
            r@.next_item_id == 1,
            r@.next_tag_id == 1,
    {
        let r = Store {
            items: Vec::new(),
            tags: Vec::new(),
            item_tags: Vec::new(),
            next_item_id: 1,
            next_tag_id: 1,
        };
        proof {
            assert(r@.items =~= Seq::<ItemRowView>::empty());
            assert(r@.tags =~= Seq::<TagView>::empty());
            assert(r@.item_tags =~= Seq::<ItemTagView>::empty());
        }
        r
    }

    /// Whether the association table holds the given pair.
    fn link_exists(&self, item_id: i64, tag_id: i64) -> (r: bool)
        ensures
            r == has_link(self@.item_tags, item_id as int, tag_id as int),
    {
        let mut k: usize = 0;
        while k < self.item_tags.len()
            invariant
                k <= self.item_tags.len(),
                forall|j: int|
                    0 <= j < k ==> !((#[trigger] self@.item_tags[j]).item_id == item_id as int
                        && self@.item_tags[j].tag_id == tag_id as int),
            decreases self.item_tags.len() - k,
        {
            let l = &self.item_tags[k];
            if l.item_id == item_id && l.tag_id == tag_id {
                assert(self@.item_tags[k as int] == ItemTagView {
                    item_id: item_id as int,
                    tag_id: tag_id as int,
                });
                return true;
            }
            k = k + 1;
        }
        proof {
            if has_link(self@.item_tags, item_id as int, tag_id as int) {
                let j = choose|j: int|
                    0 <= j < self@.item_tags.len() && self@.item_tags[j] == ItemTagView {
                        item_id: item_id as int,
                        tag_id: tag_id as int,
                    };
                assert(!(self@.item_tags[j].item_id == item_id as int && self@.item_tags[j].tag_id
                    == tag_id as int));
            }
        }
        false
    }

    /// Whether a tag row with this id exists.
    fn tag_id_exists(&self, id: i64) -> (r: bool)
        ensures
            r == has_tag_id(self@.tags, id as int),
    {
        let mut k: usize = 0;
        while k < self.tags.len()
            invariant
                k <= self.tags.len(),
                forall|j: int| 0 <= j < k ==> (#[trigger] self@.tags[j]).id != id as int,
            decreases self.tags.len() - k,
        {
            if self.tags[k].id == id {
                assert(self@.tags[k as int].id == id as int);
                return true;
            }
            k = k + 1;
        }
        false
    }

    /// Index of the item row with this id, if any.
    fn find_item_index(&self, id: i64) -> (r: Option<usize>)
        ensures
            match r {
                Some(i) => i < self@.items.len() && self@.items[i as int].id == id as int
                    && find_item(self@.items, id as int) == Some(self@.items[i as int]),
                None => find_item(self@.items, id as int) is None,
            },
    {
        let mut k: usize = 0;
        proof {
            assert(self@.items.skip(0) =~= self@.items);
        }
        while k < self.items.len()
            invariant
                k <= self.items.len(),
                find_item(self@.items, id as int) == find_item(
                    self@.items.skip(k as int),
                    id as int,
                ),
            decreases self.items.len() - k,
        {
            if self.items[k].id == id {
                assert(self@.items.skip(k as int)[0] == self@.items[k as int]);
                return Some(k);
            }
            proof {
                assert(self@.items.skip(k as int)[0] == self@.items[k as int]);
                assert(self@.items.skip(k as int).skip(1) =~= self@.items.skip(k + 1));
            }
            k = k + 1;
        }
        None
    }

    /// Index of the tag row with this id, if any.
    fn find_tag_index(&self, id: i64) -> (r: Option<usize>)
        ensures
            match r {
                Some(i) => i < self@.tags.len() && self@.tags[i as int].id == id as int
                    && find_tag(self@.tags, id as int) == Some(self@.tags[i as int]),
                None => find_tag(self@.tags, id as int) is None,
            },
    {
        let mut k: usize = 0;
        proof {
            assert(self@.tags.skip(0) =~= self@.tags);
        }
        while k < self.tags.len()
            invariant
                k <= self.tags.len(),
                find_tag(self@.tags, id as int) == find_tag(self@.tags.skip(k as int), id as int),
            decreases self.tags.len() - k,
        {
            if self.tags[k].id == id {
                assert(self@.tags.skip(k as int)[0] == self@.tags[k as int]);
                return Some(k);
            }
            proof {
                assert(self@.tags.skip(k as int)[0] == self@.tags[k as int]);
                assert(self@.tags.skip(k as int).skip(1) =~= self@.tags.skip(k + 1));
            }
            k = k + 1;
        }
        None
    }

    /// All tags, in table order: ascending by name.
    pub fn get_all_tags(&self) -> (r: Vec<Tag>)
        ensures
            r@.map_values(|t: Tag| t@) == self@.tags,
    {
        let mut out: Vec<Tag> = Vec::new();
        let mut i: usize = 0;
        proof {
            assert(out@.map_values(|t: Tag| t@) =~= self@.tags.take(0));
        }
        while i < self.tags.len()
            invariant
                i <= self.tags.len(),
                out@.map_values(|t: Tag| t@) == self@.tags.take(i as int),
            decreases self.tags.len() - i,
        {
            let d = self.tags[i].duplicate();
            let ghost prev = out@;
            out.push(d);
            proof {
                prev.lemma_push_map_commute(|t: Tag| t@, d);
                assert(prev.map_values(|t: Tag| t@).push(d@) =~= self@.tags.take(i + 1));
            }
            i = i + 1;
        }
        proof {
            assert(self@.tags.take(self.tags.len() as int) =~= self@.tags);
        }
        out
    }

    /// The tag set of one item, in ascending name order.
    pub fn get_item_tags(&self, item_id: i64) -> (r: Vec<Tag>)
        ensures
            r@.map_values(|t: Tag| t@) == tags_of(self@.tags, self@.item_tags, item_id as int),
    {
        let mut out: Vec<Tag> = Vec::new();
        let mut i: usize = 0;
        proof {
            assert(out@.map_values(|t: Tag| t@) =~= tags_of(
                self@.tags.take(0),
                self@.item_tags,
                item_id as int,
            ));
        }
        while i < self.tags.len()
            invariant
                i <= self.tags.len(),
                out@.map_values(|t: Tag| t@) == tags_of(
                    self@.tags.take(i as int),
                    self@.item_tags,
                    item_id as int,
                ),
            decreases self.tags.len() - i,
        {
            let t = &self.tags[i];
            if self.link_exists(item_id, t.id) {
                let d = t.duplicate();
                let ghost prev = out@;
                out.push(d);
                proof {
                    prev.lemma_push_map_commute(|t: Tag| t@, d);
                }
            }
            proof {
                assert(self@.tags.take(i + 1).drop_last() =~= self@.tags.take(i as int));
                assert(self@.tags.take(i + 1).last() == self@.tags[i as int]);
                assert(out@.map_values(|t: Tag| t@) =~= tags_of(
                    self@.tags.take(i + 1),
                    self@.item_tags,
                    item_id as int,
                ));
            }
            i = i + 1;
        }
        proof {
            assert(self@.tags.take(self.tags.len() as int) =~= self@.tags);
        }
        out
    }

    /// One tag by id, or nothing when the id is absent — absence is a
    /// normal outcome, not a failure.
    pub fn get_tag_by_id(&self, id: i64) -> (r: Option<Tag>)
        ensures
            match r {
                Some(t) => find_tag(self@.tags, id as int) == Some(t@),
                None => find_tag(self@.tags, id as int) is None,
            },
    {
        match self.find_tag_index(id) {
            Some(i) => Some(self.tags[i].duplicate()),
            None => None,
        }
    }

    /// One item by id, joined with its tag set, or nothing when the id is
    /// absent.
    pub fn get_item_by_id(&self, id: i64) -> (r: Option<Item>)
        ensures
            match r {
                Some(item) => get_item_model(self@, id as int) == Some(item@),
                None => get_item_model(self@, id as int) is None,
            },
    {
        match self.find_item_index(id) {
            Some(i) => {
                let row = &self.items[i];
                let item = Item {
                    id: row.id,
                    content: row.content.clone(),
                    checked: row.checked,
                    created_at: row.created_at.clone(),
                    updated_at: row.updated_at.clone(),
                    tags: self.get_item_tags(row.id),
                };
                assert(item@ =~= item_view(self@, self@.items[i as int]));
                Some(item)
            },
            None => None,
        }
    }

    /// The item listing: every item, or — under a tag filter — exactly
    /// the items associated with that tag, newest first, each joined with
    /// its tag set.
    pub fn get_all_items(&self, tag_id: Option<i64>) -> (r: Vec<Item>)
        ensures
            r@.map_values(|it: Item| it@) == list_items_model(
                self@,
                self@.items,
                opt_id_view(tag_id),
            ),
    {
        let mut out: Vec<Item> = Vec::new();
        let mut i: usize = 0;
        proof {
            assert(out@.map_values(|it: Item| it@) =~= list_items_model(
                self@,
                self@.items.take(0),
                opt_id_view(tag_id),
            ));
        }
        while i < self.items.len()
            invariant
                i <= self.items.len(),
                out@.map_values(|it: Item| it@) == list_items_model(
                    self@,
                    self@.items.take(i as int),
                    opt_id_view(tag_id),
                ),
            decreases self.items.len() - i,
        {
            let row = &self.items[i];
            let keep = match tag_id {
                None => true,
                Some(tid) => self.link_exists(row.id, tid),
            };
            if keep {
                let item = Item {
                    id: row.id,
                    content: row.content.clone(),
                    checked: row.checked,
                    created_at: row.created_at.clone(),
                    updated_at: row.updated_at.clone(),
                    tags: self.get_item_tags(row.id),
                };
                assert(item@ =~= item_view(self@, self@.items[i as int]));
                let ghost prev = out@;
                let ghost iv = item@;
                out.insert(0, item);
                proof {
                    assert(out@ =~= seq![out@[0]] + prev);
                    lemma_map_prepend(prev, |it: Item| it@, out@[0]);
                    assert(out@.map_values(|it: Item| it@) =~= seq![iv] + prev.map_values(
                        |it: Item| it@,
                    ));
                }
            }
            proof {
                assert(self@.items.take(i + 1).drop_last() =~= self@.items.take(i as int));
                assert(self@.items.take(i + 1).last() == self@.items[i as int]);
                assert(out@.map_values(|it: Item| it@) =~= list_items_model(
                    self@,
                    self@.items.take(i + 1),
                    opt_id_view(tag_id),
                ));
            }
            i = i + 1;
        }
        proof {
            assert(self@.items.take(self.items.len() as int) =~= self@.items);
        }
        out
    }

    /// Creates an item: inserts its row, associates each given tag id
    /// (ignoring duplicate pairs), and returns the re-read, fully
    /// populated item. Association targets are checked before any write,
    /// so a dangling tag id leaves the store untouched.
    #[verifier::loop_isolation(false)]
    pub fn create_item(&mut self, req: &CreateItemRequest, now: &str) -> (r: Result<
        Item,
        StoreError,
    >)
        requires
            wf(old(self)@),
            old(self).next_item_id < i64::MAX,
        ensures
            wf(final(self)@),
            r is Ok <==> all_tags_exist(old(self)@.tags, ids_view(req.tag_ids@)),
            r matches Err(e) ==> e is MissingReference && final(self)@ == old(self)@,
            r is Ok ==> final(self)@ == create_item_model(
                old(self)@,
                req.content@,
                req.checked,
                ids_view(req.tag_ids@),
                now@,
            ),
            r matches Ok(item) ==> item@ == item_view(
                final(self)@,
                new_item_row(old(self)@, req.content@, req.checked, now@),
            ),
    {
        let ghost tids = ids_view(req.tag_ids@);
        let ghost s_init = self@;
        let mut k: usize = 0;
        while k < req.tag_ids.len()
            invariant
                k <= req.tag_ids.len(),
                self@ == s_init,
                tids == ids_view(req.tag_ids@),
                forall|j: int| 0 <= j < k ==> has_tag_id(s_init.tags, #[trigger] tids[j]),
            decreases req.tag_ids.len() - k,
        {
            if !self.tag_id_exists(req.tag_ids[k]) {
                assert(tids[k as int] == req.tag_ids@[k as int] as int);
                return Err(StoreError::MissingReference);
            }
            assert(tids[k as int] == req.tag_ids@[k as int] as int);
            k = k + 1;
        }
        assert(all_tags_exist(old(self)@.tags, tids));
        let ghost s0 = self@;
        let id = self.next_item_id;
        let row = ItemRow {
            id,
            content: req.content.clone(),
            checked: req.checked,
            created_at: now.to_owned(),
            updated_at: now.to_owned(),
        };
        let ghost rowv = row@;
        let ghost prev_items = self.items@;
        let ghost rowg = row;
        self.items.push(row);
        self.next_item_id = id + 1;
        proof {
            prev_items.lemma_push_map_commute(|x: ItemRow| x@, rowg);
        }
        let ghost s1 = self@;
        let mut k2: usize = 0;
        proof {
            assert(tids.skip(0) =~= tids);
        }
        while k2 < req.tag_ids.len()
            invariant
                k2 <= req.tag_ids.len(),
                tids == ids_view(req.tag_ids@),
                self@.items == s1.items,
                self@.tags == s1.tags,
                self@.next_item_id == s1.next_item_id,
                self@.next_tag_id == s1.next_tag_id,
                add_links(s1.item_tags, id as int, tids) == add_links(
                    self@.item_tags,
                    id as int,
                    tids.skip(k2 as int),
                ),
            decreases req.tag_ids.len() - k2,
        {
            let tid = req.tag_ids[k2];
            assert(tids[k2 as int] == tid as int);
            let ghost links_before = self@.item_tags;
            if !self.link_exists(id, tid) {
                let l = ItemTag { item_id: id, tag_id: tid };
                let ghost prev = self.item_tags@;
                self.item_tags.push(l);
                proof {
                    prev.lemma_push_map_commute(|x: ItemTag| x@, l);
                }
            }
            proof {
                assert(tids.skip(k2 as int)[0] == tids[k2 as int]);
                assert(tids.skip(k2 as int).skip(1) =~= tids.skip(k2 + 1));
                assert(add_links(links_before, id as int, tids.skip(k2 as int)) == add_links(
                    self@.item_tags,
                    id as int,
                    tids.skip(k2 + 1),
                ));
            }
            k2 = k2 + 1;
        }
        proof {
            assert(tids.skip(req.tag_ids.len() as int) =~= Seq::<int>::empty());
            assert(add_links(self@.item_tags, id as int, Seq::<int>::empty())
                == self@.item_tags);
            assert(s1.items =~= s0.items.push(rowv));
            assert(self@ =~= create_item_model(s0, req.content@, req.checked, tids, now@));
            // the fresh id is not present in the old table
            assert forall|x: int| has_item_id(s0.items, x) implies x < id as int by {
                let i = choose|i: int| 0 <= i < s0.items.len() && s0.items[i].id == x;
            }
            lemma_find_item_props(s0.items, id as int);
            lemma_find_item_push(s0.items, rowv, id as int);
            lemma_add_links_props(s0.item_tags, id as int, tids);
            // well-formedness of the new state
            assert forall|i: int, j: int|
                0 <= i < j < self@.items.len() implies self@.items[i].id < self@.items[j].id by {
                if j == s0.items.len() {
                    assert(self@.items[j] == rowv);
                    assert(self@.items[i] == s0.items[i]);
                }
            }
            assert forall|kk: int|
                0 <= kk < self@.item_tags.len() implies has_item_id(
                self@.items,
                (#[trigger] self@.item_tags[kk]).item_id,
            ) && has_tag_id(self@.tags, self@.item_tags[kk].tag_id) by {
                let l = self@.item_tags[kk];
                assert(self@.item_tags.contains(l));
                if s0.item_tags.contains(l) {
                    let m = choose|m: int| 0 <= m < s0.item_tags.len() && s0.item_tags[m] == l;
                    assert(has_item_id(s0.items, l.item_id));
                    let n = choose|n: int| 0 <= n < s0.items.len() && s0.items[n].id == l.item_id;
                    assert(self@.items[n] == s0.items[n]);
                } else {
                    assert(l.item_id == id as int && tids.contains(l.tag_id));
                    assert(self@.items[s0.items.len() as int] == rowv);
                    let m = choose|m: int| 0 <= m < tids.len() && tids[m] == l.tag_id;
                    assert(has_tag_id(s0.tags, tids[m]));
                }
            }
            assert forall|i: int|
                0 <= i < self@.items.len() implies 0 < (#[trigger] self@.items[i]).id
                < self@.next_item_id by {
                if i < s0.items.len() {
                    assert(self@.items[i] == s0.items[i]);
                } else {
                    assert(self@.items[i] == rowv);
                }
            }
        }
        match self.get_item_by_id(id) {
            Some(item) => Ok(item),
            None => {
                proof {
                    assert(false);
                }
                Err(StoreError::MissingReference)
            },
        }
    }

    /// Deletes an item by id; its association rows go with it. Returns
    /// whether a row was actually deleted.
    #[verifier::loop_isolation(false)]
    pub fn delete_item(&mut self, id: i64) -> (r: bool)
        requires
            wf(old(self)@),
        ensures
            wf(final(self)@),
            final(self)@ == delete_item_model(old(self)@, id as int),
            r == has_item_id(old(self)@.items, id as int),
    {
        let ghost s0 = self@;
        let mut found = false;
        let mut new_items: Vec<ItemRow> = Vec::new();
        let mut i: usize = 0;
        proof {
            assert(new_items@.map_values(|x: ItemRow| x@) =~= remove_item(
                s0.items.take(0),
                id as int,
            ));
        }
        while i < self.items.len()
            invariant
                i <= self.items.len(),
                self@ == s0,
                new_items@.map_values(|x: ItemRow| x@) == remove_item(
                    s0.items.take(i as int),
                    id as int,
                ),
                found == has_item_id(s0.items.take(i as int), id as int),
            decreases self.items.len() - i,
        {
            let row = &self.items[i];
            if row.id == id {
                found = true;
            } else {
                let d = row.duplicate();
                let ghost prev = new_items@;
                new_items.push(d);
                proof {
                    prev.lemma_push_map_commute(|x: ItemRow| x@, d);
                }
            }
            proof {
                assert(s0.items.take(i + 1).drop_last() =~= s0.items.take(i as int));
                assert(s0.items.take(i + 1).last() == s0.items[i as int]);
                assert(new_items@.map_values(|x: ItemRow| x@) =~= remove_item(
                    s0.items.take(i + 1),
                    id as int,
                ));
                if s0.items[i as int].id != id as int {
                    let ghost pre = s0.items.take(i + 1);
                    let ghost cur = s0.items.take(i as int);
                    assert(has_item_id(pre, id as int) == has_item_id(cur, id as int)) by {
                        if has_item_id(pre, id as int) {
                            let j = choose|j: int|
                                0 <= j < pre.len() && #[trigger] pre[j].id == id as int;
                            if j < i {
                                assert(cur[j].id == id as int);
                            }
                        }
                        if has_item_id(cur, id as int) {
                            let j = choose|j: int|
                                0 <= j < cur.len() && #[trigger] cur[j].id == id as int;
                            assert(pre[j].id == id as int);
                        }
                    }
                } else {
                    assert(s0.items.take(i + 1)[i as int].id == id as int);
                }
            }
            i = i + 1;
        }
        let mut new_links: Vec<ItemTag> = Vec::new();
        let mut kk: usize = 0;
        proof {
            assert(new_links@.map_values(|x: ItemTag| x@) =~= links_without_item(
                s0.item_tags.take(0),
                id as int,
            ));
        }
        while kk < self.item_tags.len()
            invariant
                kk <= self.item_tags.len(),
                self@ == s0,
                new_links@.map_values(|x: ItemTag| x@) == links_without_item(
                    s0.item_tags.take(kk as int),
                    id as int,
                ),
            decreases self.item_tags.len() - kk,
        {
            let l = &self.item_tags[kk];
            if l.item_id != id {
                let d = ItemTag { item_id: l.item_id, tag_id: l.tag_id };
                let ghost prev = new_links@;
                new_links.push(d);
                proof {
                    prev.lemma_push_map_commute(|x: ItemTag| x@, d);
                }
            }
            proof {
                assert(s0.item_tags.take(kk + 1).drop_last() =~= s0.item_tags.take(kk as int));
                assert(s0.item_tags.take(kk + 1).last() == s0.item_tags[kk as int]);
                assert(new_links@.map_values(|x: ItemTag| x@) =~= links_without_item(
                    s0.item_tags.take(kk + 1),
                    id as int,
                ));
            }
            kk = kk + 1;
        }
        self.items = new_items;
        self.item_tags = new_links;
        proof {
            assert(s0.items.take(s0.items.len() as int) =~= s0.items);
            assert(s0.item_tags.take(s0.item_tags.len() as int) =~= s0.item_tags);
            assert(self@ =~= delete_item_model(s0, id as int));
            lemma_remove_item_props(s0.items, id as int);
            lemma_links_without_item_props(s0.item_tags, id as int);
            let sv = self@;
            assert forall|x: int|
                0 <= x < sv.items.len() implies 0 < (#[trigger] sv.items[x]).id
                < sv.next_item_id by {
                assert(sv.items.contains(sv.items[x]));
                assert(s0.items.contains(sv.items[x]));
                let n = choose|n: int| 0 <= n < s0.items.len() && s0.items[n] == sv.items[x];
            }
            assert forall|kx: int|
                0 <= kx < sv.item_tags.len() implies has_item_id(
                sv.items,
                (#[trigger] sv.item_tags[kx]).item_id,
            ) && has_tag_id(sv.tags, sv.item_tags[kx].tag_id) by {
                let l = sv.item_tags[kx];
                assert(sv.item_tags.contains(l));
                assert(s0.item_tags.contains(l) && l.item_id != id as int);
                let n = choose|n: int| 0 <= n < s0.item_tags.len() && s0.item_tags[n] == l;
                assert(has_item_id(s0.items, l.item_id));
            }
        }
        found
    }

    /// Deletes a tag by id; its association rows go with it, while the
    /// items themselves stay. Returns whether a row was actually deleted.
    #[verifier::loop_isolation(false)]
    pub fn delete_tag(&mut self, id: i64) -> (r: bool)
        requires
            wf(old(self)@),
        ensures
            wf(final(self)@),
            final(self)@ == delete_tag_model(old(self)@, id as int),
            r == has_tag_id(old(self)@.tags, id as int),
    {
        let ghost s0 = self@;
        let mut found = false;
        let mut new_tags: Vec<Tag> = Vec::new();
        let mut i: usize = 0;
        proof {
            assert(new_tags@.map_values(|x: Tag| x@) =~= remove_tag(s0.tags.take(0), id as int));
        }
        while i < self.tags.len()
            invariant
                i <= self.tags.len(),
                self@ == s0,
                new_tags@.map_values(|x: Tag| x@) == remove_tag(s0.tags.take(i as int), id as int),
                found == has_tag_id(s0.tags.take(i as int), id as int),
            decreases self.tags.len() - i,
        {
            let t = &self.tags[i];
            if t.id == id {
                found = true;
            } else {
                let d = t.duplicate();
                let ghost prev = new_tags@;
                new_tags.push(d);
                proof {
                    prev.lemma_push_map_commute(|x: Tag| x@, d);
                }
            }
            proof {
                assert(s0.tags.take(i + 1).drop_last() =~= s0.tags.take(i as int));
                assert(s0.tags.take(i + 1).last() == s0.tags[i as int]);
                assert(new_tags@.map_values(|x: Tag| x@) =~= remove_tag(
                    s0.tags.take(i + 1),
                    id as int,
                ));
                if s0.tags[i as int].id != id as int {
                    let ghost pre = s0.tags.take(i + 1);
                    let ghost cur = s0.tags.take(i as int);
                    assert(has_tag_id(pre, id as int) == has_tag_id(cur, id as int)) by {
                        if has_tag_id(pre, id as int) {
                            let j = choose|j: int|
                                0 <= j < pre.len() && #[trigger] pre[j].id == id as int;
                            if j < i {
                                assert(cur[j].id == id as int);
                            }
                        }
                        if has_tag_id(cur, id as int) {
                            let j = choose|j: int|
                                0 <= j < cur.len() && #[trigger] cur[j].id == id as int;
                            assert(pre[j].id == id as int);
                        }
                    }
                } else {
                    assert(s0.tags.take(i + 1)[i as int].id == id as int);
                }
            }
            i = i + 1;
        }
        let mut new_links: Vec<ItemTag> = Vec::new();
        let mut kk: usize = 0;
        proof {
            assert(new_links@.map_values(|x: ItemTag| x@) =~= links_without_tag(
                s0.item_tags.take(0),
                id as int,
            ));
        }
        while kk < self.item_tags.len()
            invariant
                kk <= self.item_tags.len(),
                self@ == s0,
                new_links@.map_values(|x: ItemTag| x@) == links_without_tag(
                    s0.item_tags.take(kk as int),
                    id as int,
                ),
            decreases self.item_tags.len() - kk,
        {
            let l = &self.item_tags[kk];
            if l.tag_id != id {
                let d = ItemTag { item_id: l.item_id, tag_id: l.tag_id };
                let ghost prev = new_links@;
                new_links.push(d);
                proof {
                    prev.lemma_push_map_commute(|x: ItemTag| x@, d);
                }
            }
            proof {
                assert(s0.item_tags.take(kk + 1).drop_last() =~= s0.item_tags.take(kk as int));
                assert(s0.item_tags.take(kk + 1).last() == s0.item_tags[kk as int]);
                assert(new_links@.map_values(|x: ItemTag| x@) =~= links_without_tag(
                    s0.item_tags.take(kk + 1),
                    id as int,
                ));
            }
            kk = kk + 1;
        }
        self.tags = new_tags;
        self.item_tags = new_links;
        proof {
            assert(s0.tags.take(s0.tags.len() as int) =~= s0.tags);
            assert(s0.item_tags.take(s0.item_tags.len() as int) =~= s0.item_tags);
            assert(self@ =~= delete_tag_model(s0, id as int));
            lemma_remove_tag_props(s0.tags, id as int);
            lemma_links_without_tag_props(s0.item_tags, id as int);
            let sv = self@;
            assert forall|x: int|
                0 <= x < sv.tags.len() implies 0 < (#[trigger] sv.tags[x]).id < sv.next_tag_id by {
                assert(sv.tags.contains(sv.tags[x]));
                assert(s0.tags.contains(sv.tags[x]));
                let n = choose|n: int| 0 <= n < s0.tags.len() && s0.tags[n] == sv.tags[x];
            }
            assert forall|kx: int|
                0 <= kx < sv.item_tags.len() implies has_item_id(
                sv.items,
                (#[trigger] sv.item_tags[kx]).item_id,
            ) && has_tag_id(sv.tags, sv.item_tags[kx].tag_id) by {
                let l = sv.item_tags[kx];
                assert(sv.item_tags.contains(l));
                assert(s0.item_tags.contains(l) && l.tag_id != id as int);
                let n = choose|n: int| 0 <= n < s0.item_tags.len() && s0.item_tags[n] == l;
                assert(has_tag_id(s0.tags, l.tag_id));
            }
        }
        found
    }

    /// Inserts a tag row at the position its name gives it in the
    /// name-ordered table; nothing else changes.
    #[verifier::loop_isolation(false)]
    fn insert_tag_in_order(&mut self, t: Tag)
        ensures
            final(self)@.tags == insert_tag_sorted(old(self)@.tags, t@),
            final(self)@.items == old(self)@.items,
            final(self)@.item_tags == old(self)@.item_tags,
            final(self)@.next_item_id == old(self)@.next_item_id,
            final(self)@.next_tag_id == old(self)@.next_tag_id,
    {
        let ghost s0 = self@;
        let ghost tv = t@;
        let mut pos: usize = 0;
        proof {
            assert(s0.tags.skip(0) =~= s0.tags);
            assert(s0.tags.take(0) + insert_tag_sorted(s0.tags.skip(0), tv) =~= insert_tag_sorted(
                s0.tags,
                tv,
            ));
        }
        while pos < self.tags.len() && !str_le(t.name.as_str(), self.tags[pos].name.as_str())
            invariant
                pos <= self.tags.len(),
                self@ == s0,
                insert_tag_sorted(s0.tags, tv) == s0.tags.take(pos as int) + insert_tag_sorted(
                    s0.tags.skip(pos as int),
                    tv,
                ),
            decreases self.tags.len() - pos,
        {
            proof {
                assert(s0.tags.skip(pos as int)[0] == s0.tags[pos as int]);
                assert(s0.tags.skip(pos as int).skip(1) =~= s0.tags.skip(pos + 1));
                assert(insert_tag_sorted(s0.tags.skip(pos as int), tv) == seq![s0.tags[pos as int]]
                    + insert_tag_sorted(s0.tags.skip(pos + 1), tv));
                assert(s0.tags.take(pos as int) + (seq![s0.tags[pos as int]] + insert_tag_sorted(
                    s0.tags.skip(pos + 1),
                    tv,
                )) =~= s0.tags.take(pos + 1) + insert_tag_sorted(s0.tags.skip(pos + 1), tv));
            }
            pos = pos + 1;
        }
        proof {
            if pos < self.tags.len() {
                assert(s0.tags.skip(pos as int)[0] == s0.tags[pos as int]);
                assert(insert_tag_sorted(s0.tags.skip(pos as int), tv) == seq![tv] + s0.tags.skip(
                    pos as int,
                ));
            } else {
                assert(s0.tags.skip(pos as int) =~= Seq::<TagView>::empty());
                assert(insert_tag_sorted(Seq::<TagView>::empty(), tv) == seq![tv]);
                assert(seq![tv] =~= seq![tv] + s0.tags.skip(pos as int));
            }
        }
        let ghost prev = self.tags@;
        let ghost tg = t;
        self.tags.insert(pos, t);
        proof {
            prev.insert_ensures(pos as int, tg);
            assert forall|k: int|
                0 <= k < self@.tags.len() implies self@.tags[k] == (s0.tags.take(pos as int) + (
            seq![tv] + s0.tags.skip(pos as int)))[k] by {
                if k < pos {
                    assert(self.tags@[k] == prev[k]);
                } else if k == pos {
                    assert(self.tags@[k] == tg);
                } else {
                    assert(self.tags@[k] == prev[k - 1]);
                }
            }
            assert(self@.tags =~= s0.tags.take(pos as int) + (seq![tv] + s0.tags.skip(
                pos as int,
            )));
            assert(s0.tags.take(pos as int) + (seq![tv] + s0.tags.skip(pos as int))
                =~= s0.tags.take(pos as int) + (insert_tag_sorted(s0.tags.skip(pos as int), tv)));
        }
    }

    /// Creates a tag, failing with a distinguishable uniqueness violation
    /// when the name collides with an existing tag.
    #[verifier::loop_isolation(false)]
    pub fn create_tag(&mut self, req: &CreateTagRequest, now: &str) -> (r: Result<Tag, StoreError>)
        requires
            wf(old(self)@),
            old(self).next_tag_id < i64::MAX,
        ensures
            wf(final(self)@),
            r is Ok <==> !has_tag_name(old(self)@.tags, req.name@),
            r matches Err(e) ==> e is UniqueViolation && final(self)@ == old(self)@,
            r is Ok ==> final(self)@ == create_tag_model(
                old(self)@,
                req.name@,
                opt_text_view(req.color),
                now@,
            ),
            r matches Ok(t) ==> t@ == new_tag_row(
                old(self)@,
                req.name@,
                opt_text_view(req.color),
                now@,
            ),
    {
        let ghost s0 = self@;
        let mut i: usize = 0;
        while i < self.tags.len()
            invariant
                i <= self.tags.len(),
                self@ == s0,
                forall|j: int| 0 <= j < i ==> (#[trigger] s0.tags[j]).name != req.name@,
            decreases self.tags.len() - i,
        {
            if self.tags[i].name == req.name {
                assert(s0.tags[i as int].name == req.name@);
                return Err(StoreError::UniqueViolation);
            }
            i = i + 1;
        }
        proof {
            if has_tag_name(s0.tags, req.name@) {
                let j = choose|j: int| 0 <= j < s0.tags.len() && s0.tags[j].name == req.name@;
            }
        }
        let id = self.next_tag_id;
        let t = Tag {
            id,
            name: req.name.clone(),
            color: match &req.color {
                Some(c) => Some(c.clone()),
                None => None,
            },
            created_at: now.to_owned(),
        };
        let ghost tv = t@;
        let out = t.duplicate();
        self.insert_tag_in_order(t);
        self.next_tag_id = id + 1;
        proof {
            assert(tv == new_tag_row(s0, req.name@, opt_text_view(req.color), now@));
            lemma_insert_tag_sorted_props(s0.tags, tv);
            assert(self@ =~= create_tag_model(s0, req.name@, opt_text_view(req.color), now@));
            let sv = self@;
            assert forall|a: int, b: int| 0 <= a < b < sv.tags.len() implies (
            #[trigger] sv.tags[a]).id != (#[trigger] sv.tags[b]).id by {
                let x = sv.tags[a];
                let y = sv.tags[b];
                assert(sv.tags.contains(x) && sv.tags.contains(y));
                assert(x.name != y.name);
                if s0.tags.contains(x) && s0.tags.contains(y) {
                    let m = choose|m: int| 0 <= m < s0.tags.len() && s0.tags[m] == x;
                    let n = choose|n: int| 0 <= n < s0.tags.len() && s0.tags[n] == y;
                    assert(m != n);
                } else if s0.tags.contains(x) {
                    let m = choose|m: int| 0 <= m < s0.tags.len() && s0.tags[m] == x;
                } else if s0.tags.contains(y) {
                    let n = choose|n: int| 0 <= n < s0.tags.len() && s0.tags[n] == y;
                }
            }
            assert forall|a: int|
                0 <= a < sv.tags.len() implies 0 < (#[trigger] sv.tags[a]).id < sv.next_tag_id by {
                let x = sv.tags[a];
                assert(sv.tags.contains(x));
                if s0.tags.contains(x) {
                    let m = choose|m: int| 0 <= m < s0.tags.len() && s0.tags[m] == x;
                }
            }
            assert forall|kx: int|
                0 <= kx < sv.item_tags.len() implies has_item_id(
                sv.items,
                (#[trigger] sv.item_tags[kx]).item_id,
            ) && has_tag_id(sv.tags, sv.item_tags[kx].tag_id) by {
                let l = sv.item_tags[kx];
                assert(has_tag_id(s0.tags, l.tag_id));
                let n = choose|n: int| 0 <= n < s0.tags.len() && (#[trigger] s0.tags[n]).id
                    == l.tag_id;
                assert(s0.tags.contains(s0.tags[n]));
                assert(sv.tags.contains(s0.tags[n]));
                let m = choose|m: int| 0 <= m < sv.tags.len() && sv.tags[m] == s0.tags[n];
            }
        }
        Ok(out)
    }

    /// Partially updates a tag: present fields replace, absent fields
    /// stay. A supplied name that another tag already carries fails with
    /// a uniqueness violation; an absent id is a normal "not found".
    #[verifier::loop_isolation(false)]
    pub fn update_tag(&mut self, id: i64, req: &UpdateTagRequest) -> (r: Result<
        Option<Tag>,
        StoreError,
    >)
        requires
            wf(old(self)@),
        ensures
            wf(final(self)@),
            find_tag(old(self)@.tags, id as int) is None ==> (r matches Ok(None)) && final(self)@
                == old(self)@,
            r matches Ok(None) ==> find_tag(old(self)@.tags, id as int) is None,
            r is Err <==> (find_tag(old(self)@.tags, id as int) is Some && (req.name matches Some(
                n,
            ) && name_conflict(old(self)@, id as int, n@))),
            r matches Err(e) ==> e is UniqueViolation && final(self)@ == old(self)@,
            r matches Ok(Some(t)) ==> final(self)@ == update_tag_model(
                old(self)@,
                id as int,
                opt_text_view(req.name),
                opt_text_view(req.color),
            ) && (find_tag(old(self)@.tags, id as int) matches Some(t0) && t@ == patched_tag(
                t0,
                opt_text_view(req.name),
                opt_text_view(req.color),
            )),
    {
        let ghost s0 = self@;
        let idx = match self.find_tag_index(id) {
            None => {
                return Ok(None);
            },
            Some(ix) => ix,
        };
        if let Some(name) = &req.name {
            let mut i: usize = 0;
            while i < self.tags.len()
                invariant
                    i <= self.tags.len(),
                    self@ == s0,
                    forall|j: int|
                        0 <= j < i ==> !((#[trigger] s0.tags[j]).name == name@ && s0.tags[j].id
                            != id as int),
                decreases self.tags.len() - i,
            {
                let c = &self.tags[i];
                if c.id != id && c.name == *name {
                    assert(s0.tags[i as int].name == name@ && s0.tags[i as int].id != id as int);
                    return Err(StoreError::UniqueViolation);
                }
                i = i + 1;
            }
            proof {
                if name_conflict(s0, id as int, name@) {
                    let j = choose|j: int|
                        0 <= j < s0.tags.len() && (#[trigger] s0.tags[j]).name == name@
                            && s0.tags[j].id != id as int;
                }
            }
        }
        let told = self.tags[idx].duplicate();
        let mut new_tags: Vec<Tag> = Vec::new();
        let mut i: usize = 0;
        proof {
            assert(new_tags@.map_values(|x: Tag| x@) =~= remove_tag(s0.tags.take(0), id as int));
        }
        while i < self.tags.len()
            invariant
                i <= self.tags.len(),
                self@ == s0,
                new_tags@.map_values(|x: Tag| x@) == remove_tag(s0.tags.take(i as int), id as int),
            decreases self.tags.len() - i,
        {
            let t = &self.tags[i];
            if t.id != id {
                let d = t.duplicate();
                let ghost prev = new_tags@;
                new_tags.push(d);
                proof {
                    prev.lemma_push_map_commute(|x: Tag| x@, d);
                }
            }
            proof {
                assert(s0.tags.take(i + 1).drop_last() =~= s0.tags.take(i as int));
                assert(s0.tags.take(i + 1).last() == s0.tags[i as int]);
                assert(new_tags@.map_values(|x: Tag| x@) =~= remove_tag(
                    s0.tags.take(i + 1),
                    id as int,
                ));
            }
            i = i + 1;
        }
        self.tags = new_tags;
        proof {
            assert(s0.tags.take(s0.tags.len() as int) =~= s0.tags);
        }
        let t2 = Tag {
            id: told.id,
            name: match &req.name {
                Some(n) => n.clone(),
                None => told.name,
            },
            color: match &req.color {
                Some(c) => Some(c.clone()),
                None => told.color,
            },
            created_at: told.created_at,
        };
        let ghost t2v = t2@;
        let out = t2.duplicate();
        proof {
            assert(told@ == s0.tags[idx as int]);
            assert(t2v == patched_tag(
                s0.tags[idx as int],
                opt_text_view(req.name),
                opt_text_view(req.color),
            ));
            lemma_remove_tag_props(s0.tags, id as int);
            let kept = remove_tag(s0.tags, id as int);
            assert forall|k: int| 0 <= k < kept.len() implies (#[trigger] kept[k]).name
                != t2v.name by {
                assert(kept.contains(kept[k]));
                assert(s0.tags.contains(kept[k]) && kept[k].id != id as int);
                let n = choose|n: int| 0 <= n < s0.tags.len() && s0.tags[n] == kept[k];
                assert(n != idx);
                if req.name is None {
                    if n < idx {
                        assert(s0.tags[n].name != s0.tags[idx as int].name);
                    } else {
                        assert(s0.tags[idx as int].name != s0.tags[n].name);
                    }
                }
            }
            lemma_insert_tag_sorted_props(kept, t2v);
        }
        self.insert_tag_in_order(t2);
        proof {
            let kept = remove_tag(s0.tags, id as int);
            assert(self@ =~= update_tag_model(
                s0,
                id as int,
                opt_text_view(req.name),
                opt_text_view(req.color),
            ));
            let sv = self@;
            assert forall|a: int, b: int| 0 <= a < b < sv.tags.len() implies (
            #[trigger] sv.tags[a]).id != (#[trigger] sv.tags[b]).id by {
                let x = sv.tags[a];
                let y = sv.tags[b];
                assert(sv.tags.contains(x) && sv.tags.contains(y));
                assert(x.name != y.name);
                if kept.contains(x) && kept.contains(y) {
                    assert(s0.tags.contains(x) && s0.tags.contains(y));
                    let m = choose|m: int| 0 <= m < s0.tags.len() && s0.tags[m] == x;
                    let n = choose|n: int| 0 <= n < s0.tags.len() && s0.tags[n] == y;
                    assert(m != n);
                } else if kept.contains(x) {
                    assert(y == t2v && x.id != id as int);
                } else if kept.contains(y) {
                    assert(x == t2v && y.id != id as int);
                }
            }
            assert forall|a: int|
                0 <= a < sv.tags.len() implies 0 < (#[trigger] sv.tags[a]).id < sv.next_tag_id by {
                let x = sv.tags[a];
                assert(sv.tags.contains(x));
                if kept.contains(x) {
                    assert(s0.tags.contains(x));
                    let m = choose|m: int| 0 <= m < s0.tags.len() && s0.tags[m] == x;
                } else {
                    assert(x == t2v);
                    assert(x.id == s0.tags[idx as int].id);
                }
            }
            assert forall|kx: int|
                0 <= kx < sv.item_tags.len() implies has_item_id(
                sv.items,
                (#[trigger] sv.item_tags[kx]).item_id,
            ) && has_tag_id(sv.tags, sv.item_tags[kx].tag_id) by {
                let l = sv.item_tags[kx];
                assert(has_tag_id(s0.tags, l.tag_id));
                let n = choose|n: int| 0 <= n < s0.tags.len() && (#[trigger] s0.tags[n]).id
                    == l.tag_id;
                if s0.tags[n].id == id as int {
                    assert(sv.tags.contains(t2v));
                    let m = choose|m: int| 0 <= m < sv.tags.len() && sv.tags[m] == t2v;
                } else {
                    assert(s0.tags.contains(s0.tags[n]));
                    assert(kept.contains(s0.tags[n]));
                    assert(sv.tags.contains(s0.tags[n]));
                    let m = choose|m: int| 0 <= m < sv.tags.len() && sv.tags[m] == s0.tags[n];
                }
            }
        }
        Ok(Some(out))
    }

    /// Partially updates an item: present fields replace, absent fields
    /// stay; any content or checked change refreshes the updated
    /// timestamp; a supplied tag-id list (even empty) replaces the whole
    /// association set. Association targets are checked before any
    /// write. An absent id is a normal "not found".
    #[verifier::loop_isolation(false)]
    pub fn update_item(&mut self, id: i64, req: &UpdateItemRequest, now: &str) -> (r: Result<
        Option<Item>,
        StoreError,
    >)
        requires
            wf(old(self)@),
        ensures
            wf(final(self)@),
            find_item(old(self)@.items, id as int) is None ==> (r matches Ok(None)) && final(self)@
                == old(self)@,
            r matches Ok(None) ==> find_item(old(self)@.items, id as int) is None,
            r is Err <==> (find_item(old(self)@.items, id as int) is Some && (req.tag_ids matches
                Some(v) && !all_tags_exist(old(self)@.tags, ids_view(v@)))),
            r matches Err(e) ==> e is MissingReference && final(self)@ == old(self)@,
            r matches Ok(Some(item)) ==> final(self)@ == update_item_model(
                old(self)@,
                id as int,
                opt_text_view(req.content),
                req.checked,
                opt_ids_view(req.tag_ids),
                now@,
            ) && (find_item(old(self)@.items, id as int) matches Some(row0) && item@ == item_view(
                final(self)@,
                patched_row(row0, opt_text_view(req.content), req.checked, now@),
            )),
    {
        let ghost s0 = self@;
        let idx = match self.find_item_index(id) {
            None => {
                return Ok(None);
            },
            Some(ix) => ix,
        };
        if let Some(tag_vec) = &req.tag_ids {
            let ghost tids = ids_view(tag_vec@);
            let mut k: usize = 0;
            while k < tag_vec.len()
                invariant
                    k <= tag_vec.len(),
                    self@ == s0,
                    tids == ids_view(tag_vec@),
                    forall|j: int| 0 <= j < k ==> has_tag_id(s0.tags, #[trigger] tids[j]),
                decreases tag_vec.len() - k,
            {
                if !self.tag_id_exists(tag_vec[k]) {
                    assert(tids[k as int] == tag_vec@[k as int] as int);
                    return Err(StoreError::MissingReference);
                }
                assert(tids[k as int] == tag_vec@[k as int] as int);
                k = k + 1;
            }
            assert(all_tags_exist(s0.tags, tids));
        }
        let ghost patch = |r: ItemRowView|
            if r.id == id as int {
                patched_row(r, opt_text_view(req.content), req.checked, now@)
            } else {
                r
            };
        let touched = req.content.is_some() || req.checked.is_some();
        let row_old = self.items.remove(idx);
        let ghost after_remove = self.items@;
        let row2 = ItemRow {
            id: row_old.id,
            content: match &req.content {
                Some(c) => c.clone(),
                None => row_old.content,
            },
            checked: match req.checked {
                Some(b) => b,
                None => row_old.checked,
            },
            created_at: row_old.created_at,
            updated_at: if touched {
                now.to_owned()
            } else {
                row_old.updated_at
            },
        };
        let ghost row2g = row2;
        self.items.insert(idx, row2);
        proof {
            assert(row2g@ == patched_row(
                s0.items[idx as int],
                opt_text_view(req.content),
                req.checked,
                now@,
            ));
            let target = s0.items.map_values(patch);
            assert forall|k: int|
                0 <= k < self@.items.len() implies self@.items[k] == target[k] by {
                if k < idx {
                    assert(self.items@[k] == after_remove[k]);
                    assert(s0.items[k].id != s0.items[idx as int].id);
                } else if k == idx {
                    assert(self.items@[k] == row2g);
                } else {
                    assert(self.items@[k] == after_remove[k - 1]);
                    assert(s0.items[idx as int].id != s0.items[k].id);
                }
            }
            assert(self@.items =~= s0.items.map_values(patch));
        }
        if let Some(tag_vec) = &req.tag_ids {
            let ghost tids = ids_view(tag_vec@);
            let ghost mid = self@;
            let mut new_links: Vec<ItemTag> = Vec::new();
            let mut kk: usize = 0;
            proof {
                assert(new_links@.map_values(|x: ItemTag| x@) =~= links_without_item(
                    s0.item_tags.take(0),
                    id as int,
                ));
            }
            while kk < self.item_tags.len()
                invariant
                    kk <= self.item_tags.len(),
                    self@ == mid,
                    mid.item_tags == s0.item_tags,
                    new_links@.map_values(|x: ItemTag| x@) == links_without_item(
                        s0.item_tags.take(kk as int),
                        id as int,
                    ),
                decreases self.item_tags.len() - kk,
            {
                let l = &self.item_tags[kk];
                if l.item_id != id {
                    let d = ItemTag { item_id: l.item_id, tag_id: l.tag_id };
                    let ghost prev = new_links@;
                    new_links.push(d);
                    proof {
                        prev.lemma_push_map_commute(|x: ItemTag| x@, d);
                    }
                }
                proof {
                    assert(s0.item_tags.take(kk + 1).drop_last() =~= s0.item_tags.take(kk as int));
                    assert(s0.item_tags.take(kk + 1).last() == s0.item_tags[kk as int]);
                    assert(new_links@.map_values(|x: ItemTag| x@) =~= links_without_item(
                        s0.item_tags.take(kk + 1),
                        id as int,
                    ));
                }
                kk = kk + 1;
            }
            self.item_tags = new_links;
            proof {
                assert(s0.item_tags.take(s0.item_tags.len() as int) =~= s0.item_tags);
            }
            let ghost base = self@.item_tags;
            let mut k2: usize = 0;
            let ghost mid2 = self@;
            proof {
                assert(tids.skip(0) =~= tids);
            }
            while k2 < tag_vec.len()
                invariant
                    k2 <= tag_vec.len(),
                    tids == ids_view(tag_vec@),
                    self@.items == mid2.items,
                    self@.tags == mid2.tags,
                    self@.next_item_id == mid2.next_item_id,
                    self@.next_tag_id == mid2.next_tag_id,
                    add_links(base, id as int, tids) == add_links(
                        self@.item_tags,
                        id as int,
                        tids.skip(k2 as int),
                    ),
                decreases tag_vec.len() - k2,
            {
                let tid = tag_vec[k2];
                assert(tids[k2 as int] == tid as int);
                let ghost links_before = self@.item_tags;
                if !self.link_exists(id, tid) {
                    let l = ItemTag { item_id: id, tag_id: tid };
                    let ghost prev = self.item_tags@;
                    self.item_tags.push(l);
                    proof {
                        prev.lemma_push_map_commute(|x: ItemTag| x@, l);
                    }
                }
                proof {
                    assert(tids.skip(k2 as int)[0] == tids[k2 as int]);
                    assert(tids.skip(k2 as int).skip(1) =~= tids.skip(k2 + 1));
                    assert(add_links(links_before, id as int, tids.skip(k2 as int)) == add_links(
                        self@.item_tags,
                        id as int,
                        tids.skip(k2 + 1),
                    ));
                }
                k2 = k2 + 1;
            }
            proof {
                assert(tids.skip(tag_vec.len() as int) =~= Seq::<int>::empty());
                assert(add_links(self@.item_tags, id as int, Seq::<int>::empty())
                    == self@.item_tags);
                lemma_links_without_item_props(s0.item_tags, id as int);
                lemma_add_links_props(base, id as int, tids);
            }
        }
        proof {
            assert(self@ =~= update_item_model(
                s0,
                id as int,
                opt_text_view(req.content),
                req.checked,
                opt_ids_view(req.tag_ids),
                now@,
            ));
            let sv = self@;
            assert forall|k: int|
                0 <= k < sv.items.len() implies (#[trigger] sv.items[k]).id == s0.items[k].id by {
            }
            assert forall|kx: int|
                0 <= kx < sv.item_tags.len() implies has_item_id(
                sv.items,
                (#[trigger] sv.item_tags[kx]).item_id,
            ) && has_tag_id(sv.tags, sv.item_tags[kx].tag_id) by {
                let l = sv.item_tags[kx];
                if req.tag_ids is None {
                    assert(sv.item_tags == s0.item_tags);
                    assert(has_item_id(s0.items, l.item_id));
                    let n = choose|n: int| 0 <= n < s0.items.len() && (#[trigger] s0.items[n]).id
                        == l.item_id;
                    assert(sv.items[n].id == l.item_id);
                } else {
                    assert(sv.item_tags.contains(l));
                    if links_without_item(s0.item_tags, id as int).contains(l) {
                        assert(s0.item_tags.contains(l));
                        let m = choose|m: int|
                            0 <= m < s0.item_tags.len() && s0.item_tags[m] == l;
                        assert(has_item_id(s0.items, l.item_id));
                        let n = choose|n: int|
                            0 <= n < s0.items.len() && (#[trigger] s0.items[n]).id == l.item_id;
                        assert(sv.items[n].id == l.item_id);
                    } else {
                        assert(l.item_id == id as int);
                        assert(sv.items[idx as int].id == id as int);
                        match &req.tag_ids {
                            Some(v) => {
                                let tids = ids_view(v@);
                                assert(tids.contains(l.tag_id));
                                let m = choose|m: int| 0 <= m < tids.len() && tids[m] == l.tag_id;
                                assert(has_tag_id(s0.tags, tids[m]));
                            },
                            None => {},
                        }
                    }
                }
            }
            lemma_find_item_at(sv.items, idx as int, id as int);
        }
        match self.get_item_by_id(id) {
            Some(item) => Ok(Some(item)),
            None => {
                proof {
                    assert(false);
                }
                Err(StoreError::MissingReference)
            },
        }
    }
}

} // verus!
