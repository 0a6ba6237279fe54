//! The laws of the store: properties that relate several operations or
//! quantify over whole states, stated and proved against the model that
//! the operations' own contracts use.

use vstd::prelude::*;

use crate::models::TagView;
use crate::store::{
    create_item_model, delete_tag_model, find_item, get_item_model, has_item_id, item_view,
    lemma_find_item_props, lemma_find_item_push, lemma_links_without_item_props,
    lemma_links_without_tag_props, links_without_item, links_without_tag,
    list_items_model, matches_filter, new_item_row, patched_row, remove_tag, tags_of,
    update_item_model, wf, ItemRowView, ItemTagView, StoreView,
};

verus! {

/// No association rows for an item means an empty tag set for it.
proof fn lemma_tags_of_no_links(tags: Seq<TagView>, links: Seq<ItemTagView>, item_id: int)
    requires
        forall|k: int| 0 <= k < links.len() ==> (#[trigger] links[k]).item_id != item_id,
    ensures
        tags_of(tags, links, item_id) == Seq::<TagView>::empty(),
    decreases tags.len(),
{
    if tags.len() > 0 {
        lemma_tags_of_no_links(tags.drop_last(), links, item_id);
        if links.contains(ItemTagView { item_id, tag_id: tags.last().id }) {
            let k = choose|k: int|
                0 <= k < links.len() && links[k] == ItemTagView { item_id, tag_id: tags.last().id };
        }
        assert(tags_of(tags, links, item_id) =~= Seq::<TagView>::empty());
    }
}

/// Creating an item with no tag ids yields an item whose tag list is
/// empty and whose checked flag and content are exactly the given ones.
pub proof fn lemma_create_item_no_tags(
    s: StoreView,
    content: Seq<char>,
    checked: bool,
    now: Seq<char>,
)
    requires
        wf(s),
    ensures
        item_view(
            create_item_model(s, content, checked, Seq::empty(), now),
            new_item_row(s, content, checked, now),
        ).tags == Seq::<TagView>::empty(),
        item_view(
            create_item_model(s, content, checked, Seq::empty(), now),
            new_item_row(s, content, checked, now),
        ).checked == checked,
        item_view(
            create_item_model(s, content, checked, Seq::empty(), now),
            new_item_row(s, content, checked, now),
        ).content == content,
{
    let s2 = create_item_model(s, content, checked, Seq::empty(), now);
    assert(s2.item_tags == s.item_tags);
    assert forall|k: int|
        0 <= k < s.item_tags.len() implies (#[trigger] s.item_tags[k]).item_id
        != s.next_item_id by {
        assert(has_item_id(s.items, s.item_tags[k].item_id));
        let n = choose|n: int|
            0 <= n < s.items.len() && (#[trigger] s.items[n]).id == s.item_tags[k].item_id;
    }
    lemma_tags_of_no_links(s2.tags, s2.item_tags, s.next_item_id);
}

/// Fetching a freshly created item finds exactly the item the creation
/// reported: the round trip is the identity.
pub proof fn lemma_create_then_fetch(
    s: StoreView,
    content: Seq<char>,
    checked: bool,
    tag_ids: Seq<int>,
    now: Seq<char>,
)
    requires
        wf(s),
    ensures
        get_item_model(create_item_model(s, content, checked, tag_ids, now), s.next_item_id)
            == Some(
            item_view(
                create_item_model(s, content, checked, tag_ids, now),
                new_item_row(s, content, checked, now),
            ),
        ),
{
    let row = new_item_row(s, content, checked, now);
    assert forall|x: int| has_item_id(s.items, x) implies x < s.next_item_id by {
        let n = choose|n: int| 0 <= n < s.items.len() && (#[trigger] s.items[n]).id == x;
    }
    lemma_find_item_props(s.items, s.next_item_id);
    lemma_find_item_push(s.items, row, s.next_item_id);
}

/// The listed entry is the projection of some row passing the filter.
pub open spec fn listed_from(
    s: StoreView,
    rows: Seq<ItemRowView>,
    filter: Option<int>,
    it: crate::models::ItemView,
) -> bool {
    exists|i: int|
        0 <= i < rows.len() && matches_filter(s, #[trigger] rows[i], filter) && it == item_view(
            s,
            rows[i],
        )
}

/// The item listing is ordered strictly descending by id — ids follow
/// creation order, so newest first — lists only rows passing the
/// filter, lists every row passing it, and lists each exactly once.
pub proof fn lemma_list_items_order_and_filter(
    s: StoreView,
    rows: Seq<ItemRowView>,
    filter: Option<int>,
)
    requires
        forall|i: int, j: int| 0 <= i < j < rows.len() ==> rows[i].id < rows[j].id,
    ensures
        forall|a: int, b: int|
            0 <= a < b < list_items_model(s, rows, filter).len() ==> list_items_model(
                s,
                rows,
                filter,
            )[a].id > list_items_model(s, rows, filter)[b].id,
        forall|k: int|
            0 <= k < list_items_model(s, rows, filter).len() ==> listed_from(
                s,
                rows,
                filter,
                #[trigger] list_items_model(s, rows, filter)[k],
            ),
        forall|i: int|
            0 <= i < rows.len() && matches_filter(s, #[trigger] rows[i], filter)
                ==> list_items_model(s, rows, filter).contains(item_view(s, rows[i])),
    decreases rows.len(),
{
    let out = list_items_model(s, rows, filter);
    if rows.len() > 0 {
        let pre = rows.drop_last();
        let rest = list_items_model(s, pre, filter);
        assert forall|i: int, j: int| 0 <= i < j < pre.len() implies pre[i].id < pre[j].id by {
            assert(pre[i] == rows[i] && pre[j] == rows[j]);
        }
        lemma_list_items_order_and_filter(s, pre, filter);
        if matches_filter(s, rows.last(), filter) {
            assert(out =~= seq![item_view(s, rows.last())] + rest);
            assert forall|k: int| 0 <= k < out.len() implies listed_from(
                s,
                rows,
                filter,
                #[trigger] out[k],
            ) by {
                if k == 0 {
                    assert(out[0] == item_view(s, rows[rows.len() - 1]));
                    assert(matches_filter(s, rows[rows.len() - 1], filter));
                } else {
                    assert(out[k] == rest[k - 1]);
                    assert(listed_from(s, pre, filter, rest[k - 1]));
                    let i = choose|i: int|
                        0 <= i < pre.len() && matches_filter(s, #[trigger] pre[i], filter)
                            && rest[k - 1] == item_view(s, pre[i]);
                    assert(rows[i] == pre[i]);
                    assert(matches_filter(s, rows[i], filter));
                }
            }
            assert forall|a: int, b: int| 0 <= a < b < out.len() implies out[a].id > out[b].id by {
                if a == 0 {
                    assert(out[0].id == rows.last().id);
                    assert(out[b] == rest[b - 1]);
                    assert(listed_from(s, pre, filter, rest[b - 1]));
                    let i = choose|i: int|
                        0 <= i < pre.len() && matches_filter(s, #[trigger] pre[i], filter)
                            && rest[b - 1] == item_view(s, pre[i]);
                    assert(pre[i].id < rows.last().id);
                } else {
                    assert(out[a] == rest[a - 1] && out[b] == rest[b - 1]);
                }
            }
            assert forall|i: int|
                0 <= i < rows.len() && matches_filter(s, #[trigger] rows[i], filter) implies
                out.contains(item_view(s, rows[i])) by {
                if i == rows.len() - 1 {
                    assert(out[0] == item_view(s, rows[i]));
                } else {
                    assert(pre[i] == rows[i]);
                    assert(rest.contains(item_view(s, pre[i])));
                    let m = choose|m: int|
                        0 <= m < rest.len() && rest[m] == item_view(s, pre[i]);
                    assert(out[m + 1] == rest[m]);
                }
            }
        } else {
            assert(out =~= rest);
            assert forall|k: int| 0 <= k < out.len() implies listed_from(
                s,
                rows,
                filter,
                #[trigger] out[k],
            ) by {
                assert(listed_from(s, pre, filter, rest[k]));
                let i = choose|i: int|
                    0 <= i < pre.len() && matches_filter(s, #[trigger] pre[i], filter) && rest[k]
                        == item_view(s, pre[i]);
                assert(rows[i] == pre[i]);
                assert(matches_filter(s, rows[i], filter));
            }
            assert forall|i: int|
                0 <= i < rows.len() && matches_filter(s, #[trigger] rows[i], filter) implies
                out.contains(item_view(s, rows[i])) by {
                assert(i < pre.len() && pre[i] == rows[i]);
                assert(rest.contains(item_view(s, pre[i])));
            }
        }
    }
}

/// Supplying an empty tag-id list on update clears the item's
/// association rows entirely: its tag set becomes empty.
pub proof fn lemma_update_clear_tags(
    s: StoreView,
    id: int,
    content: Option<Seq<char>>,
    checked: Option<bool>,
    now: Seq<char>,
)
    requires
        wf(s),
        find_item(s.items, id) is Some,
    ensures
        update_item_model(s, id, content, checked, Some(Seq::empty()), now).item_tags
            == links_without_item(s.item_tags, id),
        tags_of(
            update_item_model(s, id, content, checked, Some(Seq::empty()), now).tags,
            update_item_model(s, id, content, checked, Some(Seq::empty()), now).item_tags,
            id,
        ) == Seq::<TagView>::empty(),
{
    let s2 = update_item_model(s, id, content, checked, Some(Seq::empty()), now);
    let kept = links_without_item(s.item_tags, id);
    lemma_links_without_item_props(s.item_tags, id);
    assert forall|k: int| 0 <= k < kept.len() implies (#[trigger] kept[k]).item_id != id by {
        assert(kept.contains(kept[k]));
    }
    lemma_tags_of_no_links(s2.tags, kept, id);
}

/// Deleting a tag keeps every item row and removes exactly that tag
/// from every item's tag set.
pub proof fn lemma_delete_tag_keeps_items(s: StoreView, tag_id: int, item_id: int)
    requires
        wf(s),
    ensures
        delete_tag_model(s, tag_id).items == s.items,
        tags_of(
            delete_tag_model(s, tag_id).tags,
            delete_tag_model(s, tag_id).item_tags,
            item_id,
        ) == remove_tag(tags_of(s.tags, s.item_tags, item_id), tag_id),
{
    lemma_links_without_tag_props(s.item_tags, tag_id);
    lemma_tags_of_tag_removal(s.tags, s.item_tags, tag_id, item_id);
}

/// Removing a tag row and its association rows commutes with taking an
/// item's tag set.
proof fn lemma_tags_of_tag_removal(
    tags: Seq<TagView>,
    links: Seq<ItemTagView>,
    tag_id: int,
    item_id: int,
)
    requires
        forall|l: ItemTagView|
            #[trigger] links_without_tag(links, tag_id).contains(l) <==> (links.contains(l)
                && l.tag_id != tag_id),
    ensures
        tags_of(remove_tag(tags, tag_id), links_without_tag(links, tag_id), item_id) == remove_tag(
            tags_of(tags, links, item_id),
            tag_id,
        ),
    decreases tags.len(),
{
    let lw = links_without_tag(links, tag_id);
    if tags.len() == 0 {
        assert(tags_of(remove_tag(tags, tag_id), lw, item_id) =~= remove_tag(
            tags_of(tags, links, item_id),
            tag_id,
        ));
    } else {
        let pre = tags.drop_last();
        let t = tags.last();
        lemma_tags_of_tag_removal(pre, links, tag_id, item_id);
        let lhs_inner = tags_of(remove_tag(pre, tag_id), lw, item_id);
        let rhs_inner = tags_of(pre, links, item_id);
        if t.id == tag_id {
            assert(remove_tag(tags, tag_id) =~= remove_tag(pre, tag_id));
            if links.contains(ItemTagView { item_id, tag_id: t.id }) {
                assert(tags_of(tags, links, item_id) =~= rhs_inner.push(t));
                assert(rhs_inner.push(t).drop_last() =~= rhs_inner);
                assert(remove_tag(tags_of(tags, links, item_id), tag_id) =~= remove_tag(
                    rhs_inner,
                    tag_id,
                ));
            } else {
                assert(tags_of(tags, links, item_id) =~= rhs_inner);
            }
        } else {
            assert(remove_tag(tags, tag_id) =~= remove_tag(pre, tag_id).push(t));
            assert(remove_tag(pre, tag_id).push(t).drop_last() =~= remove_tag(pre, tag_id));
            assert(tags_of(remove_tag(tags, tag_id), lw, item_id) == lhs_inner + (if lw.contains(
                ItemTagView { item_id, tag_id: t.id },
            ) {
                seq![t]
            } else {
                Seq::<TagView>::empty()
            }));
            assert(lw.contains(ItemTagView { item_id, tag_id: t.id }) <==> links.contains(
                ItemTagView { item_id, tag_id: t.id },
            ));
            if links.contains(ItemTagView { item_id, tag_id: t.id }) {
                assert(tags_of(tags, links, item_id) =~= rhs_inner.push(t));
                assert(rhs_inner.push(t).drop_last() =~= rhs_inner);
                assert(remove_tag(tags_of(tags, links, item_id), tag_id) =~= remove_tag(
                    rhs_inner,
                    tag_id,
                ).push(t));
                assert(tags_of(remove_tag(tags, tag_id), lw, item_id) =~= lhs_inner.push(t));
            } else {
                assert(tags_of(tags, links, item_id) =~= rhs_inner);
                assert(tags_of(remove_tag(tags, tag_id), lw, item_id) =~= lhs_inner);
            }
        }
    }
}

/// A patch that only sets the checked flag keeps the content, the
/// creation timestamp and the whole association table, and refreshes
/// the updated timestamp.
pub proof fn lemma_checked_only_update(
    s: StoreView,
    id: int,
    row0: ItemRowView,
    b: bool,
    now: Seq<char>,
)
    requires
        wf(s),
        find_item(s.items, id) == Some(row0),
    ensures
        patched_row(row0, None, Some(b), now).content == row0.content,
        patched_row(row0, None, Some(b), now).created_at == row0.created_at,
        patched_row(row0, None, Some(b), now).checked == b,
        patched_row(row0, None, Some(b), now).updated_at == now,
        update_item_model(s, id, None, Some(b), None, now).item_tags == s.item_tags,
        update_item_model(s, id, None, Some(b), None, now).tags == s.tags,
        tags_of(
            update_item_model(s, id, None, Some(b), None, now).tags,
            update_item_model(s, id, None, Some(b), None, now).item_tags,
            id,
        ) == tags_of(s.tags, s.item_tags, id),
{
}

} // verus!
