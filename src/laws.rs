//! Laws that relate the operations of the store.
use vstd::prelude::*;

use crate::history::{entries_for, lemma_append_keeps_history, lemma_latest_push_newest};
use crate::model::{details_of, empty_details, Entry, Item};
use crate::store::{id_of, new_entry, StoreView};

verus! {

/// Every operation that writes the entry log leaves each item's earlier
/// history as it was: the history before is a prefix of the history after.
pub proof fn lemma_history_only_grows(s: StoreView, it: Item, id: u32, item_id: u32)
    ensures
        is_prefix(entries_for(s.entries, item_id), entries_for(s.after_insert_entry(it).entries, item_id)),
        is_prefix(entries_for(s.entries, item_id), entries_for(s.after_update_item(it).entries, item_id)),
        is_prefix(entries_for(s.entries, item_id), entries_for(s.after_insert_item(it).entries, item_id)),
        is_prefix(entries_for(s.entries, item_id), entries_for(s.after_delete_item(id).entries, item_id)),
        s.after_delete_category(id).entries == s.entries,
{
    lemma_push_is_prefix(s.entries, s.after_insert_entry(it).entries.last(), item_id);
    lemma_push_is_prefix(s.entries, s.after_update_item(it).entries.last(), item_id);
    lemma_push_is_prefix(s.entries, s.after_insert_item(it).entries.last(), item_id);
    lemma_push_is_prefix(s.entries, s.after_delete_item(id).entries.last(), item_id);
}

/// `a` is `b`'s first `a.len()` elements.
pub open spec fn is_prefix(a: Seq<Entry>, b: Seq<Entry>) -> bool {
    a.len() <= b.len() && b.subrange(0, a.len() as int) == a
}

proof fn lemma_push_is_prefix(s: Seq<Entry>, e: Entry, item_id: u32)
    ensures
        is_prefix(entries_for(s, item_id), entries_for(s.push(e), item_id)),
{
    lemma_append_keeps_history(s, e, item_id);
    let h = entries_for(s, item_id);
    assert(h.push(e).subrange(0, h.len() as int) =~= h);
    assert(h.subrange(0, h.len() as int) =~= h);
}

/// Soft-deleting an active category frees its title, while the category
/// itself stays in the store, marked removed.
pub proof fn lemma_deleted_category_title_free(s: StoreView, i: int)
    requires
        s.wf(),
        0 <= i < s.categories.len(),
        !s.categories[i].removed,
    ensures
        ({
            let id = id_of(s.categories[i].id);
            let t = s.after_delete_category(id);
            &&& !t.category_title_taken(s.categories[i].title@)
            &&& t.category_exists(id)
            &&& forall|j: int| 0 <= j < t.categories.len() && (#[trigger] t.categories[j]).id == Some(id)
                ==> t.categories[j].removed && t.categories[j].title == s.categories[i].title
        }),
{
    let id = id_of(s.categories[i].id);
    let t = s.after_delete_category(id);
    assert(t.categories[i].id == Some(id));
    assert forall|j: int| 0 <= j < t.categories.len() && (#[trigger] t.categories[j]).title@ == s.categories[i].title@
        implies t.categories[j].removed by {
        if j != i && !s.categories[j].removed {
            assert(s.categories[j].title@ != s.categories[i].title@);
        }
    }
    assert forall|j: int| 0 <= j < t.categories.len() && (#[trigger] t.categories[j]).id == Some(id)
        implies t.categories[j].removed && t.categories[j].title == s.categories[i].title by {
        if j < i {
            assert(id_of(s.categories[j].id) < id_of(s.categories[i].id));
        } else if j > i {
            assert(id_of(s.categories[i].id) < id_of(s.categories[j].id));
        }
    }
}

/// A newly created item is listed exactly once, under its new id, with the
/// details it was created with (the empty snapshot if it had none).
pub proof fn lemma_created_item_listed(s: StoreView, it: Item)
    requires
        s.wf(),
        s.insert_item_outcome(it) is Ok,
    ensures
        ({
            let nid = s.next_item_id() as u32;
            let t = s.after_insert_item(it);
            let d = match it.details {
                Some(d) => d,
                None => empty_details(),
            };
            &&& t.item_exists(nid)
            &&& t.items.last().id == Some(nid)
            &&& forall|j: int| 0 <= j < t.items.len() - 1 ==> (#[trigger] t.items[j]).id != Some(nid)
            &&& t.with_details(t.items.last()) == (Item { id: Some(nid), details: Some(d), ..it })
        }),
{
    let nid = s.next_item_id() as u32;
    let t = s.after_insert_item(it);
    let d = match it.details {
        Some(d) => d,
        None => empty_details(),
    };
    let n = s.items.len();
    assert(t.items[n as int].id == Some(nid));
    assert forall|j: int| 0 <= j < t.items.len() - 1 implies (#[trigger] t.items[j]).id != Some(nid) by {
        assert(t.items[j] == s.items[j]);
        if j < n - 1 {
            assert(id_of(s.items[j].id) < id_of(s.items[n - 1].id));
        }
    }
    let e = new_entry(s.next_entry_id() as u32, nid, d);
    assert forall|j: int| 0 <= j < s.entries.len() implies #[trigger] s.entries[j].id < e.id by {
        if j < s.entries.len() - 1 {
            assert(s.entries[j].id < s.entries[s.entries.len() - 1].id);
        }
    }
    lemma_latest_push_newest(s.entries, e);
    assert(details_of(e) == d);
}

/// `t` is `s` after at most one write of the store: a new entry, a new or
/// updated item, a soft-deleted item or category, or nothing.
pub open spec fn one_write(s: StoreView, t: StoreView) -> bool {
    ||| t == s
    ||| exists|it: Item|
        t == #[trigger] s.after_insert_entry(it) || t == s.after_update_item(it) || t
            == s.after_insert_item(it)
    ||| exists|id: u32| t == #[trigger] s.after_delete_item(id) || t == s.after_delete_category(id)
}

proof fn lemma_prefix_transitive(a: Seq<Entry>, b: Seq<Entry>, c: Seq<Entry>)
    requires
        is_prefix(a, b),
        is_prefix(b, c),
    ensures
        is_prefix(a, c),
{
    assert(c.subrange(0, a.len() as int) =~= b.subrange(0, a.len() as int));
}

/// Over any sequence of writes, each item's history at the start is a
/// prefix of its history at the end: no entry is changed or dropped.
pub proof fn lemma_history_grows_over_writes(states: Seq<StoreView>, item_id: u32)
    requires
        states.len() >= 1,
        forall|k: int| 0 <= k < states.len() - 1 ==> one_write(#[trigger] states[k], states[k + 1]),
    ensures
        is_prefix(entries_for(states[0].entries, item_id), entries_for(states.last().entries, item_id)),
    decreases states.len(),
{
    let h = entries_for(states[0].entries, item_id);
    assert(h.subrange(0, h.len() as int) =~= h);
    if states.len() > 1 {
        let init = states.drop_last();
        assert forall|k: int| 0 <= k < init.len() - 1 implies one_write(#[trigger] init[k], init[k + 1]) by {
            assert(init[k] == states[k] && init[k + 1] == states[k + 1]);
        }
        lemma_history_grows_over_writes(init, item_id);
        let n = states.len() - 1;
        let s = states[n - 1];
        let t = states[n];
        assert(one_write(states[n - 1], states[n]));
        let hs = entries_for(s.entries, item_id);
        if t == s {
            assert(hs.subrange(0, hs.len() as int) =~= hs);
        } else if exists|it: Item|
            t == #[trigger] s.after_insert_entry(it) || t == s.after_update_item(it) || t
                == s.after_insert_item(it) {
            let it = choose|it: Item|
                t == #[trigger] s.after_insert_entry(it) || t == s.after_update_item(it) || t
                    == s.after_insert_item(it);
            lemma_history_only_grows(s, it, 0, item_id);
        } else {
            let id = choose|id: u32| t == #[trigger] s.after_delete_item(id) || t == s.after_delete_category(id);
            lemma_history_only_grows(s, arbitrary(), id, item_id);
            if t == s.after_delete_category(id) {
                assert(hs.subrange(0, hs.len() as int) =~= hs);
            }
        }
        lemma_prefix_transitive(h, hs, entries_for(t.entries, item_id));
    }
}

} // verus!
