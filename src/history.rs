//! Reconstruction of an item's current state from its entry log.
use vstd::prelude::*;

use crate::model::{details_of, empty_details, Entry, ItemDetails};

verus! {

/// The position in `s` of the entry of `item_id` with the largest sequence
/// id (the later position on a tie), or -1 when the item has no entry.
pub open spec fn latest_index(s: Seq<Entry>, item_id: u32) -> int
    decreases s.len(),
{
    if s.len() == 0 {
        -1
    } else {
        let prev = latest_index(s.drop_last(), item_id);
        if s.last().item_id == item_id && (prev < 0 || s[prev].id <= s.last().id) {
            s.len() - 1
        } else {
            prev
        }
    }
}

/// The current details of `item_id`: those of its latest entry, or the
/// empty snapshot when it has none.
pub open spec fn current_details_spec(s: Seq<Entry>, item_id: u32) -> ItemDetails {
    let k = latest_index(s, item_id);
    if k < 0 {
        empty_details()
    } else {
        details_of(s[k])
    }
}

/// The entries of `item_id`, in log order.
pub open spec fn entries_for(s: Seq<Entry>, item_id: u32) -> Seq<Entry>
    decreases s.len(),
{
    if s.len() == 0 {
        Seq::empty()
    } else {
        let prev = entries_for(s.drop_last(), item_id);
        if s.last().item_id == item_id {
            prev.push(s.last())
        } else {
            prev
        }
    }
}

/// The latest entry of an item is one of its entries, and no entry of the
/// item has a larger sequence id; the item has no latest entry exactly when
/// it has no entry at all.
pub proof fn lemma_latest_is_max(s: Seq<Entry>, item_id: u32)
    ensures
        -1 <= latest_index(s, item_id) < s.len(),
        latest_index(s, item_id) >= 0 ==> s[latest_index(s, item_id)].item_id == item_id,
        latest_index(s, item_id) >= 0 ==> forall|j: int|
            0 <= j < s.len() && #[trigger] s[j].item_id == item_id ==> s[j].id <= s[latest_index(
                s,
                item_id,
            )].id,
        latest_index(s, item_id) < 0 <==> forall|j: int|
            0 <= j < s.len() ==> #[trigger] s[j].item_id != item_id,
    decreases s.len(),
{
    if s.len() > 0 {
        let t = s.drop_last();
        lemma_latest_is_max(t, item_id);
        assert forall|j: int| 0 <= j < t.len() implies #[trigger] t[j] == s[j] by {}
        if latest_index(s, item_id) < 0 {
            assert forall|j: int| 0 <= j < s.len() implies #[trigger] s[j].item_id != item_id by {
                if j < t.len() {
                    assert(t[j] == s[j]);
                }
            }
        } else {
            let k = latest_index(s, item_id);
            let prev = latest_index(t, item_id);
            assert(s[k].item_id == item_id);
            assert forall|j: int| 0 <= j < s.len() && #[trigger] s[j].item_id == item_id implies s[j].id
                <= s[k].id by {
                if j < t.len() {
                    assert(t[j] == s[j]);
                    assert(t[j].item_id == item_id);
                    assert(prev >= 0);
                    assert(t[j].id <= t[prev].id);
                    assert(t[prev] == s[prev]);
                }
            }
        }
    }
}

/// Appending an entry whose sequence id is above all others makes it the
/// latest entry of its item.
pub proof fn lemma_latest_push_newest(s: Seq<Entry>, e: Entry)
    requires
        forall|j: int| 0 <= j < s.len() ==> #[trigger] s[j].id < e.id,
    ensures
        latest_index(s.push(e), e.item_id) == s.len(),
        current_details_spec(s.push(e), e.item_id) == details_of(e),
{
    assert(s.push(e).drop_last() =~= s);
    lemma_latest_is_max(s, e.item_id);
}

/// The position of the latest entry of `item_id`, if the item has one.
pub fn latest_entry(entries: &Vec<Entry>, item_id: u32) -> (r: Option<usize>)
    ensures
        match r {
            Some(k) => k < entries.len() && k as int == latest_index(entries@, item_id),
            None => latest_index(entries@, item_id) < 0,
        },
{
    let mut best: Option<usize> = None;
    let mut i: usize = 0;
    while i < entries.len()
        invariant
            i <= entries.len(),
            match best {
                Some(k) => k as int == latest_index(entries@.subrange(0, i as int), item_id),
                None => latest_index(entries@.subrange(0, i as int), item_id) < 0,
            },
        decreases entries.len() - i,
    {
        let ghost pre = entries@.subrange(0, i as int);
        let ghost cur = entries@.subrange(0, i + 1);
        assert(cur.drop_last() =~= pre);
        proof {
            lemma_latest_is_max(pre, item_id);
        }
        let e = &entries[i];
        if e.item_id == item_id {
            match best {
                Some(k) => {
                    if entries[k].id <= e.id {
                        best = Some(i);
                    }
                },
                None => {
                    best = Some(i);
                },
            }
        }
        i = i + 1;
    }
    assert(entries@.subrange(0, entries.len() as int) =~= entries@);
    proof {
        lemma_latest_is_max(entries@, item_id);
    }
    best
}

/// The current details of `item_id`: those of the entry with the largest
/// sequence id, or the empty snapshot when the item has no entry.
pub fn current_details(entries: &Vec<Entry>, item_id: u32) -> (r: ItemDetails)
    ensures
        r == current_details_spec(entries@, item_id),
{
    match latest_entry(entries, item_id) {
        Some(k) => ItemDetails::from_entry(&entries[k]),
        None => ItemDetails::new(),
    }
}

/// The entries of `item_id`, in log order.
pub fn entries_of(entries: &Vec<Entry>, item_id: u32) -> (r: Vec<Entry>)
    ensures
        r@ == entries_for(entries@, item_id),
{
    let mut out: Vec<Entry> = Vec::new();
    let mut i: usize = 0;
    while i < entries.len()
        invariant
            i <= entries.len(),
            out@ == entries_for(entries@.subrange(0, i as int), item_id),
        decreases entries.len() - i,
    {
        assert(entries@.subrange(0, i + 1).drop_last() =~= entries@.subrange(0, i as int));
        if entries[i].item_id == item_id {
            out.push(entries[i].duplicate());
        }
        i = i + 1;
    }
    assert(entries@.subrange(0, entries.len() as int) =~= entries@);
    out
}

/// Appending an entry keeps every earlier entry where it was, and adds it
/// to the end of its own item's history only.
pub proof fn lemma_append_keeps_history(s: Seq<Entry>, e: Entry, item_id: u32)
    ensures
        s.push(e).subrange(0, s.len() as int) == s,
        entries_for(s.push(e), item_id) == (if e.item_id == item_id {
            entries_for(s, item_id).push(e)
        } else {
            entries_for(s, item_id)
        }),
{
    assert(s.push(e).drop_last() =~= s);
    assert(s.push(e).subrange(0, s.len() as int) =~= s);
}

} // verus!
