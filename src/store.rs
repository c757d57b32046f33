//! The store: category, item and entry tables, and the operations that
//! create, update and soft-delete records while keeping the entry log
//! append-only.
use std::collections::BTreeMap;

use vstd::prelude::*;

use crate::history::{current_details, current_details_spec, entries_for, entries_of, latest_entry, latest_index};
use crate::model::{
    details_of, empty_details, lemma_title_le_antisymmetric, lemma_title_le_total,
    lemma_title_le_transitive, note_fits, title_le, title_le_exec, note_within, str_eq, title_fits, title_within, Category,
    Entry, Item, ItemDetails, StoreError, MAX_CATEGORY_TITLE_LEN, MAX_ITEM_TITLE_LEN,
    TABLE_NAME_CATEGORY, TABLE_NAME_ENTRY, TABLE_NAME_ITEM,
};

verus! {

/// The id of a row, with a missing id read as zero.
pub open spec fn id_of(o: Option<u32>) -> u32 {
    match o {
        Some(v) => v,
        None => 0,
    }
}

/// The entry that records `d` as version `id` of item `item_id`.
pub open spec fn new_entry(id: u32, item_id: u32, d: ItemDetails) -> Entry {
    Entry {
        id,
        item_id,
        cost: d.cost,
        note: d.note,
        status: d.status,
        visible: d.visible,
        removed: Some(d.removed),
        date: None,
    }
}

/// The entry that soft-deletes item `item_id`: removed, every other
/// attribute unset.
pub open spec fn removal_entry(id: u32, item_id: u32) -> Entry {
    Entry {
        id,
        item_id,
        cost: None,
        note: None,
        status: None,
        visible: None,
        removed: Some(true),
        date: None,
    }
}

/// `c`, marked removed when its id is `id`.
pub open spec fn mark_removed(c: Category, id: u32) -> Category {
    if c.id == Some(id) {
        Category { removed: true, ..c }
    } else {
        c
    }
}

/// `row`, with the title and category of `upd` when it has the id of `upd`.
pub open spec fn edit_row(row: Item, upd: Item) -> Item {
    if row.id == upd.id {
        Item { category_id: upd.category_id, title: upd.title, ..row }
    } else {
        row
    }
}

/// The three tables of the store, as sequences of rows.
pub struct StoreView {
    pub categories: Seq<Category>,
    pub items: Seq<Item>,
    pub entries: Seq<Entry>,
}

impl StoreView {
    /// Every category and item has an id; in each table ids strictly
    /// increase with the position of the row; no two active categories
    /// share a title.
    pub open spec fn wf(self) -> bool {
        &&& forall|i: int| 0 <= i < self.categories.len() ==> (#[trigger] self.categories[i]).id is Some
        &&& forall|i: int| 0 <= i < self.items.len() ==> (#[trigger] self.items[i]).id is Some
        &&& forall|i: int, j: int|
            0 <= i < j < self.categories.len() ==> id_of(#[trigger] self.categories[i].id) < id_of(
                #[trigger] self.categories[j].id,
            )
        &&& forall|i: int, j: int|
            0 <= i < j < self.items.len() ==> id_of(#[trigger] self.items[i].id) < id_of(
                #[trigger] self.items[j].id,
            )
        &&& forall|i: int, j: int|
            0 <= i < j < self.entries.len() ==> (#[trigger] self.entries[i]).id < (
            #[trigger] self.entries[j]).id
        &&& forall|i: int, j: int|
            0 <= i < self.categories.len() && 0 <= j < self.categories.len() && i != j
                && !(#[trigger] self.categories[i]).removed && !(#[trigger] self.categories[j]).removed
                ==> self.categories[i].title@ != self.categories[j].title@
    }

    /// The id that the next category gets.
    pub open spec fn next_category_id(self) -> int {
        if self.categories.len() == 0 {
            1
        } else {
            id_of(self.categories.last().id) + 1
        }
    }

    /// The id that the next item gets.
    pub open spec fn next_item_id(self) -> int {
        if self.items.len() == 0 {
            1
        } else {
            id_of(self.items.last().id) + 1
        }
    }

    /// The sequence id that the next entry gets.
    pub open spec fn next_entry_id(self) -> int {
        if self.entries.len() == 0 {
            1
        } else {
            self.entries.last().id + 1
        }
    }

    /// Some category has the id `id`.
    pub open spec fn category_exists(self, id: u32) -> bool {
        exists|i: int| 0 <= i < self.categories.len() && (#[trigger] self.categories[i]).id == Some(id)
    }

    /// Some item has the id `id`.
    pub open spec fn item_exists(self, id: u32) -> bool {
        exists|i: int| 0 <= i < self.items.len() && (#[trigger] self.items[i]).id == Some(id)
    }

    /// An item is active when its current details are not removed.
    pub open spec fn item_active(self, it: Item) -> bool {
        !current_details_spec(self.entries, id_of(it.id)).removed
    }

    /// Some active category has exactly the title `t`.
    pub open spec fn category_title_taken(self, t: Seq<char>) -> bool {
        exists|i: int|
            0 <= i < self.categories.len() && (#[trigger] self.categories[i]).title@ == t
                && !self.categories[i].removed
    }

    /// Some active item has exactly the title `t`.
    pub open spec fn item_title_taken(self, t: Seq<char>) -> bool {
        self.item_title_taken_except(t, None)
    }

    /// Some active item other than the one with id `except` has exactly the
    /// title `t`.
    pub open spec fn item_title_taken_except(self, t: Seq<char>, except: Option<u32>) -> bool {
        exists|i: int|
            0 <= i < self.items.len() && (#[trigger] self.items[i]).title@ == t && self.item_active(
                self.items[i],
            ) && (except is None || self.items[i].id != except)
    }

    /// The item row `it` with its current details attached.
    pub open spec fn with_details(self, it: Item) -> Item {
        Item { details: Some(current_details_spec(self.entries, id_of(it.id))), ..it }
    }

    /// The store after soft-deleting category `id`.
    pub open spec fn after_delete_category(self, id: u32) -> StoreView {
        StoreView {
            categories: self.categories.map_values(|c: Category| mark_removed(c, id)),
            ..self
        }
    }

    /// The store after creating `it` under the next item id, with an
    /// initial entry holding its details (the empty snapshot if it has none).
    pub open spec fn after_insert_item(self, it: Item) -> StoreView {
        let nid = self.next_item_id() as u32;
        let d = match it.details {
            Some(d) => d,
            None => empty_details(),
        };
        StoreView {
            items: self.items.push(Item { id: Some(nid), details: None, ..it }),
            entries: self.entries.push(new_entry(self.next_entry_id() as u32, nid, d)),
            ..self
        }
    }

    /// What creating a category titled `t` returns.
    pub open spec fn insert_category_outcome(self, t: Seq<char>) -> Result<u32, StoreError> {
        if !title_fits(t, MAX_CATEGORY_TITLE_LEN) {
            Err(StoreError::Validation)
        } else if self.category_title_taken(t) {
            Err(StoreError::Conflict)
        } else if self.next_category_id() > u32::MAX {
            Err(StoreError::Backend)
        } else {
            Ok(self.next_category_id() as u32)
        }
    }

    /// What appending an entry for `it` returns.
    pub open spec fn insert_entry_outcome(self, it: Item) -> Result<(), StoreError> {
        if it.id is None || it.details is None || !note_fits(it.details->Some_0.note) {
            Err(StoreError::Validation)
        } else if !self.item_exists(it.id->Some_0) {
            Err(StoreError::NotFound)
        } else if self.next_entry_id() > u32::MAX {
            Err(StoreError::Backend)
        } else {
            Ok(())
        }
    }

    /// The store after appending an entry for `it` that records its details.
    pub open spec fn after_insert_entry(self, it: Item) -> StoreView {
        StoreView {
            entries: self.entries.push(
                new_entry(self.next_entry_id() as u32, it.id->Some_0, it.details->Some_0),
            ),
            ..self
        }
    }

    /// What soft-deleting item `id` returns.
    pub open spec fn delete_item_outcome(self, id: u32) -> Result<(), StoreError> {
        if !self.item_exists(id) {
            Err(StoreError::NotFound)
        } else if self.next_entry_id() > u32::MAX {
            Err(StoreError::Backend)
        } else {
            Ok(())
        }
    }

    /// The store after soft-deleting item `id`.
    pub open spec fn after_delete_item(self, id: u32) -> StoreView {
        StoreView {
            entries: self.entries.push(removal_entry(self.next_entry_id() as u32, id)),
            ..self
        }
    }

    /// What creating the item `it` returns.
    pub open spec fn insert_item_outcome(self, it: Item) -> Result<(), StoreError> {
        if !title_fits(it.title@, MAX_ITEM_TITLE_LEN) || (it.details is Some && !note_fits(
            it.details->Some_0.note,
        )) {
            Err(StoreError::Validation)
        } else if !self.category_exists(it.category_id) {
            Err(StoreError::NotFound)
        } else if self.item_title_taken(it.title@) {
            Err(StoreError::Conflict)
        } else if self.next_item_id() > u32::MAX || self.next_entry_id() > u32::MAX {
            Err(StoreError::Backend)
        } else {
            Ok(())
        }
    }

    /// What updating an item to `it` returns.
    pub open spec fn update_item_outcome(self, it: Item) -> Result<(), StoreError> {
        if !title_fits(it.title@, MAX_ITEM_TITLE_LEN) || it.id is None || it.details is None
            || !note_fits(it.details->Some_0.note) {
            Err(StoreError::Validation)
        } else if !self.item_exists(it.id->Some_0) || !self.category_exists(it.category_id) {
            Err(StoreError::NotFound)
        } else if !it.details->Some_0.removed && self.item_title_taken_except(it.title@, it.id) {
            Err(StoreError::Conflict)
        } else if self.next_entry_id() > u32::MAX {
            Err(StoreError::Backend)
        } else {
            Ok(())
        }
    }

    /// The store after updating an item to `it`: its row takes the new title
    /// and category, and a new entry records its details.
    pub open spec fn after_update_item(self, it: Item) -> StoreView {
        StoreView {
            items: self.items.map_values(|row: Item| edit_row(row, it)),
            entries: self.entries.push(
                new_entry(self.next_entry_id() as u32, it.id->Some_0, it.details->Some_0),
            ),
            ..self
        }
    }

    /// The ids of a table, in row order, for the table names the store knows.
    pub open spec fn table_ids(self, name: Seq<char>) -> Option<Seq<u32>> {
        if name == TABLE_NAME_CATEGORY@ {
            Some(self.categories.map_values(|c: Category| id_of(c.id)))
        } else if name == TABLE_NAME_ITEM@ {
            Some(self.items.map_values(|it: Item| id_of(it.id)))
        } else if name == TABLE_NAME_ENTRY@ {
            Some(self.entries.map_values(|e: Entry| e.id))
        } else {
            None
        }
    }
}

/// An in-memory store of categories, items and their entry log.
pub struct Database {
    categories: Vec<Category>,
    items: Vec<Item>,
    entries: Vec<Entry>,
}

impl View for Database {
    type V = StoreView;

    closed spec fn view(&self) -> StoreView {
        StoreView {
            categories: self.categories@,
            items: self.items@,
            entries: self.entries@,
        }
    }
}

impl Database {
    /// An empty store.
    pub fn new() -> (r: Database)
        ensures
            r@.wf(),
            r@.categories.len() == 0,
            r@.items.len() == 0,
            r@.entries.len() == 0,
    {
        Database { categories: Vec::new(), items: Vec::new(), entries: Vec::new() }
    }

    /// The position of category `id`, if there is one.
    fn find_category(&self, id: u32) -> (r: Option<usize>)
        ensures
            match r {
                Some(k) => k < self@.categories.len() && self@.categories[k as int].id == Some(id),
                None => !self@.category_exists(id),
            },
    {
        let mut i: usize = 0;
        while i < self.categories.len()
            invariant
                i <= self.categories.len(),
                forall|j: int| 0 <= j < i ==> (#[trigger] self.categories@[j]).id != Some(id),
            decreases self.categories.len() - i,
        {
            if self.categories[i].id == Some(id) {
                return Some(i);
            }
            i = i + 1;
        }
        None
    }

    /// The position of item `id`, if there is one.
    fn find_item(&self, id: u32) -> (r: Option<usize>)
        ensures
            match r {
                Some(k) => k < self@.items.len() && self@.items[k as int].id == Some(id),
                None => !self@.item_exists(id),
            },
    {
        let mut i: usize = 0;
        while i < self.items.len()
            invariant
                i <= self.items.len(),
                forall|j: int| 0 <= j < i ==> (#[trigger] self.items@[j]).id != Some(id),
            decreases self.items.len() - i,
        {
            if self.items[i].id == Some(id) {
                return Some(i);
            }
            i = i + 1;
        }
        None
    }

    /// The id for a new category, unless the id space is used up.
    fn next_category_id(&self) -> (r: Option<u32>)
        ensures
            match r {
                Some(n) => n == self@.next_category_id(),
                None => self@.next_category_id() > u32::MAX,
            },
    {
        let n = self.categories.len();
        if n == 0 {
            Some(1)
        } else {
            let last = match self.categories[n - 1].id {
                Some(v) => v,
                None => 0,
            };
            if last == u32::MAX {
                None
            } else {
                Some(last + 1)
            }
        }
    }

    /// The id for a new item, unless the id space is used up.
    fn next_item_id(&self) -> (r: Option<u32>)
        ensures
            match r {
                Some(n) => n == self@.next_item_id(),
                None => self@.next_item_id() > u32::MAX,
            },
    {
        let n = self.items.len();
        if n == 0 {
            Some(1)
        } else {
            let last = match self.items[n - 1].id {
                Some(v) => v,
                None => 0,
            };
            if last == u32::MAX {
                None
            } else {
                Some(last + 1)
            }
        }
    }

    /// The sequence id for a new entry, unless the id space is used up.
    fn next_entry_id(&self) -> (r: Option<u32>)
        ensures
            match r {
                Some(n) => n == self@.next_entry_id(),
                None => self@.next_entry_id() > u32::MAX,
            },
    {
        let n = self.entries.len();
        if n == 0 {
            Some(1)
        } else if self.entries[n - 1].id == u32::MAX {
            None
        } else {
            Some(self.entries[n - 1].id + 1)
        }
    }
    /// Appends the entry that records `d` as version `eid` of item `item_id`.
    fn append_entry(&mut self, eid: u32, item_id: u32, d: &ItemDetails)
        requires
            old(self)@.wf(),
            eid == old(self)@.next_entry_id(),
        ensures
            final(self)@ == (StoreView {
                entries: old(self)@.entries.push(new_entry(eid, item_id, *d)),
                ..old(self)@
            }),
            final(self)@.wf(),
    {
        let ghost before = self@;
        let e = Entry {
            id: eid,
            item_id,
            cost: d.cost,
            note: match &d.note {
                Some(n) => Some(n.clone()),
                None => None,
            },
            status: d.status,
            visible: d.visible,
            removed: Some(d.removed),
            date: None,
        };
        self.entries.push(e);
        proof {
            let n = before.entries.len();
            assert forall|j: int| 0 <= j < n implies (#[trigger] self@.entries[j]).id < eid by {
                assert(self@.entries[j] == before.entries[j]);
                if j < n - 1 {
                    assert(before.entries[j].id < before.entries[n - 1].id);
                }
            }
        }
    }

    /// Whether an active category has exactly the title `title`.
    fn category_title_in_use(&self, title: &str) -> (r: bool)
        ensures
            r == self@.category_title_taken(title@),
    {
        let mut i: usize = 0;
        while i < self.categories.len()
            invariant
                i <= self.categories.len(),
                forall|j: int|
                    0 <= j < i ==> !((#[trigger] self.categories@[j]).title@ == title@
                        && !self.categories@[j].removed),
            decreases self.categories.len() - i,
        {
            let c = &self.categories[i];
            if !c.removed && str_eq(c.title.as_str(), title) {
                return true;
            }
            i = i + 1;
        }
        false
    }

    /// Whether an active item other than the one with id `except` has
    /// exactly the title `title`.
    fn item_title_in_use(&self, title: &str, except: Option<u32>) -> (r: bool)
        ensures
            r == self@.item_title_taken_except(title@, except),
    {
        let mut i: usize = 0;
        while i < self.items.len()
            invariant
                i <= self.items.len(),
                forall|j: int|
                    0 <= j < i ==> !((#[trigger] self.items@[j]).title@ == title@
                        && self@.item_active(self.items@[j]) && (except is None
                        || self.items@[j].id != except)),
            decreases self.items.len() - i,
        {
            let it = &self.items[i];
            let other = match except {
                Some(x) => it.id != Some(x),
                None => true,
            };
            if other && str_eq(it.title.as_str(), title) {
                let id = match it.id {
                    Some(v) => v,
                    None => 0,
                };
                let d = current_details(&self.entries, id);
                if !d.removed {
                    return true;
                }
            }
            i = i + 1;
        }
        false
    }

    /// The item row `it` with its current details attached.
    fn attach_details(&self, it: &Item) -> (r: Item)
        ensures
            r == self@.with_details(*it),
    {
        let id = match it.id {
            Some(v) => v,
            None => 0,
        };
        Item {
            id: it.id,
            category_id: it.category_id,
            title: it.title.clone(),
            details: Some(current_details(&self.entries, id)),
        }
    }
}

/// Every item keyed by its id, each with its current details attached.
/// Each item's details come from one pass over the entry log, a cost that
/// suits the small tables this store is meant for.
pub fn collect_items(db: &Database) -> (r: BTreeMap<u32, Item>)
    requires
        db@.wf(),
    ensures
        forall|k: u32| r@.contains_key(k) <==> db@.item_exists(k),
        forall|i: int|
            0 <= i < db@.items.len() ==> r@[id_of((#[trigger] db@.items[i]).id)] == db@.with_details(
                db@.items[i],
            ),
{
    broadcast use vstd::std_specs::btree::group_btree_axioms;
    let mut result: BTreeMap<u32, Item> = BTreeMap::new();
    let mut i: usize = 0;
    while i < db.items.len()
        invariant
            db@.wf(),
            i <= db.items.len(),
            forall|k: u32|
                result@.contains_key(k) <==> exists|j: int|
                    0 <= j < i && (#[trigger] db@.items[j]).id == Some(k),
            forall|j: int|
                0 <= j < i ==> result@[id_of((#[trigger] db@.items[j]).id)] == db@.with_details(
                    db@.items[j],
                ),
        decreases db.items.len() - i,
    {
        let it = db.attach_details(&db.items[i]);
        let id = match db.items[i].id {
            Some(v) => v,
            None => 0,
        };
        proof {
            assert(db@.items[i as int].id == Some(id));
            assert forall|j: int| 0 <= j < i implies (#[trigger] db@.items[j]).id != Some(id) by {
                assert(id_of(db@.items[j].id) < id_of(db@.items[i as int].id));
            }
        }
        result.insert(id, it);
        i = i + 1;
    }
    result
}

/// Whether an active record of the named table has exactly the title
/// `title`; only the category and item tables have titles.
pub fn title_taken(db: &Database, title: &str, table_name: &str) -> (r: Result<bool, StoreError>)
    ensures
        table_name@ == TABLE_NAME_CATEGORY@ ==> r == Ok::<bool, StoreError>(
            db@.category_title_taken(title@),
        ),
        table_name@ != TABLE_NAME_CATEGORY@ && table_name@ == TABLE_NAME_ITEM@ ==> r == Ok::<
            bool,
            StoreError,
        >(db@.item_title_taken(title@)),
        table_name@ != TABLE_NAME_CATEGORY@ && table_name@ != TABLE_NAME_ITEM@ ==> r == Err::<
            bool,
            StoreError,
        >(StoreError::Validation),
{
    if str_eq(table_name, TABLE_NAME_CATEGORY) {
        Ok(db.category_title_in_use(title))
    } else if str_eq(table_name, TABLE_NAME_ITEM) {
        Ok(db.item_title_in_use(title, None))
    } else {
        Err(StoreError::Validation)
    }
}

/// A table row that carries an optional id.
pub trait Row {
    spec fn row_id(&self) -> Option<u32>;

    fn get_row_id(&self) -> (r: Option<u32>)
        ensures
            r == self.row_id(),
    ;
}

impl Row for Category {
    open spec fn row_id(&self) -> Option<u32> {
        self.id
    }

    fn get_row_id(&self) -> (r: Option<u32>) {
        self.id
    }
}

impl Row for Item {
    open spec fn row_id(&self) -> Option<u32> {
        self.id
    }

    fn get_row_id(&self) -> (r: Option<u32>) {
        self.id
    }
}

/// Whether every row has an id and ids strictly increase.
fn row_ids_increase<T: Row>(rows: &Vec<T>) -> (r: bool)
    ensures
        r == ((forall|i: int| 0 <= i < rows@.len() ==> (#[trigger] rows@[i]).row_id() is Some) && (
        forall|i: int, j: int|
            0 <= i < j < rows@.len() ==> id_of(#[trigger] rows@[i].row_id()) < id_of(
                #[trigger] rows@[j].row_id(),
            ))),
{
    let mut i: usize = 0;
    while i < rows.len()
        invariant
            i <= rows.len(),
            forall|a: int| 0 <= a < i ==> (#[trigger] rows@[a]).row_id() is Some,
            forall|a: int, b: int|
                0 <= a < b < i ==> id_of(#[trigger] rows@[a].row_id()) < id_of(
                    #[trigger] rows@[b].row_id(),
                ),
        decreases rows.len() - i,
    {
        let cur = match rows[i].get_row_id() {
            Some(v) => v,
            None => {
                return false;
            },
        };
        if i > 0 {
            let prev = match rows[i - 1].get_row_id() {
                Some(v) => v,
                None => 0,
            };
            if prev >= cur {
                assert(!(id_of(rows@[i - 1].row_id()) < id_of(rows@[i as int].row_id())));
                return false;
            }
        }
        i = i + 1;
    }
    true
}

/// Whether entry sequence ids strictly increase.
fn entry_ids_increase(rows: &Vec<Entry>) -> (r: bool)
    ensures
        r == (forall|i: int, j: int| 0 <= i < j < rows@.len() ==> (#[trigger] rows@[i]).id < (#[trigger] rows@[j]).id),
{
    let mut i: usize = 1;
    if rows.len() == 0 {
        return true;
    }
    while i < rows.len()
        invariant
            1 <= i <= rows.len(),
            forall|a: int, b: int| 0 <= a < b < i ==> (#[trigger] rows@[a]).id < (#[trigger] rows@[b]).id,
        decreases rows.len() - i,
    {
        if rows[i - 1].id >= rows[i].id {
            assert(!(rows@[i - 1].id < rows@[i as int].id));
            return false;
        }
        i = i + 1;
    }
    true
}

/// Whether no two active categories share a title.
fn active_titles_distinct(rows: &Vec<Category>) -> (r: bool)
    ensures
        r == (forall|i: int, j: int|
            0 <= i < rows@.len() && 0 <= j < rows@.len() && i != j && !(#[trigger] rows@[i]).removed
                && !(#[trigger] rows@[j]).removed ==> rows@[i].title@ != rows@[j].title@),
{
    let mut i: usize = 0;
    while i < rows.len()
        invariant
            i <= rows.len(),
            forall|a: int, b: int|
                0 <= a < rows@.len() && 0 <= b < rows@.len() && a != b && (a < i || b < i)
                    && !(#[trigger] rows@[a]).removed && !(#[trigger] rows@[b]).removed
                    ==> rows@[a].title@ != rows@[b].title@,
        decreases rows.len() - i,
    {
        if !rows[i].removed {
            let mut j: usize = 0;
            while j < rows.len()
                invariant
                    i < rows.len(),
                    j <= rows.len(),
                    !rows@[i as int].removed,
                    forall|a: int, b: int|
                        0 <= a < rows@.len() && 0 <= b < rows@.len() && a != b && (a < i || b < i)
                            && !(#[trigger] rows@[a]).removed && !(#[trigger] rows@[b]).removed
                            ==> rows@[a].title@ != rows@[b].title@,
                    forall|b: int|
                        0 <= b < j && b != i && !(#[trigger] rows@[b]).removed ==> rows@[i as int].title@
                            != rows@[b].title@,
                decreases rows.len() - j,
            {
                if j != i && !rows[j].removed && str_eq(rows[i].title.as_str(), rows[j].title.as_str()) {
                    return false;
                }
                j = j + 1;
            }
        }
        i = i + 1;
    }
    true
}

impl Database {
    /// A store over the given tables, if they are consistent: every category
    /// and item has an id, ids strictly increase within each table, and no
    /// two active categories share a title.
    pub fn from_rows(categories: Vec<Category>, items: Vec<Item>, entries: Vec<Entry>) -> (r: Result<
        Database,
        StoreError,
    >)
        ensures
            (StoreView { categories: categories@, items: items@, entries: entries@ }).wf() ==> r
                is Ok && r->Ok_0@ == (StoreView {
                categories: categories@,
                items: items@,
                entries: entries@,
            }),
            !(StoreView { categories: categories@, items: items@, entries: entries@ }).wf() ==> r
                == Err::<Database, StoreError>(StoreError::Validation),
    {
        if row_ids_increase(&categories) && row_ids_increase(&items) && entry_ids_increase(
            &entries,
        ) && active_titles_distinct(&categories) {
            Ok(Database { categories, items, entries })
        } else {
            Err(StoreError::Validation)
        }
    }
}

/// Category order: by title, and by id between equal titles.
pub open spec fn category_le(c: Category, d: Category) -> bool {
    title_le(c.title@, d.title@) && (c.title@ == d.title@ ==> id_of(c.id) <= id_of(d.id))
}

/// Whether `s` is ordered by `category_le`.
pub open spec fn categories_sorted(s: Seq<Category>) -> bool {
    forall|i: int, j: int| 0 <= i < j < s.len() ==> category_le(#[trigger] s[i], #[trigger] s[j])
}

proof fn lemma_category_le_total(c: Category, d: Category)
    ensures
        category_le(c, d) || category_le(d, c),
{
    lemma_title_le_total(c.title@, d.title@);
    if title_le(c.title@, d.title@) && title_le(d.title@, c.title@) {
        lemma_title_le_antisymmetric(c.title@, d.title@);
    }
}

proof fn lemma_category_le_transitive(c: Category, d: Category, e: Category)
    requires
        category_le(c, d),
        category_le(d, e),
    ensures
        category_le(c, e),
{
    lemma_title_le_transitive(c.title@, d.title@, e.title@);
    if c.title@ == e.title@ {
        lemma_title_le_antisymmetric(c.title@, d.title@);
    }
}

fn category_le_exec(c: &Category, d: &Category) -> (r: bool)
    ensures
        r == category_le(*c, *d),
{
    let ct = c.title.as_str();
    let dt = d.title.as_str();
    if !title_le_exec(ct, dt) {
        return false;
    }
    if str_eq(ct, dt) {
        let ci = match c.id {
            Some(v) => v,
            None => 0,
        };
        let di = match d.id {
            Some(v) => v,
            None => 0,
        };
        ci <= di
    } else {
        true
    }
}

/// Every category, removed ones included, ordered by title (character by
/// character) and by id between equal titles.
pub fn collect_categories(db: &Database) -> (r: Vec<Category>)
    ensures
        r@.to_multiset() == db@.categories.to_multiset(),
        categories_sorted(r@),
{
    broadcast use vstd::seq_lib::group_to_multiset_ensures;
    let mut out: Vec<Category> = Vec::new();
    assert(db@.categories.subrange(0, 0) =~= Seq::<Category>::empty());
    assert(out@ =~= Seq::<Category>::empty());
    let mut i: usize = 0;
    while i < db.categories.len()
        invariant
            i <= db.categories.len(),
            out@.to_multiset() == db@.categories.subrange(0, i as int).to_multiset(),
            categories_sorted(out@),
        decreases db.categories.len() - i,
    {
        let x = db.categories[i].duplicate();
        let mut p: usize = 0;
        while p < out.len() && category_le_exec(&out[p], &x)
            invariant
                p <= out.len(),
                forall|k: int| 0 <= k < p ==> category_le(#[trigger] out@[k], x),
            decreases out.len() - p,
        {
            p = p + 1;
        }
        let ghost before = out@;
        proof {
            if p < before.len() {
                lemma_category_le_total(before[p as int], x);
                assert forall|k: int| p <= k < before.len() implies category_le(
                    x,
                    #[trigger] before[k],
                ) by {
                    if k > p {
                        lemma_category_le_transitive(x, before[p as int], before[k]);
                    }
                }
            }
        }
        out.insert(p, x);
        proof {
            assert(db@.categories.subrange(0, i + 1) =~= db@.categories.subrange(0, i as int).push(
                x,
            ));
            vstd::seq_lib::to_multiset_build(db@.categories.subrange(0, i as int), x);
            assert(out@ == before.insert(p as int, x));
            vstd::seq_lib::to_multiset_insert(before, p as int, x);
            assert forall|a: int, b: int| 0 <= a < b < out@.len() implies category_le(
                #[trigger] out@[a],
                #[trigger] out@[b],
            ) by {
                if b < p {
                    assert(out@[a] == before[a] && out@[b] == before[b]);
                } else if b == p {
                    assert(out@[a] == before[a]);
                } else if a < p {
                    assert(out@[a] == before[a] && out@[b] == before[b - 1]);
                    if p < before.len() {
                        lemma_category_le_transitive(before[a], x, before[b - 1]);
                    }
                } else if a == p {
                    assert(out@[b] == before[b - 1]);
                } else {
                    assert(out@[a] == before[a - 1] && out@[b] == before[b - 1]);
                }
            }
        }
        i = i + 1;
    }
    assert(db@.categories.subrange(0, i as int) =~= db@.categories);
    out
}

/// The history of item `item_id`: its entries, oldest first.
pub fn collect_item_entries(db: &Database, item_id: u32) -> (r: Vec<Entry>)
    ensures
        r@ == entries_for(db@.entries, item_id),
{
    entries_of(&db.entries, item_id)
}

/// Category `id`, removed or not.
pub fn get_category(db: &Database, id: u32) -> (r: Result<Category, StoreError>)
    ensures
        match r {
            Ok(c) => c.id == Some(id) && exists|i: int|
                0 <= i < db@.categories.len() && #[trigger] db@.categories[i] == c,
            Err(e) => e == StoreError::NotFound && !db@.category_exists(id),
        },
{
    match db.find_category(id) {
        Some(k) => Ok(db.categories[k].duplicate()),
        None => Err(StoreError::NotFound),
    }
}

/// The entry that stands for an item with no recorded version: every
/// attribute unset, not removed.
pub open spec fn empty_entry(item_id: u32) -> Entry {
    Entry {
        id: 0,
        item_id,
        cost: None,
        note: None,
        status: None,
        visible: None,
        removed: None,
        date: None,
    }
}

/// The latest entry of item `item_id`: the one with the largest sequence id,
/// or the empty entry (sequence id 0) when the item has none yet.
pub fn get_entry(db: &Database, item_id: u32) -> (r: Result<Entry, StoreError>)
    ensures
        !db@.item_exists(item_id) ==> r == Err::<Entry, StoreError>(StoreError::NotFound),
        db@.item_exists(item_id) && latest_index(db@.entries, item_id) >= 0 ==> r == Ok::<
            Entry,
            StoreError,
        >(db@.entries[latest_index(db@.entries, item_id)]),
        db@.item_exists(item_id) && latest_index(db@.entries, item_id) < 0 ==> r == Ok::<
            Entry,
            StoreError,
        >(empty_entry(item_id)),
        r is Ok ==> details_of(r->Ok_0) == current_details_spec(db@.entries, item_id),
{
    if db.find_item(item_id).is_none() {
        return Err(StoreError::NotFound);
    }
    match latest_entry(&db.entries, item_id) {
        Some(k) => Ok(db.entries[k].duplicate()),
        None => Ok(
            Entry {
                id: 0,
                item_id,
                cost: None,
                note: None,
                status: None,
                visible: None,
                removed: None,
                date: None,
            },
        ),
    }
}

/// Item `id` with its current details attached.
pub fn get_item(db: &Database, id: u32) -> (r: Result<Item, StoreError>)
    ensures
        match r {
            Ok(it) => it.id == Some(id) && exists|i: int|
                0 <= i < db@.items.len() && it == db@.with_details(#[trigger] db@.items[i]),
            Err(e) => e == StoreError::NotFound && !db@.item_exists(id),
        },
{
    match db.find_item(id) {
        Some(k) => Ok(db.attach_details(&db.items[k])),
        None => Err(StoreError::NotFound),
    }
}

/// The largest id in the named table: the id that the table's latest
/// insertion was given.
pub fn get_autoincremented_id(db: &Database, table_name: &str) -> (r: Result<u32, StoreError>)
    requires
        db@.wf(),
    ensures
        match db@.table_ids(table_name@) {
            None => r == Err::<u32, StoreError>(StoreError::Validation),
            Some(ids) => if ids.len() == 0 {
                r == Err::<u32, StoreError>(StoreError::NotFound)
            } else {
                &&& r == Ok::<u32, StoreError>(ids.last())
                &&& forall|j: int| 0 <= j < ids.len() ==> #[trigger] ids[j] <= ids.last()
            },
        },
{
    if str_eq(table_name, TABLE_NAME_CATEGORY) {
        let n = db.categories.len();
        if n == 0 {
            return Err(StoreError::NotFound);
        }
        let ghost ids = db@.categories.map_values(|c: Category| id_of(c.id));
        assert forall|j: int| 0 <= j < ids.len() implies #[trigger] ids[j] <= ids.last() by {
            if j < n - 1 {
                assert(id_of(db@.categories[j].id) < id_of(db@.categories[n - 1].id));
            }
        }
        match db.categories[n - 1].id {
            Some(v) => Ok(v),
            None => Ok(0),
        }
    } else if str_eq(table_name, TABLE_NAME_ITEM) {
        let n = db.items.len();
        if n == 0 {
            return Err(StoreError::NotFound);
        }
        let ghost ids = db@.items.map_values(|it: Item| id_of(it.id));
        assert forall|j: int| 0 <= j < ids.len() implies #[trigger] ids[j] <= ids.last() by {
            if j < n - 1 {
                assert(id_of(db@.items[j].id) < id_of(db@.items[n - 1].id));
            }
        }
        match db.items[n - 1].id {
            Some(v) => Ok(v),
            None => Ok(0),
        }
    } else if str_eq(table_name, TABLE_NAME_ENTRY) {
        let n = db.entries.len();
        if n == 0 {
            return Err(StoreError::NotFound);
        }
        let ghost ids = db@.entries.map_values(|e: Entry| e.id);
        assert forall|j: int| 0 <= j < ids.len() implies #[trigger] ids[j] <= ids.last() by {
            if j < n - 1 {
                assert(db@.entries[j].id < db@.entries[n - 1].id);
            }
        }
        Ok(db.entries[n - 1].id)
    } else {
        Err(StoreError::Validation)
    }
}

/// Soft-deletes category `id`: marks it removed and keeps its row. Deleting
/// a removed or missing category changes nothing.
pub fn delete_category(db: &mut Database, id: u32)
    requires
        old(db)@.wf(),
    ensures
        final(db)@ == old(db)@.after_delete_category(id),
        final(db)@.wf(),
{
    match db.find_category(id) {
        Some(k) => {
            let ghost before = db@;
            let mut c = db.categories[k].duplicate();
            c.removed = true;
            db.categories.set(k, c);
            proof {
                assert forall|j: int| 0 <= j < before.categories.len() && j != k implies (
                #[trigger] before.categories[j]).id != Some(id) by {
                    if j < k {
                        assert(id_of(before.categories[j].id) < id_of(
                            before.categories[k as int].id,
                        ));
                    } else {
                        assert(id_of(before.categories[k as int].id) < id_of(
                            before.categories[j].id,
                        ));
                    }
                }
                assert(db@.categories =~= before.categories.map_values(
                    |c: Category| mark_removed(c, id),
                ));
            }
        },
        None => {
            assert(db@.categories =~= db@.categories.map_values(
                |c: Category| mark_removed(c, id),
            ));
        },
    }
}

/// Creates an active category titled `title` and returns its id.
pub fn insert_category(db: &mut Database, title: &str) -> (r: Result<u32, StoreError>)
    requires
        old(db)@.wf(),
    ensures
        r == old(db)@.insert_category_outcome(title@),
        final(db)@.wf(),
        r is Err ==> final(db)@ == old(db)@,
        r is Ok ==> {
            &&& final(db)@.items == old(db)@.items
            &&& final(db)@.entries == old(db)@.entries
            &&& final(db)@.categories.len() == old(db)@.categories.len() + 1
            &&& final(db)@.categories.drop_last() == old(db)@.categories
            &&& final(db)@.categories.last().id == Some(r->Ok_0)
            &&& final(db)@.categories.last().title@ == title@
            &&& !final(db)@.categories.last().removed
        },
{
    if !title_within(title, MAX_CATEGORY_TITLE_LEN) {
        return Err(StoreError::Validation);
    }
    if db.category_title_in_use(title) {
        return Err(StoreError::Conflict);
    }
    let nid = match db.next_category_id() {
        Some(n) => n,
        None => {
            return Err(StoreError::Backend);
        },
    };
    let ghost before = db@;
    db.categories.push(Category { id: Some(nid), title: title.to_owned(), removed: false });
    proof {
        let n = before.categories.len();
        assert(db@.categories.drop_last() =~= before.categories);
        assert forall|j: int| 0 <= j < n implies id_of(
            (#[trigger] db@.categories[j]).id,
        ) < nid by {
            assert(db@.categories[j] == before.categories[j]);
            if j < n - 1 {
                assert(id_of(before.categories[j].id) < id_of(before.categories[n - 1].id));
            }
        }
        assert forall|j: int| 0 <= j < n && !(#[trigger] db@.categories[j]).removed implies db@.categories[j].title@
            != title@ by {
            assert(db@.categories[j] == before.categories[j]);
        }
    }
    Ok(nid)
}

/// Appends an entry for item `item` that records its details; earlier
/// entries stay as they are.
pub fn insert_entry(db: &mut Database, item: &Item) -> (r: Result<(), StoreError>)
    requires
        old(db)@.wf(),
    ensures
        r == old(db)@.insert_entry_outcome(*item),
        final(db)@.wf(),
        r is Err ==> final(db)@ == old(db)@,
        r is Ok ==> final(db)@ == old(db)@.after_insert_entry(*item),
{
    let id = match item.id {
        Some(v) => v,
        None => {
            return Err(StoreError::Validation);
        },
    };
    let d = match &item.details {
        Some(d) => d,
        None => {
            return Err(StoreError::Validation);
        },
    };
    if !note_within(&d.note) {
        return Err(StoreError::Validation);
    }
    if db.find_item(id).is_none() {
        return Err(StoreError::NotFound);
    }
    let eid = match db.next_entry_id() {
        Some(n) => n,
        None => {
            return Err(StoreError::Backend);
        },
    };
    db.append_entry(eid, id, d);
    Ok(())
}

/// Soft-deletes item `item_id` by appending an entry that marks it removed
/// and leaves every other attribute unset; earlier entries stay as they are.
pub fn delete_item(db: &mut Database, item_id: u32) -> (r: Result<(), StoreError>)
    requires
        old(db)@.wf(),
    ensures
        r == old(db)@.delete_item_outcome(item_id),
        final(db)@.wf(),
        r is Err ==> final(db)@ == old(db)@,
        r is Ok ==> final(db)@ == old(db)@.after_delete_item(item_id),
{
    if db.find_item(item_id).is_none() {
        return Err(StoreError::NotFound);
    }
    let eid = match db.next_entry_id() {
        Some(n) => n,
        None => {
            return Err(StoreError::Backend);
        },
    };
    let d = ItemDetails { cost: None, note: None, status: None, visible: None, removed: true };
    db.append_entry(eid, item_id, &d);
    Ok(())
}

/// Creates the item `item` under the next item id, together with an initial
/// entry that holds its details (the empty snapshot if it has none), and
/// sets that id on `item`. Either both rows are added or neither.
pub fn insert_item(db: &mut Database, item: &mut Item) -> (r: Result<(), StoreError>)
    requires
        old(db)@.wf(),
    ensures
        r == old(db)@.insert_item_outcome(*old(item)),
        final(db)@.wf(),
        r is Err ==> final(db)@ == old(db)@ && *final(item) == *old(item),
        r is Ok ==> final(db)@ == old(db)@.after_insert_item(*old(item)),
        r is Ok ==> *final(item) == (Item {
            id: Some(old(db)@.next_item_id() as u32),
            ..*old(item)
        }),
{
    if !title_within(item.title.as_str(), MAX_ITEM_TITLE_LEN) {
        return Err(StoreError::Validation);
    }
    let d = match &item.details {
        Some(d) => {
            if !note_within(&d.note) {
                return Err(StoreError::Validation);
            }
            d.duplicate()
        },
        None => ItemDetails::new(),
    };
    if db.find_category(item.category_id).is_none() {
        return Err(StoreError::NotFound);
    }
    if db.item_title_in_use(item.title.as_str(), None) {
        return Err(StoreError::Conflict);
    }
    let nid = match db.next_item_id() {
        Some(n) => n,
        None => {
            return Err(StoreError::Backend);
        },
    };
    let eid = match db.next_entry_id() {
        Some(n) => n,
        None => {
            return Err(StoreError::Backend);
        },
    };
    let ghost before = db@;
    db.items.push(
        Item { id: Some(nid), category_id: item.category_id, title: item.title.clone(), details: None },
    );
    proof {
        let n = before.items.len();
        assert forall|j: int| 0 <= j < n implies id_of((#[trigger] db@.items[j]).id) < nid by {
            assert(db@.items[j] == before.items[j]);
            if j < n - 1 {
                assert(id_of(before.items[j].id) < id_of(before.items[n - 1].id));
            }
        }
    }
    db.append_entry(eid, nid, &d);
    item.id = Some(nid);
    Ok(())
}

/// Updates item `item.id` to the title and category of `item` and appends an
/// entry that records the details of `item`; earlier entries stay as they are.
pub fn update_item(db: &mut Database, item: &Item) -> (r: Result<(), StoreError>)
    requires
        old(db)@.wf(),
    ensures
        r == old(db)@.update_item_outcome(*item),
        final(db)@.wf(),
        r is Err ==> final(db)@ == old(db)@,
        r is Ok ==> final(db)@ == old(db)@.after_update_item(*item),
{
    if !title_within(item.title.as_str(), MAX_ITEM_TITLE_LEN) {
        return Err(StoreError::Validation);
    }
    let id = match item.id {
        Some(v) => v,
        None => {
            return Err(StoreError::Validation);
        },
    };
    let d = match &item.details {
        Some(d) => d,
        None => {
            return Err(StoreError::Validation);
        },
    };
    if !note_within(&d.note) {
        return Err(StoreError::Validation);
    }
    let k = match db.find_item(id) {
        Some(k) => k,
        None => {
            return Err(StoreError::NotFound);
        },
    };
    if db.find_category(item.category_id).is_none() {
        return Err(StoreError::NotFound);
    }
    if !d.removed && db.item_title_in_use(item.title.as_str(), item.id) {
        return Err(StoreError::Conflict);
    }
    let eid = match db.next_entry_id() {
        Some(n) => n,
        None => {
            return Err(StoreError::Backend);
        },
    };
    let ghost before = db@;
    let old_row = &db.items[k];
    let row = Item {
        id: old_row.id,
        category_id: item.category_id,
        title: item.title.clone(),
        details: match &old_row.details {
            Some(x) => Some(x.duplicate()),
            None => None,
        },
    };
    db.items.set(k, row);
    proof {
        assert forall|j: int| 0 <= j < before.items.len() && j != k implies (
        #[trigger] before.items[j]).id != Some(id) by {
            if j < k {
                assert(id_of(before.items[j].id) < id_of(before.items[k as int].id));
            } else {
                assert(id_of(before.items[k as int].id) < id_of(before.items[j].id));
            }
        }
        assert(db@.items =~= before.items.map_values(|row: Item| edit_row(row, *item)));
    }
    db.append_entry(eid, id, d);
    Ok(())
}

} // verus!
