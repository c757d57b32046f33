//! Records of the maintenance store: categories, items, and the immutable
//! entries that hold each item's history.
use vstd::prelude::*;
use vstd::string::StrSliceExecFns;

verus! {

/// Longest category title, in characters.
pub const MAX_CATEGORY_TITLE_LEN: usize = 30;

/// Longest item title, in characters.
pub const MAX_ITEM_TITLE_LEN: usize = 30;

/// Longest entry note, in characters.
pub const MAX_ENTRY_NOTE_LEN: usize = 65535;

/// Name of the category table.
pub const TABLE_NAME_CATEGORY: &'static str = "category";

/// Name of the item table.
pub const TABLE_NAME_ITEM: &'static str = "item";

/// Name of the entry table.
pub const TABLE_NAME_ENTRY: &'static str = "entry";

/// Why an operation of the store was refused.
#[derive(Debug, Clone, Copy, PartialEq, Eq, Structural)]
pub enum StoreError {
    /// A title or a note is too long, a required field is missing, or a
    /// table name is not known.
    Validation,
    /// No row has the given id.
    NotFound,
    /// An active record already holds the title.
    Conflict,
    /// The store cannot take the row (its id space is used up).
    Backend,
}

/// A group of items. `removed` marks a soft-deleted category.
#[derive(Debug, Clone)]
pub struct Category {
    pub id: Option<u32>,
    pub title: String,
    pub removed: bool,
}

/// The visible attributes of an item, as its latest entry holds them.
#[derive(Debug, Clone)]
pub struct ItemDetails {
    pub cost: Option<u32>,
    pub note: Option<String>,
    pub status: Option<u32>,
    pub visible: Option<bool>,
    pub removed: bool,
}

/// A tracked item. `details` is not stored with the item: it is attached
/// when the item is read, from the item's latest entry.
#[derive(Debug, Clone)]
pub struct Item {
    pub id: Option<u32>,
    pub category_id: u32,
    pub title: String,
    pub details: Option<ItemDetails>,
}

/// One immutable version of an item's attributes. `id` is the sequence
/// number that orders the versions.
#[derive(Debug, Clone)]
pub struct Entry {
    pub id: u32,
    pub item_id: u32,
    pub cost: Option<u32>,
    pub note: Option<String>,
    pub status: Option<u32>,
    pub visible: Option<bool>,
    pub removed: Option<bool>,
    pub date: Option<String>,
}

/// A title is valid when it has at most `max` characters.
pub open spec fn title_fits(t: Seq<char>, max: usize) -> bool {
    t.len() <= max
}

/// A note is valid when it is absent or has at most the allowed characters.
pub open spec fn note_fits(n: Option<String>) -> bool {
    match n {
        Some(s) => s@.len() <= MAX_ENTRY_NOTE_LEN,
        None => true,
    }
}

/// The details that an item with no entry shows: all unset, not removed.
pub open spec fn empty_details() -> ItemDetails {
    ItemDetails { cost: None, note: None, status: None, visible: None, removed: false }
}

/// The details that an entry records; an unset `removed` reads as false.
pub open spec fn details_of(e: Entry) -> ItemDetails {
    ItemDetails {
        cost: e.cost,
        note: e.note,
        status: e.status,
        visible: e.visible,
        removed: match e.removed {
            Some(b) => b,
            None => false,
        },
    }
}

/// Whether two strings hold the same characters.
pub fn str_eq(a: &str, b: &str) -> (r: bool)
    ensures
        r == (a@ == b@),
{
    let n = a.unicode_len();
    if n != b.unicode_len() {
        return false;
    }
    let mut i: usize = 0;
    while i < n
        invariant
            n == a@.len(),
            n == b@.len(),
            i <= n,
            a@.subrange(0, i as int) == b@.subrange(0, i as int),
        decreases n - i,
    {
        if a.get_char(i) != b.get_char(i) {
            assert(a@[i as int] != b@[i as int]);
            return false;
        }
        assert(a@.subrange(0, i + 1) =~= a@.subrange(0, i as int).push(a@[i as int]));
        assert(b@.subrange(0, i + 1) =~= b@.subrange(0, i as int).push(b@[i as int]));
        i = i + 1;
    }
    assert(a@ =~= a@.subrange(0, n as int));
    assert(b@ =~= b@.subrange(0, n as int));
    true
}

/// Whether a title has at most `max` characters.
pub fn title_within(t: &str, max: usize) -> (r: bool)
    ensures
        r == title_fits(t@, max),
{
    t.unicode_len() <= max
}

/// Whether a note is absent or short enough.
pub fn note_within(n: &Option<String>) -> (r: bool)
    ensures
        r == note_fits(*n),
{
    match n {
        Some(s) => s.as_str().unicode_len() <= MAX_ENTRY_NOTE_LEN,
        None => true,
    }
}

fn copy_note(n: &Option<String>) -> (r: Option<String>)
    ensures
        r == *n,
{
    match n {
        Some(s) => Some(s.clone()),
        None => None,
    }
}

impl ItemDetails {
    /// The empty snapshot: every attribute unset, not removed.
    pub fn new() -> (r: ItemDetails)
        ensures
            r == empty_details(),
    {
        ItemDetails { cost: None, note: None, status: None, visible: None, removed: false }
    }

    /// The snapshot that an entry records.
    pub fn from_entry(e: &Entry) -> (r: ItemDetails)
        ensures
            r == details_of(*e),
    {
        ItemDetails {
            cost: e.cost,
            note: copy_note(&e.note),
            status: e.status,
            visible: e.visible,
            removed: match e.removed {
                Some(b) => b,
                None => false,
            },
        }
    }

    /// A copy of these details.
    pub fn duplicate(&self) -> (r: ItemDetails)
        ensures
            r == *self,
    {
        ItemDetails {
            cost: self.cost,
            note: copy_note(&self.note),
            status: self.status,
            visible: self.visible,
            removed: self.removed,
        }
    }
}

impl Entry {
    /// A copy of this entry.
    pub fn duplicate(&self) -> (r: Entry)
        ensures
            r == *self,
    {
        Entry {
            id: self.id,
            item_id: self.item_id,
            cost: self.cost,
            note: copy_note(&self.note),
            status: self.status,
            visible: self.visible,
            removed: self.removed,
            date: copy_note(&self.date),
        }
    }
}

impl Category {
    /// The name of the table that holds categories.
    pub fn table_name(&self) -> (r: &'static str)
        ensures
            r@ == TABLE_NAME_CATEGORY@,
    {
        TABLE_NAME_CATEGORY
    }

    /// A copy of this category.
    pub fn duplicate(&self) -> (r: Category)
        ensures
            r == *self,
    {
        Category { id: self.id, title: self.title.clone(), removed: self.removed }
    }
}

impl Item {
    /// The name of the table that holds items.
    pub fn table_name(&self) -> (r: &'static str)
        ensures
            r@ == TABLE_NAME_ITEM@,
    {
        TABLE_NAME_ITEM
    }
}

/// Lexicographic order on titles, character by character by code point;
/// a title comes before every longer title that starts with it.
pub open spec fn title_le(a: Seq<char>, b: Seq<char>) -> bool
    decreases a.len(),
{
    if a.len() == 0 {
        true
    } else if b.len() == 0 {
        false
    } else if a[0] != b[0] {
        (a[0] as int) < (b[0] as int)
    } else {
        title_le(a.drop_first(), b.drop_first())
    }
}

/// Any two titles are ordered one way or the other.
pub proof fn lemma_title_le_total(a: Seq<char>, b: Seq<char>)
    ensures
        title_le(a, b) || title_le(b, a),
    decreases a.len(),
{
    if a.len() > 0 && b.len() > 0 {
        if a[0] == b[0] {
            lemma_title_le_total(a.drop_first(), b.drop_first());
        } else {
            assert((a[0] as int) != (b[0] as int));
        }
    }
}

/// Titles ordered both ways are equal.
pub proof fn lemma_title_le_antisymmetric(a: Seq<char>, b: Seq<char>)
    requires
        title_le(a, b),
        title_le(b, a),
    ensures
        a == b,
    decreases a.len(),
{
    if a.len() > 0 && b.len() > 0 {
        if a[0] == b[0] {
            lemma_title_le_antisymmetric(a.drop_first(), b.drop_first());
            assert(a =~= seq![a[0]] + a.drop_first());
            assert(b =~= seq![b[0]] + b.drop_first());
        } else {
            assert((a[0] as int) != (b[0] as int));
        }
    } else {
        assert(a.len() == 0 && b.len() == 0);
        assert(a =~= b);
    }
}

/// The title order is transitive.
pub proof fn lemma_title_le_transitive(a: Seq<char>, b: Seq<char>, c: Seq<char>)
    requires
        title_le(a, b),
        title_le(b, c),
    ensures
        title_le(a, c),
    decreases a.len(),
{
    if a.len() > 0 && b.len() > 0 && c.len() > 0 && a[0] == b[0] && b[0] == c[0] {
        lemma_title_le_transitive(a.drop_first(), b.drop_first(), c.drop_first());
    }
}

/// Whether `a` comes before `b`, or equals it, in the title order.
pub fn title_le_exec(a: &str, b: &str) -> (r: bool)
    ensures
        r == title_le(a@, b@),
{
    let n = a.unicode_len();
    let m = b.unicode_len();
    let mut i: usize = 0;
    assert(a@.skip(0) =~= a@);
    assert(b@.skip(0) =~= b@);
    while i < n && i < m
        invariant
            n == a@.len(),
            m == b@.len(),
            i <= n,
            i <= m,
            title_le(a@, b@) == title_le(a@.skip(i as int), b@.skip(i as int)),
        decreases n - i,
    {
        let x = a.get_char(i);
        let y = b.get_char(i);
        assert(a@.skip(i as int)[0] == x);
        assert(b@.skip(i as int)[0] == y);
        if x != y {
            return (x as u32) < (y as u32);
        }
        assert(a@.skip(i as int).drop_first() =~= a@.skip(i + 1));
        assert(b@.skip(i as int).drop_first() =~= b@.skip(i + 1));
        i = i + 1;
    }
    i == n
}

} // verus!
