use maintenance_tracker::history::current_details;
use maintenance_tracker::model::{Category, Entry, Item, ItemDetails, StoreError};
use maintenance_tracker::store::{
    collect_categories, collect_item_entries, collect_items, delete_category, delete_item,
    get_autoincremented_id, get_category, get_entry, get_item, insert_category, insert_entry,
    insert_item, title_taken, update_item, Database,
};

fn new_item(title: &str, category_id: u32) -> Item {
    Item { id: None, category_id, title: title.to_string(), details: None }
}

fn details(cost: Option<u32>, status: Option<u32>) -> ItemDetails {
    ItemDetails { cost, note: None, status, visible: None, removed: false }
}

fn entry(id: u32, item_id: u32, cost: Option<u32>) -> Entry {
    Entry {
        id,
        item_id,
        cost,
        note: None,
        status: None,
        visible: None,
        removed: None,
        date: None,
    }
}

#[test]
fn plumbing_pump_scenario() {
    let mut db = Database::new();
    assert_eq!(insert_category(&mut db, "Plumbing"), Ok(1));
    let mut item = new_item("Pump A", 1);
    assert_eq!(insert_item(&mut db, &mut item), Ok(()));
    assert_eq!(item.id, Some(1));
    let first = get_entry(&db, 1).unwrap();
    assert_eq!(first.id, 1);
    assert_eq!(first.item_id, 1);
    assert_eq!(first.removed, Some(false));

    let update = Item {
        id: Some(1),
        category_id: 1,
        title: "Pump A".to_string(),
        details: Some(details(Some(500), Some(2))),
    };
    assert_eq!(update_item(&mut db, &update), Ok(()));
    let latest = get_entry(&db, 1).unwrap();
    assert_eq!(latest.id, 2);
    assert_eq!(latest.cost, Some(500));
    assert_eq!(latest.status, Some(2));
    let d = get_item(&db, 1).unwrap().details.unwrap();
    assert_eq!(d.cost, Some(500));
    assert_eq!(d.status, Some(2));
    assert!(!d.removed);
}

#[test]
fn title_match_is_exact_without_trimming() {
    let mut db = Database::new();
    assert_eq!(insert_category(&mut db, "HVAC "), Ok(1));
    assert_eq!(title_taken(&db, "HVAC", "category"), Ok(false));
    assert_eq!(title_taken(&db, "HVAC ", "category"), Ok(true));
    assert_eq!(title_taken(&db, "hvac ", "category"), Ok(false));
    assert_eq!(insert_category(&mut db, "HVAC"), Ok(2));
}

#[test]
fn current_details_picks_largest_sequence_id() {
    let entries = vec![entry(3, 7, Some(30)), entry(9, 7, Some(90)), entry(5, 7, Some(50)), entry(12, 8, Some(1))];
    let d = current_details(&entries, 7);
    assert_eq!(d.cost, Some(90));
    let none = current_details(&entries, 4);
    assert_eq!(none.cost, None);
    assert_eq!(none.note, None);
    assert!(!none.removed);
}

#[test]
fn current_details_follows_appends() {
    let mut db = Database::new();
    insert_category(&mut db, "Tools").unwrap();
    let mut item = new_item("Drill", 1);
    insert_item(&mut db, &mut item).unwrap();
    for cost in [10u32, 20, 30] {
        let upd = Item { details: Some(details(Some(cost), None)), ..item.clone() };
        update_item(&mut db, &upd).unwrap();
    }
    assert_eq!(get_entry(&db, 1).unwrap().id, 4);
    assert_eq!(get_item(&db, 1).unwrap().details.unwrap().cost, Some(30));
}

#[test]
fn appending_keeps_earlier_entries() {
    let mut db = Database::new();
    insert_category(&mut db, "Tools").unwrap();
    let mut item = new_item("Saw", 1);
    item.details = Some(details(Some(5), Some(1)));
    insert_item(&mut db, &mut item).unwrap();
    let before = collect_item_entries(&db, 1);
    assert_eq!(before.len(), 1);
    let upd = Item { details: Some(details(Some(7), None)), ..item.clone() };
    update_item(&mut db, &upd).unwrap();
    delete_item(&mut db, 1).unwrap();
    let after = collect_item_entries(&db, 1);
    assert_eq!(after.len(), 3);
    assert_eq!(after[0].id, before[0].id);
    assert_eq!(after[0].cost, Some(5));
    assert_eq!(after[0].status, Some(1));
    assert_eq!(after[1].cost, Some(7));
    assert_eq!(after[2].removed, Some(true));
}

#[test]
fn deleted_category_frees_title() {
    let mut db = Database::new();
    insert_category(&mut db, "HVAC").unwrap();
    assert_eq!(title_taken(&db, "HVAC", "category"), Ok(true));
    delete_category(&mut db, 1);
    assert_eq!(title_taken(&db, "HVAC", "category"), Ok(false));
    let c = get_category(&db, 1).unwrap();
    assert!(c.removed);
    assert_eq!(c.title, "HVAC");
    delete_category(&mut db, 1);
    assert!(get_category(&db, 1).unwrap().removed);
    assert_eq!(insert_category(&mut db, "HVAC"), Ok(2));
    assert_eq!(collect_categories(&db).len(), 2);
}

#[test]
fn created_item_is_listed_once() {
    let mut db = Database::new();
    insert_category(&mut db, "Fleet").unwrap();
    let mut a = new_item("Truck", 1);
    insert_item(&mut db, &mut a).unwrap();
    let mut b = new_item("Van", 1);
    insert_item(&mut db, &mut b).unwrap();
    let items = collect_items(&db);
    assert_eq!(items.len(), 2);
    let van = items.get(&2).unwrap();
    assert_eq!(van.title, "Van");
    let d = van.details.as_ref().unwrap();
    assert_eq!(d.cost, None);
    assert!(!d.removed);
    assert_eq!(items.keys().copied().collect::<Vec<u32>>(), vec![1, 2]);
}

#[test]
fn title_length_limits() {
    let mut db = Database::new();
    let thirty = "a".repeat(30);
    let thirty_one = "a".repeat(31);
    assert_eq!(insert_category(&mut db, &thirty), Ok(1));
    assert_eq!(insert_category(&mut db, &thirty_one), Err(StoreError::Validation));
    let thirty_chars = "é".repeat(30);
    assert_eq!(insert_category(&mut db, &thirty_chars), Ok(2));
    let mut long_item = new_item(&thirty_one, 1);
    assert_eq!(insert_item(&mut db, &mut long_item), Err(StoreError::Validation));
    assert_eq!(long_item.id, None);
}

#[test]
fn note_length_limit() {
    let mut db = Database::new();
    insert_category(&mut db, "Tools").unwrap();
    let mut item = new_item("Lathe", 1);
    insert_item(&mut db, &mut item).unwrap();
    let mut d = details(None, None);
    d.note = Some("n".repeat(65535));
    let ok = Item { details: Some(d.clone()), ..item.clone() };
    assert_eq!(update_item(&mut db, &ok), Ok(()));
    d.note = Some("n".repeat(65536));
    let too_long = Item { details: Some(d), ..item.clone() };
    assert_eq!(update_item(&mut db, &too_long), Err(StoreError::Validation));
    assert_eq!(insert_entry(&mut db, &too_long), Err(StoreError::Validation));
    assert_eq!(collect_item_entries(&db, 1).len(), 2);
}

#[test]
fn duplicate_active_titles_conflict() {
    let mut db = Database::new();
    insert_category(&mut db, "Tools").unwrap();
    assert_eq!(insert_category(&mut db, "Tools"), Err(StoreError::Conflict));
    let mut a = new_item("Drill", 1);
    insert_item(&mut db, &mut a).unwrap();
    let mut b = new_item("Drill", 1);
    assert_eq!(insert_item(&mut db, &mut b), Err(StoreError::Conflict));
    assert_eq!(title_taken(&db, "Drill", "item"), Ok(true));
    delete_item(&mut db, 1).unwrap();
    assert_eq!(title_taken(&db, "Drill", "item"), Ok(false));
    assert_eq!(insert_item(&mut db, &mut b), Ok(()));
    assert_eq!(b.id, Some(2));
}

#[test]
fn missing_rows_are_not_found() {
    let mut db = Database::new();
    let mut orphan = new_item("Pump", 4);
    assert_eq!(insert_item(&mut db, &mut orphan), Err(StoreError::NotFound));
    assert_eq!(get_category(&db, 1).err(), Some(StoreError::NotFound));
    assert_eq!(get_item(&db, 1).err(), Some(StoreError::NotFound));
    assert_eq!(get_entry(&db, 1).err(), Some(StoreError::NotFound));
    assert_eq!(delete_item(&mut db, 1), Err(StoreError::NotFound));
    let upd = Item { id: Some(1), details: Some(details(None, None)), ..new_item("Pump", 1) };
    assert_eq!(update_item(&mut db, &upd), Err(StoreError::NotFound));
    assert_eq!(insert_entry(&mut db, &upd), Err(StoreError::NotFound));
}

#[test]
fn unknown_table_is_rejected() {
    let mut db = Database::new();
    insert_category(&mut db, "Tools").unwrap();
    assert_eq!(title_taken(&db, "Tools", "tool"), Err(StoreError::Validation));
    assert_eq!(title_taken(&db, "Tools", "entry"), Err(StoreError::Validation));
    assert_eq!(get_autoincremented_id(&db, "things"), Err(StoreError::Validation));
}

#[test]
fn autoincremented_ids() {
    let mut db = Database::new();
    assert_eq!(get_autoincremented_id(&db, "category"), Err(StoreError::NotFound));
    insert_category(&mut db, "A").unwrap();
    insert_category(&mut db, "B").unwrap();
    let mut item = new_item("X", 2);
    insert_item(&mut db, &mut item).unwrap();
    assert_eq!(get_autoincremented_id(&db, "category"), Ok(2));
    assert_eq!(get_autoincremented_id(&db, "item"), Ok(1));
    assert_eq!(get_autoincremented_id(&db, "entry"), Ok(1));
}

#[test]
fn deleting_item_resets_attributes() {
    let mut db = Database::new();
    insert_category(&mut db, "Tools").unwrap();
    let mut item = new_item("Press", 1);
    item.details = Some(ItemDetails {
        cost: Some(40),
        note: Some("oiled".to_string()),
        status: Some(3),
        visible: Some(true),
        removed: false,
    });
    insert_item(&mut db, &mut item).unwrap();
    delete_item(&mut db, 1).unwrap();
    let d = get_item(&db, 1).unwrap().details.unwrap();
    assert!(d.removed);
    assert_eq!(d.cost, None);
    assert_eq!(d.note, None);
    assert_eq!(d.status, None);
    assert_eq!(d.visible, None);
}

#[test]
fn update_changes_row_title_and_category() {
    let mut db = Database::new();
    insert_category(&mut db, "A").unwrap();
    insert_category(&mut db, "B").unwrap();
    let mut item = new_item("Old", 1);
    insert_item(&mut db, &mut item).unwrap();
    let upd = Item {
        id: Some(1),
        category_id: 2,
        title: "New".to_string(),
        details: Some(details(Some(1), None)),
    };
    update_item(&mut db, &upd).unwrap();
    let got = get_item(&db, 1).unwrap();
    assert_eq!(got.title, "New");
    assert_eq!(got.category_id, 2);
    let no_details = Item { details: None, ..upd.clone() };
    assert_eq!(update_item(&mut db, &no_details), Err(StoreError::Validation));
    let no_id = Item { id: None, ..upd };
    assert_eq!(update_item(&mut db, &no_id), Err(StoreError::Validation));
}

#[test]
fn from_rows_checks_consistency() {
    let cat = |id: u32, title: &str, removed: bool| Category { id: Some(id), title: title.to_string(), removed };
    let ok = Database::from_rows(
        vec![cat(1, "A", true), cat(3, "A", false)],
        vec![Item { id: Some(2), category_id: 3, title: "X".to_string(), details: None }],
        vec![entry(4, 2, Some(8))],
    );
    let db = ok.ok().unwrap();
    assert_eq!(get_item(&db, 2).unwrap().details.unwrap().cost, Some(8));
    assert_eq!(get_autoincremented_id(&db, "entry"), Ok(4));
    let unsorted = Database::from_rows(vec![cat(2, "A", false), cat(1, "B", false)], vec![], vec![]);
    assert_eq!(unsorted.err(), Some(StoreError::Validation));
    let clash = Database::from_rows(vec![cat(1, "A", false), cat(2, "A", false)], vec![], vec![]);
    assert_eq!(clash.err(), Some(StoreError::Validation));
    let bad_entries = Database::from_rows(vec![], vec![], vec![entry(2, 1, None), entry(2, 1, None)]);
    assert_eq!(bad_entries.err(), Some(StoreError::Validation));
}

#[test]
fn categories_come_ordered_by_title() {
    let mut db = Database::new();
    insert_category(&mut db, "B").unwrap();
    insert_category(&mut db, "A").unwrap();
    insert_category(&mut db, "Ab").unwrap();
    insert_category(&mut db, "a").unwrap();
    delete_category(&mut db, 1);
    let titles: Vec<String> = collect_categories(&db).into_iter().map(|c| c.title).collect();
    assert_eq!(titles, vec!["A", "Ab", "B", "a"]);
    let ids: Vec<Option<u32>> = collect_categories(&db).into_iter().map(|c| c.id).collect();
    assert_eq!(ids, vec![Some(2), Some(3), Some(1), Some(4)]);
}

#[test]
fn equal_category_titles_come_in_id_order() {
    let cat = |id: u32, title: &str, removed: bool| Category { id: Some(id), title: title.to_string(), removed };
    let db = Database::from_rows(
        vec![cat(1, "Z", true), cat(2, "A", true), cat(5, "Z", false), cat(7, "A", false)],
        vec![],
        vec![],
    )
    .ok()
    .unwrap();
    let ids: Vec<Option<u32>> = collect_categories(&db).into_iter().map(|c| c.id).collect();
    assert_eq!(ids, vec![Some(2), Some(7), Some(1), Some(5)]);
}

#[test]
fn item_without_entries_has_empty_snapshot() {
    let db = Database::from_rows(
        vec![Category { id: Some(1), title: "Tools".to_string(), removed: false }],
        vec![Item { id: Some(3), category_id: 1, title: "Vise".to_string(), details: None }],
        vec![],
    )
    .ok()
    .unwrap();
    let e = get_entry(&db, 3).unwrap();
    assert_eq!(e.id, 0);
    assert_eq!(e.item_id, 3);
    assert_eq!(e.cost, None);
    assert_eq!(e.note, None);
    assert_eq!(e.status, None);
    assert_eq!(e.visible, None);
    assert_eq!(e.removed, None);
    assert!(!ItemDetails::from_entry(&e).removed);
    assert!(!get_item(&db, 3).unwrap().details.unwrap().removed);
    assert_eq!(get_entry(&db, 4).err(), Some(StoreError::NotFound));
}

#[test]
fn update_keeps_active_titles_unique() {
    let mut db = Database::new();
    insert_category(&mut db, "Tools").unwrap();
    let mut drill = new_item("Drill", 1);
    insert_item(&mut db, &mut drill).unwrap();
    let mut saw = new_item("Saw", 1);
    insert_item(&mut db, &mut saw).unwrap();
    let rename = Item { id: Some(2), category_id: 1, title: "Drill".to_string(), details: Some(details(None, None)) };
    assert_eq!(update_item(&mut db, &rename), Err(StoreError::Conflict));
    assert_eq!(get_item(&db, 2).unwrap().title, "Saw");
    let same = Item { id: Some(1), category_id: 1, title: "Drill".to_string(), details: Some(details(Some(3), None)) };
    assert_eq!(update_item(&mut db, &same), Ok(()));
    delete_item(&mut db, 1).unwrap();
    assert_eq!(update_item(&mut db, &rename), Ok(()));
    let revive = Item { id: Some(1), category_id: 1, title: "Drill".to_string(), details: Some(details(None, None)) };
    assert_eq!(update_item(&mut db, &revive), Err(StoreError::Conflict));
    let mut removed = details(None, None);
    removed.removed = true;
    let stay_removed = Item { details: Some(removed), ..revive };
    assert_eq!(update_item(&mut db, &stay_removed), Ok(()));
}
