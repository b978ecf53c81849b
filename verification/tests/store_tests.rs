use timebank::record::Record;
use timebank::store::SlotStore;

fn rec(date: &str, begin: u32, type_str: &str) -> Record {
    Record {
        date: date.to_string(),
        time_index_begin: begin,
        time_index_end: begin + 1,
        type_str: type_str.to_string(),
        remark: String::new(),
    }
}

#[test]
fn new_store_is_empty() {
    let store = SlotStore::new();
    assert_eq!(store.get_record_list().len(), 0);
}

#[test]
fn upsert_writes_one_row() {
    let mut store = SlotStore::new();
    store.insert_record(&rec("2024-01-01", 18, "work"));
    let rows = store.get_record_list();
    assert_eq!(rows.len(), 1);
    assert_eq!(rows[0], rec("2024-01-01", 18, "work"));
}

#[test]
fn upsert_same_key_replaces_the_row() {
    let mut store = SlotStore::new();
    store.insert_record(&rec("2024-01-01", 18, "work"));
    store.insert_record(&rec("2024-01-01", 18, "rest"));
    let rows = store.get_record_list();
    assert_eq!(rows.len(), 1);
    assert_eq!(rows[0].type_str, "rest");
}

#[test]
fn upserting_a_batch_twice_changes_nothing() {
    let batch = vec![
        rec("2024-01-01", 18, "work"),
        rec("2024-01-01", 19, "work"),
        rec("2024-01-02", 10, "rest"),
    ];
    let mut once = SlotStore::new();
    once.insert_record_list(&batch);
    let mut twice = SlotStore::new();
    twice.insert_record_list(&batch);
    twice.insert_record_list(&batch);
    assert_eq!(once.get_record_list(), twice.get_record_list());
    assert_eq!(twice.get_record_list().len(), 3);
}

#[test]
fn listing_orders_by_date_then_slot_end_descending() {
    let mut store = SlotStore::new();
    store.insert_record(&rec("2024-01-01", 18, "a"));
    store.insert_record(&rec("2024-01-03", 10, "b"));
    store.insert_record(&rec("2024-01-01", 21, "c"));
    store.insert_record(&rec("2024-01-02", 5, "d"));
    let rows = store.get_record_list();
    let dates: Vec<&str> = rows.iter().map(|r| r.date.as_str()).collect();
    assert_eq!(dates, vec!["2024-01-03", "2024-01-02", "2024-01-01", "2024-01-01"]);
    assert_eq!(rows[2].time_index_end, 22);
    assert_eq!(rows[3].time_index_end, 19);
}

#[test]
fn search_keeps_only_dates_in_range_ordered() {
    let mut store = SlotStore::new();
    store.insert_record(&rec("2024-01-01", 18, "a"));
    store.insert_record(&rec("2024-01-01", 20, "b"));
    store.insert_record(&rec("2024-01-03", 10, "c"));
    let rows = store.search_record("2024-01-01", "2024-01-02");
    assert_eq!(rows.len(), 2);
    assert_eq!(rows[0].date, "2024-01-01");
    assert_eq!(rows[1].date, "2024-01-01");
    // Ordered by slot end descending.
    assert_eq!(rows[0].time_index_end, 21);
    assert_eq!(rows[1].time_index_end, 19);
}

#[test]
fn search_bounds_are_inclusive() {
    let mut store = SlotStore::new();
    store.insert_record(&rec("2024-01-01", 1, "a"));
    store.insert_record(&rec("2024-01-02", 2, "b"));
    store.insert_record(&rec("2024-01-03", 3, "c"));
    let rows = store.search_record("2024-01-01", "2024-01-03");
    assert_eq!(rows.len(), 3);
    let rows = store.search_record("2024-01-02", "2024-01-02");
    assert_eq!(rows.len(), 1);
    assert_eq!(rows[0].date, "2024-01-02");
}

#[test]
fn search_with_reversed_bounds_finds_nothing() {
    let mut store = SlotStore::new();
    store.insert_record(&rec("2024-01-02", 2, "b"));
    let rows = store.search_record("2024-01-03", "2024-01-01");
    assert_eq!(rows.len(), 0);
}
