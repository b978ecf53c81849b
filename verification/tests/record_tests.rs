use timebank::api::insert_by_csv_rows;
use timebank::record::{
    date_str_of_csv_path, generate_record_vec, generate_record_vec_by_csv_row,
    generate_record_vec_by_rows, CsvRow, Record,
};
use timebank::store::SlotStore;

fn interval(date: &str, begin: u32, end: u32, type_str: &str, remark: &str) -> Record {
    Record {
        date: date.to_string(),
        time_index_begin: begin,
        time_index_end: end,
        type_str: type_str.to_string(),
        remark: remark.to_string(),
    }
}

#[test]
fn expansion_yields_one_record_per_slot() {
    let out = generate_record_vec_by_csv_row("2024-01-01", 18, 21, "work", "x");
    assert_eq!(out.len(), 3);
    for (i, rec) in out.iter().enumerate() {
        assert_eq!(rec.date, "2024-01-01");
        assert_eq!(rec.time_index_begin, 18 + i as u32);
        assert_eq!(rec.time_index_end, rec.time_index_begin + 1);
        assert_eq!(rec.type_str, "work");
        assert_eq!(rec.remark, "x");
    }
}

#[test]
fn expansion_of_interval_record_matches_by_field_expansion() {
    let out = generate_record_vec(&interval("2024-01-01", 18, 21, "work", "x"));
    let expected = generate_record_vec_by_csv_row("2024-01-01", 18, 21, "work", "x");
    assert_eq!(out, expected);
}

#[test]
fn empty_range_expands_to_nothing() {
    let out = generate_record_vec(&interval("2024-01-01", 5, 5, "work", "x"));
    assert_eq!(out.len(), 0);
}

#[test]
fn reversed_range_expands_to_nothing() {
    let out = generate_record_vec(&interval("2024-01-01", 7, 3, "work", "x"));
    assert_eq!(out.len(), 0);
}

fn row(time_str: &str, type_str: &str, remark: &str) -> CsvRow {
    CsvRow {
        time_str: time_str.to_string(),
        type_str: type_str.to_string(),
        remark: remark.to_string(),
    }
}

#[test]
fn rows_expand_in_order_and_bad_rows_are_skipped() {
    let rows = vec![
        row("09:00-10:30", "work", "a"),
        row("not a range", "junk", "b"),
        row("12:00-13:00", "lunch", "c"),
    ];
    let out = generate_record_vec_by_rows("2024-01-01", &rows);
    assert_eq!(out.len(), 5);
    assert_eq!(out[0].time_index_begin, 18);
    assert_eq!(out[1].time_index_begin, 19);
    assert_eq!(out[2].time_index_begin, 20);
    assert_eq!(out[2].type_str, "work");
    assert_eq!(out[3].time_index_begin, 24);
    assert_eq!(out[4].time_index_begin, 25);
    assert_eq!(out[4].type_str, "lunch");
    for rec in out.iter() {
        assert_eq!(rec.date, "2024-01-01");
        assert_eq!(rec.time_index_end, rec.time_index_begin + 1);
    }
}

#[test]
fn all_rows_bad_means_no_records() {
    let rows = vec![row("", "a", "b"), row("09:00", "c", "d")];
    let out = generate_record_vec_by_rows("2024-01-01", &rows);
    assert_eq!(out.len(), 0);
}

#[test]
fn date_comes_from_file_name_stem() {
    assert_eq!(date_str_of_csv_path("csv_data/2024-01-01.csv"), "2024-01-01");
    assert_eq!(date_str_of_csv_path("2024-01-02.csv"), "2024-01-02");
    assert_eq!(date_str_of_csv_path("a/b/2024-01-03.backup.csv"), "2024-01-03");
    assert_eq!(date_str_of_csv_path("a/noextension"), "noextension");
    assert_eq!(date_str_of_csv_path("a/b/"), "");
}

#[test]
fn ingesting_rows_fills_the_store_idempotently() {
    let rows = vec![row("09:00-10:30", "work", "a"), row("bad", "x", "y")];
    let mut store = SlotStore::new();
    insert_by_csv_rows(&mut store, "2024-01-01", &rows);
    assert_eq!(store.get_record_list().len(), 3);
    insert_by_csv_rows(&mut store, "2024-01-01", &rows);
    assert_eq!(store.get_record_list().len(), 3);
}
