//! The slot record data model and record expansion.
//!
//! An interval record carries a date, a half-open range of half-hour
//! slot indices, a category and a remark. Expansion fans one interval
//! out into one atomic record per slot in `[begin, end)`; a reversed or
//! empty range yields no records. Expansion is the single path shared
//! by file ingestion and the HTTP create handler.

use vstd::prelude::*;

use crate::codec::{
    hhmmhhmm_to_time_index_range, time_range_begin, time_range_end, time_range_valid,
};
use crate::text::{find_char, find_char_in};

verus! {

/// One time entry: a date in `YYYY-MM-DD` form, a half-open slot index
/// range, a category and a remark. Persisted records are atomic
/// (`time_index_end == time_index_begin + 1`); an interval record with
/// a wider range exists only as input to expansion.
#[derive(Debug)]
pub struct Record {
    pub date: String,
    pub time_index_begin: u32,
    pub time_index_end: u32,
    pub type_str: String,
    pub remark: String,
}

/// The mathematical shape of a [`Record`]: its strings as character
/// sequences.
pub struct RecordView {
    pub date: Seq<char>,
    pub time_index_begin: u32,
    pub time_index_end: u32,
    pub type_str: Seq<char>,
    pub remark: Seq<char>,
}

impl View for Record {
    type V = RecordView;

    open spec fn view(&self) -> RecordView {
        RecordView {
            date: self.date@,
            time_index_begin: self.time_index_begin,
            time_index_end: self.time_index_end,
            type_str: self.type_str@,
            remark: self.remark@,
        }
    }
}

impl Clone for Record {
    fn clone(&self) -> (res: Self)
        ensures
            res@ == self@,
    {
        Record {
            date: self.date.clone(),
            time_index_begin: self.time_index_begin,
            time_index_end: self.time_index_end,
            type_str: self.type_str.clone(),
            remark: self.remark.clone(),
        }
    }
}

impl PartialEq for Record {
    fn eq(&self, other: &Record) -> (r: bool) {
        self.date == other.date && self.time_index_begin == other.time_index_begin
            && self.time_index_end == other.time_index_end && self.type_str == other.type_str
            && self.remark == other.remark
    }
}

impl vstd::std_specs::cmp::PartialEqSpecImpl for Record {
    open spec fn obeys_eq_spec() -> bool {
        true
    }

    open spec fn eq_spec(&self, other: &Record) -> bool {
        self@ == other@
    }
}

/// One row of a tabular source: a `"HH:MM-HH:MM"` time range, a
/// category and a remark. The date comes from the source's name, not
/// from the row.
#[derive(Debug)]
pub struct CsvRow {
    pub time_str: String,
    pub type_str: String,
    pub remark: String,
}

pub struct CsvRowView {
    pub time_str: Seq<char>,
    pub type_str: Seq<char>,
    pub remark: Seq<char>,
}

impl View for CsvRow {
    type V = CsvRowView;

    open spec fn view(&self) -> CsvRowView {
        CsvRowView { time_str: self.time_str@, type_str: self.type_str@, remark: self.remark@ }
    }
}

/// The views of a sequence of records.
pub open spec fn record_views(s: Seq<Record>) -> Seq<RecordView> {
    s.map_values(|r: Record| r@)
}

/// The views of a sequence of rows.
pub open spec fn csv_row_views(s: Seq<CsvRow>) -> Seq<CsvRowView> {
    s.map_values(|r: CsvRow| r@)
}

/// The atomic records an interval expands to: one per slot index in
/// `[begin, end)`, each one slot wide, all sharing the interval's date,
/// category and remark. Empty when `begin >= end`.
pub open spec fn expanded_records(
    date: Seq<char>,
    begin: int,
    end: int,
    type_str: Seq<char>,
    remark: Seq<char>,
) -> Seq<RecordView> {
    if begin < end {
        Seq::new(
            (end - begin) as nat,
            |i: int|
                RecordView {
                    date: date,
                    time_index_begin: (begin + i) as u32,
                    time_index_end: (begin + i + 1) as u32,
                    type_str: type_str,
                    remark: remark,
                },
        )
    } else {
        Seq::empty()
    }
}

/// Expands one interval record into its atomic records, one per
/// half-hour slot in `[time_index_begin, time_index_end)`. A reversed
/// or empty range yields an empty vector, not an error.
pub fn generate_record_vec(record: &Record) -> (r: Vec<Record>)
    ensures
        record_views(r@) == expanded_records(
            record@.date,
            record.time_index_begin as int,
            record.time_index_end as int,
            record@.type_str,
            record@.remark,
        ),
{
    let mut out: Vec<Record> = Vec::new();
    let begin = record.time_index_begin;
    let end = record.time_index_end;
    if begin >= end {
        proof {
            assert(record_views(out@) =~= expanded_records(
                record@.date,
                begin as int,
                end as int,
                record@.type_str,
                record@.remark,
            ));
        }
        return out;
    }
    let mut t = begin;
    while t < end
        invariant
            begin <= t <= end,
            out@.len() == t - begin,
            forall|i: int|
                0 <= i < out@.len() ==> #[trigger] out@[i]@ == expanded_records(
                    record@.date,
                    begin as int,
                    end as int,
                    record@.type_str,
                    record@.remark,
                )[i],
        decreases end - t,
    {
        out.push(
            Record {
                date: record.date.clone(),
                time_index_begin: t,
                time_index_end: t + 1,
                type_str: record.type_str.clone(),
                remark: record.remark.clone(),
            },
        );
        t = t + 1;
    }
    proof {
        assert(record_views(out@) =~= expanded_records(
            record@.date,
            begin as int,
            end as int,
            record@.type_str,
            record@.remark,
        ));
    }
    out
}

/// Expands one ingested row that has already been through the codec:
/// the same fan-out as [`generate_record_vec`], from plain field
/// values.
pub fn generate_record_vec_by_csv_row(
    date_str: &str,
    time_index_begin: u32,
    time_index_end: u32,
    type_str: &str,
    remark: &str,
) -> (r: Vec<Record>)
    ensures
        record_views(r@) == expanded_records(
            date_str@,
            time_index_begin as int,
            time_index_end as int,
            type_str@,
            remark@,
        ),
{
    let record = Record {
        date: String::from_str(date_str),
        time_index_begin,
        time_index_end,
        type_str: String::from_str(type_str),
        remark: String::from_str(remark),
    };
    generate_record_vec(&record)
}

/// The records one row contributes: the expansion of its time range,
/// or nothing when the range does not parse.
pub open spec fn records_of_row(date: Seq<char>, row: CsvRowView) -> Seq<RecordView> {
    if time_range_valid(row.time_str) {
        expanded_records(
            date,
            time_range_begin(row.time_str),
            time_range_end(row.time_str),
            row.type_str,
            row.remark,
        )
    } else {
        Seq::empty()
    }
}

/// The records a whole sequence of rows contributes, in row order.
pub open spec fn records_of_rows(date: Seq<char>, rows: Seq<CsvRowView>) -> Seq<RecordView>
    decreases rows.len(),
{
    if rows.len() == 0 {
        Seq::empty()
    } else {
        records_of_rows(date, rows.drop_last()) + records_of_row(date, rows.last())
    }
}

/// Turns the rows of one source unit into atomic records, all dated
/// `date_str`. A row whose time range does not parse is skipped, and
/// ingestion of the remaining rows continues.
pub fn generate_record_vec_by_rows(date_str: &str, rows: &Vec<CsvRow>) -> (r: Vec<Record>)
    ensures
        record_views(r@) == records_of_rows(date_str@, csv_row_views(rows@)),
{
    let mut out: Vec<Record> = Vec::new();
    proof {
        assert(csv_row_views(rows@.subrange(0, 0)) =~= Seq::<CsvRowView>::empty());
        assert(record_views(out@) =~= records_of_rows(
            date_str@,
            csv_row_views(rows@.subrange(0, 0)),
        ));
    }
    let n = rows.len();
    let mut i: usize = 0;
    while i < n
        invariant
            i <= n,
            n == rows@.len(),
            record_views(out@) == records_of_rows(date_str@, csv_row_views(rows@.subrange(0, i as int))),
        decreases n - i,
    {
        let row = &rows[i];
        match hhmmhhmm_to_time_index_range(row.time_str.as_str()) {
            Ok((begin, end)) => {
                let mut sub = generate_record_vec_by_csv_row(
                    date_str,
                    begin,
                    end,
                    row.type_str.as_str(),
                    row.remark.as_str(),
                );
                let ghost old_out = out@;
                let ghost sub_snap = sub@;
                out.append(&mut sub);
                proof {
                    assert(record_views(old_out + sub_snap) =~= record_views(old_out)
                        + record_views(sub_snap));
                }
            },
            Err(_) => {
                // The offending row is skipped; it contributes nothing.
            },
        }
        proof {
            let pre = csv_row_views(rows@.subrange(0, i as int));
            let post = csv_row_views(rows@.subrange(0, i + 1));
            assert(post.drop_last() =~= pre);
            assert(post.last() == rows@[i as int]@);
            assert(record_views(out@) =~= records_of_rows(date_str@, post));
        }
        i = i + 1;
    }
    proof {
        assert(rows@.subrange(0, n as int) =~= rows@);
    }
    out
}

/// The part of a path after its last `'/'`: the file name, or an empty
/// sequence for a path that ends in `'/'`.
pub open spec fn after_last_slash(p: Seq<char>) -> Seq<char>
    decreases p.len(),
{
    if p.len() == 0 {
        Seq::empty()
    } else if p.last() == '/' {
        Seq::empty()
    } else {
        after_last_slash(p.drop_last()).push(p.last())
    }
}

/// The date a source path denotes: its file name up to the first `'.'`
/// (the whole file name if it has none).
pub open spec fn date_of_path(p: Seq<char>) -> Seq<char> {
    let name = after_last_slash(p);
    name.subrange(0, find_char(name, '.'))
}

proof fn lemma_after_last_slash(p: Seq<char>, i: int)
    requires
        0 <= i <= p.len(),
        forall|j: int| i <= j < p.len() ==> p[j] != '/',
        i > 0 ==> p[i - 1] == '/',
    ensures
        after_last_slash(p) == p.subrange(i, p.len() as int),
    decreases p.len(),
{
    if i == p.len() {
        assert(p.subrange(i, p.len() as int) =~= Seq::<char>::empty());
    } else {
        assert(p.last() != '/');
        lemma_after_last_slash(p.drop_last(), i);
        assert(after_last_slash(p) =~= p.subrange(i, p.len() as int));
    }
}

/// Reads the date out of a source path: the file name after the last
/// `'/'`, cut at the first `'.'` (e.g. the stem of `"csv_data/2024-01-01.csv"`).
pub fn date_str_of_csv_path(csv_path: &str) -> (r: String)
    ensures
        r@ == date_of_path(csv_path@),
{
    let n = csv_path.unicode_len();
    let mut i = n;
    while i > 0 && csv_path.get_char(i - 1) != '/'
        invariant
            i <= n,
            n == csv_path@.len(),
            forall|j: int| i <= j < n ==> csv_path@[j] != '/',
        decreases i,
    {
        i = i - 1;
    }
    proof {
        lemma_after_last_slash(csv_path@, i as int);
    }
    let name = csv_path.substring_char(i, n);
    let d = find_char_in(name, '.');
    let stem = name.substring_char(0, d);
    proof {
        assert(stem@ =~= date_of_path(csv_path@));
    }
    String::from_str(stem)
}

} // verus!
