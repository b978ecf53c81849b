//! The slot store: keyed storage of atomic slot records with an
//! idempotent upsert and two read queries.
//!
//! A record's primary key is the triple `(date, time_index_begin,
//! time_index_end)`; writing a key that is already present replaces the
//! prior row, which is what makes re-ingesting a source file
//! idempotent. Records are kept ordered for listing: by date
//! descending, then by slot end descending. The store's contracts speak
//! of the finite map its rows denote.

use vstd::prelude::*;

use crate::assoc::{lemma_map_of_insert_fresh, lemma_map_of_update, map_of};
use crate::record::{record_views, Record, RecordView};
use crate::text::{
    lemma_lex_lt_transitive, lemma_lex_total, lex_le, lex_lt, str_lex_le, str_lex_lt,
};

verus! {

/// The primary key of a persisted record.
pub open spec fn record_key(r: RecordView) -> (Seq<char>, u32, u32) {
    (r.date, r.time_index_begin, r.time_index_end)
}

/// What a record stores under its key.
pub open spec fn record_val(r: RecordView) -> (Seq<char>, Seq<char>) {
    (r.type_str, r.remark)
}

pub open spec fn record_entry(r: RecordView) -> (
    (Seq<char>, u32, u32),
    (Seq<char>, Seq<char>),
) {
    (record_key(r), record_val(r))
}

pub open spec fn record_entries(s: Seq<RecordView>) -> Seq<
    ((Seq<char>, u32, u32), (Seq<char>, Seq<char>)),
> {
    s.map_values(|r: RecordView| record_entry(r))
}

/// The finite map a sequence of records denotes, keyed by
/// `record_key`; on a repeated key the later record wins.
pub open spec fn slot_map_of(s: Seq<RecordView>) -> Map<
    (Seq<char>, u32, u32),
    (Seq<char>, Seq<char>),
> {
    map_of(record_entries(s))
}

/// Listing order: by date descending, then by slot end descending.
/// `a` may stand before `b` in a listing.
pub open spec fn comes_before_eq(a: RecordView, b: RecordView) -> bool {
    lex_lt(b.date, a.date) || (a.date == b.date && a.time_index_end >= b.time_index_end)
}

pub open spec fn sorted_for_listing(s: Seq<RecordView>) -> bool {
    forall|i: int, j: int|
        0 <= i < j < s.len() ==> comes_before_eq(#[trigger] s[i], #[trigger] s[j])
}

pub open spec fn unique_record_keys(s: Seq<RecordView>) -> bool {
    forall|i: int, j: int|
        0 <= i < j < s.len() ==> record_key(#[trigger] s[i]) != record_key(#[trigger] s[j])
}

/// `d` lies between `begin` and `end` inclusive, lexicographically —
/// for ISO dates, chronologically.
pub open spec fn date_in_range(d: Seq<char>, begin: Seq<char>, end: Seq<char>) -> bool {
    lex_le(begin, d) && lex_le(d, end)
}

proof fn lemma_comes_before_eq_total(a: RecordView, b: RecordView)
    ensures
        comes_before_eq(a, b) || comes_before_eq(b, a),
{
    lemma_lex_total(a.date, b.date);
}

proof fn lemma_comes_before_eq_trans(a: RecordView, b: RecordView, c: RecordView)
    requires
        comes_before_eq(a, b),
        comes_before_eq(b, c),
    ensures
        comes_before_eq(a, c),
{
    if lex_lt(b.date, a.date) && lex_lt(c.date, b.date) {
        lemma_lex_lt_transitive(c.date, b.date, a.date);
    }
}

/// In-memory slot storage with the persistent store's contract: an
/// upsert keyed by `(date, slot begin, slot end)` and ordered reads.
pub struct SlotStore {
    records: Vec<Record>,
}

impl View for SlotStore {
    type V = Seq<RecordView>;

    closed spec fn view(&self) -> Seq<RecordView> {
        record_views(self.records@)
    }
}

impl SlotStore {
    /// Rows are listing-ordered and no key repeats.
    pub open spec fn wf(&self) -> bool {
        &&& sorted_for_listing(self@)
        &&& unique_record_keys(self@)
    }

    /// The map this store holds: each present key to its category and
    /// remark.
    pub open spec fn store_map(&self) -> Map<(Seq<char>, u32, u32), (Seq<char>, Seq<char>)> {
        slot_map_of(self@)
    }

    /// A fresh, empty store.
    pub fn new() -> (s: SlotStore)
        ensures
            s.wf(),
            s@ == Seq::<RecordView>::empty(),
            s.store_map() == Map::<(Seq<char>, u32, u32), (Seq<char>, Seq<char>)>::empty(),
    {
        let s = SlotStore { records: Vec::new() };
        proof {
            assert(s@ =~= Seq::<RecordView>::empty());
            assert(record_entries(s@) =~= Seq::<
                ((Seq<char>, u32, u32), (Seq<char>, Seq<char>)),
            >::empty());
        }
        s
    }

    /// Writes or replaces the single record under its key: afterwards
    /// the store holds exactly the old map with this record's key bound
    /// to its category and remark.
    pub fn insert_record(&mut self, record: &Record)
        requires
            old(self).wf(),
        ensures
            final(self).wf(),
            final(self).store_map() == old(self).store_map().insert(
                record_key(record@),
                record_val(record@),
            ),
    {
        let ghost s = self@;
        let ghost rv = record@;
        let n = self.records.len();
        let k = find_key_index(&self.records, record);
        if k < n {
            // Same key on file: replace that row in place.
            self.records.remove(k);
            self.records.insert(k, record.clone());
            proof {
                assert(self@ =~= s.update(k as int, rv));
                let s2 = s.update(k as int, rv);
                assert(record_key(s[k as int]) == record_key(rv));
                assert(rv.date == s[k as int].date);
                assert(rv.time_index_end == s[k as int].time_index_end);
                assert(forall|i: int|
                    0 <= i < s2.len() ==> record_key(#[trigger] s2[i]) == record_key(s[i]));
                assert forall|i: int, j: int| 0 <= i < j < s2.len() implies comes_before_eq(
                    #[trigger] s2[i],
                    #[trigger] s2[j],
                ) by {
                    assert(comes_before_eq(s[i], s[j]));
                }
                assert(record_entries(s2) =~= record_entries(s).update(
                    k as int,
                    record_entry(rv),
                ));
                assert(forall|i: int|
                    k < i < s.len() ==> record_key(#[trigger] s[i]) != record_key(rv));
                lemma_map_of_update(record_entries(s), k as int, record_entry(rv));
            }
        } else {
            // New key: insert at its place in the listing order.
            let p = find_insert_pos(&self.records, record);
            self.records.insert(p, record.clone());
            proof {
                assert(self@ =~= s.insert(p as int, rv));
                let s2 = s.insert(p as int, rv);
                assert(forall|x: int| 0 <= x < p ==> s2[x] == s[x]);
                assert(s2[p as int] == rv);
                assert(forall|x: int| p < x < s2.len() ==> s2[x] == s[x - 1]);
                assert forall|i: int, j: int| 0 <= i < j < s2.len() implies comes_before_eq(
                    #[trigger] s2[i],
                    #[trigger] s2[j],
                ) by {
                    if i == p {
                        if j == p + 1 {
                            assert(comes_before_eq(rv, s[p as int]));
                        } else {
                            lemma_comes_before_eq_trans(rv, s[p as int], s[j - 1]);
                        }
                    }
                }
                assert(forall|i: int|
                    0 <= i < s.len() ==> record_key(#[trigger] s[i]) != record_key(rv));
                assert forall|i: int, j: int| 0 <= i < j < s2.len() implies record_key(
                    #[trigger] s2[i],
                ) != record_key(#[trigger] s2[j]) by {
                    if i != p && j != p {
                        if j < p {
                            assert(record_key(s[i]) != record_key(s[j]));
                        } else if i > p {
                            assert(record_key(s[i - 1]) != record_key(s[j - 1]));
                        } else {
                            assert(record_key(s[i]) != record_key(s[j - 1]));
                        }
                    }
                }
                assert(record_entries(s2) =~= record_entries(s).insert(
                    p as int,
                    record_entry(rv),
                ));
                lemma_map_of_insert_fresh(record_entries(s), p as int, record_entry(rv));
            }
        }
    }

    /// Applies [`SlotStore::insert_record`] to each record in input
    /// order.
    pub fn insert_record_list(&mut self, record_vec: &Vec<Record>)
        requires
            old(self).wf(),
        ensures
            final(self).wf(),
            final(self).store_map() == upsert_all(
                old(self).store_map(),
                record_views(record_vec@),
            ),
    {
        let ghost m0 = self.store_map();
        let n = record_vec.len();
        let mut i: usize = 0;
        proof {
            assert(record_views(record_vec@.subrange(0, 0)) =~= Seq::<RecordView>::empty());
        }
        while i < n
            invariant
                i <= n,
                n == record_vec@.len(),
                self.wf(),
                self.store_map() == upsert_all(
                    m0,
                    record_views(record_vec@.subrange(0, i as int)),
                ),
            decreases n - i,
        {
            self.insert_record(&record_vec[i]);
            proof {
                let pre = record_views(record_vec@.subrange(0, i as int));
                let post = record_views(record_vec@.subrange(0, i + 1));
                assert(post.drop_last() =~= pre);
                assert(post.last() == record_vec@[i as int]@);
            }
            i = i + 1;
        }
        proof {
            assert(record_vec@.subrange(0, n as int) =~= record_vec@);
        }
    }

    /// All records on file, in listing order: date descending, then
    /// slot end descending.
    pub fn get_record_list(&self) -> (r: Vec<Record>)
        ensures
            record_views(r@) == self@,
    {
        let n = self.records.len();
        let mut out: Vec<Record> = Vec::new();
        let mut i: usize = 0;
        while i < n
            invariant
                i <= n,
                n == self.records@.len(),
                out@.len() == i,
                forall|j: int| 0 <= j < i ==> #[trigger] out@[j]@ == self.records@[j]@,
            decreases n - i,
        {
            out.push(self.records[i].clone());
            i = i + 1;
        }
        proof {
            assert(record_views(out@) =~= self@);
        }
        out
    }

    /// The records whose date lies between `date_begin` and `date_end`
    /// inclusive, in listing order.
    pub fn search_record(&self, date_begin: &str, date_end: &str) -> (r: Vec<Record>)
        ensures
            record_views(r@) == self@.filter(
                |rv: RecordView| date_in_range(rv.date, date_begin@, date_end@),
            ),
            self.wf() ==> sorted_for_listing(record_views(r@)),
    {
        let ghost pred = |rv: RecordView| date_in_range(rv.date, date_begin@, date_end@);
        let n = self.records.len();
        let mut out: Vec<Record> = Vec::new();
        let mut i: usize = 0;
        proof {
            reveal(Seq::filter);
            assert(record_views(out@) =~= self@.subrange(0, 0).filter(pred));
        }
        while i < n
            invariant
                i <= n,
                n == self.records@.len(),
                pred == (|rv: RecordView| date_in_range(rv.date, date_begin@, date_end@)),
                record_views(out@) == self@.subrange(0, i as int).filter(pred),
            decreases n - i,
        {
            let rec = &self.records[i];
            let ghost old_out = out@;
            let in_range = str_lex_le(date_begin, rec.date.as_str()) && str_lex_le(
                rec.date.as_str(),
                date_end,
            );
            if in_range {
                out.push(rec.clone());
            }
            proof {
                reveal(Seq::filter);
                let pre = self@.subrange(0, i as int);
                let post = self@.subrange(0, i + 1);
                assert(post.drop_last() =~= pre);
                assert(post.last() == self.records@[i as int]@);
                assert(in_range == pred(post.last()));
                if in_range {
                    assert(record_views(out@) =~= record_views(old_out).push(
                        self.records@[i as int]@,
                    ));
                }
                assert(record_views(out@) =~= post.filter(pred));
            }
            i = i + 1;
        }
        proof {
            assert(self@.subrange(0, n as int) =~= self@);
            if self.wf() {
                lemma_filter_keeps_listing_order(self@, pred);
            }
        }
        out
    }
}

/// First row whose key equals `record`'s, or the length when the key is
/// not on file.
fn find_key_index(records: &Vec<Record>, record: &Record) -> (r: usize)
    ensures
        r <= records@.len(),
        r < records@.len() ==> record_key(records@[r as int]@) == record_key(record@),
        forall|j: int| 0 <= j < r ==> record_key(#[trigger] records@[j]@) != record_key(record@),
{
    let n = records.len();
    let mut idx: usize = 0;
    while idx < n
        invariant
            idx <= n,
            n == records@.len(),
            forall|j: int|
                0 <= j < idx ==> record_key(#[trigger] records@[j]@) != record_key(record@),
        decreases n - idx,
    {
        let row = &records[idx];
        if row.date == record.date && row.time_index_begin == record.time_index_begin
            && row.time_index_end == record.time_index_end {
            return idx;
        }
        idx = idx + 1;
    }
    idx
}

/// First position where `record` may stand in listing order: every row
/// before it comes before the record, and the record comes before the
/// row at the position, if any.
fn find_insert_pos(records: &Vec<Record>, record: &Record) -> (r: usize)
    ensures
        r <= records@.len(),
        forall|j: int| 0 <= j < r ==> comes_before_eq(#[trigger] records@[j]@, record@),
        r < records@.len() ==> comes_before_eq(record@, records@[r as int]@),
{
    let n = records.len();
    let mut idx: usize = 0;
    while idx < n
        invariant
            idx <= n,
            n == records@.len(),
            forall|j: int| 0 <= j < idx ==> comes_before_eq(#[trigger] records@[j]@, record@),
        decreases n - idx,
    {
        let row = &records[idx];
        let stop = if str_lex_lt(row.date.as_str(), record.date.as_str()) {
            true
        } else if record.date == row.date {
            record.time_index_end >= row.time_index_end
        } else {
            false
        };
        if stop {
            return idx;
        }
        proof {
            lemma_comes_before_eq_total(record@, records@[idx as int]@);
        }
        idx = idx + 1;
    }
    idx
}

/// Filtering keeps the listing order: any selection of listing-ordered
/// rows is itself listing-ordered.
pub proof fn lemma_filter_keeps_listing_order(
    s: Seq<RecordView>,
    pred: spec_fn(RecordView) -> bool,
)
    requires
        sorted_for_listing(s),
    ensures
        sorted_for_listing(s.filter(pred)),
        forall|i: int| 0 <= i < s.filter(pred).len() ==> s.contains(#[trigger] s.filter(pred)[i]),
    decreases s.len(),
{
    reveal(Seq::filter);
    if s.len() > 0 {
        let t = s.drop_last();
        let f = t.filter(pred);
        let out = s.filter(pred);
        assert(sorted_for_listing(t));
        lemma_filter_keeps_listing_order(t, pred);
        assert forall|i: int| 0 <= i < out.len() implies s.contains(#[trigger] out[i]) by {
            if pred(s.last()) && i == out.len() - 1 {
                assert(out[i] == s[s.len() - 1]);
            } else {
                assert(out[i] == f[i]);
                assert(t.contains(f[i]));
                let j = choose|j: int| 0 <= j < t.len() && t[j] == f[i];
                assert(s[j] == out[i]);
            }
        }
        if pred(s.last()) {
            assert forall|i: int, j: int| 0 <= i < j < out.len() implies comes_before_eq(
                #[trigger] out[i],
                #[trigger] out[j],
            ) by {
                if j == out.len() - 1 {
                    assert(t.contains(f[i]));
                    let jj = choose|jj: int| 0 <= jj < t.len() && t[jj] == f[i];
                    assert(comes_before_eq(s[jj], s[s.len() - 1]));
                } else {
                    assert(comes_before_eq(f[i], f[j]));
                }
            }
        }
    }
}

/// The map after upserting a batch of records in order.
pub open spec fn upsert_all(
    m: Map<(Seq<char>, u32, u32), (Seq<char>, Seq<char>)>,
    rs: Seq<RecordView>,
) -> Map<(Seq<char>, u32, u32), (Seq<char>, Seq<char>)>
    decreases rs.len(),
{
    if rs.len() == 0 {
        m
    } else {
        upsert_all(m, rs.drop_last()).insert(record_key(rs.last()), record_val(rs.last()))
    }
}

/// Index of the last record in `rs` with key `k`, or `-1`.
pub open spec fn last_with_key(rs: Seq<RecordView>, k: (Seq<char>, u32, u32)) -> int
    decreases rs.len(),
{
    if rs.len() == 0 {
        -1
    } else if record_key(rs.last()) == k {
        rs.len() - 1
    } else {
        last_with_key(rs.drop_last(), k)
    }
}

pub proof fn lemma_last_with_key_bounds(rs: Seq<RecordView>, k: (Seq<char>, u32, u32))
    ensures
        -1 <= last_with_key(rs, k) < rs.len(),
        last_with_key(rs, k) >= 0 ==> record_key(rs[last_with_key(rs, k)]) == k,
    decreases rs.len(),
{
    if rs.len() > 0 && record_key(rs.last()) != k {
        lemma_last_with_key_bounds(rs.drop_last(), k);
    }
}

/// What `upsert_all` leaves at one key: the value of the last batch
/// record with that key, or what the map held before if the batch never
/// writes it.
pub proof fn lemma_upsert_all_at(
    m: Map<(Seq<char>, u32, u32), (Seq<char>, Seq<char>)>,
    rs: Seq<RecordView>,
    k: (Seq<char>, u32, u32),
)
    ensures
        upsert_all(m, rs).contains_key(k) <==> (m.contains_key(k) || last_with_key(rs, k) >= 0),
        last_with_key(rs, k) >= 0 ==> upsert_all(m, rs)[k] == record_val(
            rs[last_with_key(rs, k)],
        ),
        last_with_key(rs, k) < 0 && m.contains_key(k) ==> upsert_all(m, rs)[k] == m[k],
    decreases rs.len(),
{
    if rs.len() > 0 {
        lemma_upsert_all_at(m, rs.drop_last(), k);
        if record_key(rs.last()) != k {
            let lw = last_with_key(rs.drop_last(), k);
            lemma_last_with_key_bounds(rs.drop_last(), k);
            if lw >= 0 {
                assert(rs.drop_last()[lw] == rs[lw]);
            }
        }
    }
}

/// Upserting the same batch twice leaves exactly the rows one pass
/// leaves: the upsert path is idempotent, with no duplicates and no
/// growth.
pub proof fn lemma_upsert_all_idempotent(
    m: Map<(Seq<char>, u32, u32), (Seq<char>, Seq<char>)>,
    rs: Seq<RecordView>,
)
    ensures
        upsert_all(upsert_all(m, rs), rs) == upsert_all(m, rs),
{
    let m1 = upsert_all(m, rs);
    let m2 = upsert_all(m1, rs);
    assert forall|k: (Seq<char>, u32, u32)| #[trigger]
        m2.contains_key(k) == m1.contains_key(k) && (m1.contains_key(k) ==> m2[k] == m1[k]) by {
        lemma_upsert_all_at(m, rs, k);
        lemma_upsert_all_at(m1, rs, k);
    }
    assert(m2 =~= m1);
}

} // verus!
