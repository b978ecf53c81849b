//! The mutating endpoint's core and the HTTP-facing value types: what
//! each handler decides once the surrounding server has turned the
//! request into plain values.

use vstd::prelude::*;

use crate::gate::{
    check_admin_token_error_count, gate_decision, gate_next, token_view, AppState, GateError,
};
use crate::record::{expanded_records, generate_record_vec, record_views, Record, RecordView};
use crate::record::{csv_row_views, generate_record_vec_by_rows, records_of_rows, CsvRow};
use crate::store::{date_in_range, sorted_for_listing, upsert_all, SlotStore};

verus! {

/// A date-range query: both bounds inclusive, as ISO date strings.
#[derive(Debug)]
pub struct SearchForm {
    pub date_begin: String,
    pub date_end: String,
}

impl GateError {
    /// The HTTP status a gate outcome maps to: 403 once banned,
    /// otherwise 400.
    pub fn status_code(&self) -> (r: u16)
        ensures
            self is Banned ==> r == 403,
            !(self is Banned) ==> r == 400,
    {
        match self {
            GateError::Banned => 403,
            GateError::AuthMissing => 400,
            GateError::AuthInvalid => 400,
        }
    }

    /// The response message for a gate outcome.
    pub fn message(&self, client_ip: &String) -> (r: String)
        ensures
            self is Banned ==> r@ == "This ip has been banned: "@ + client_ip@,
            self is AuthMissing ==> r@ == "admin_token missing"@,
            self is AuthInvalid ==> r@ == "admin_token invalid"@,
    {
        match self {
            GateError::Banned => {
                let mut s = String::from_str("This ip has been banned: ");
                s.append(client_ip.as_str());
                s
            },
            GateError::AuthMissing => String::from_str("admin_token missing"),
            GateError::AuthInvalid => String::from_str("admin_token invalid"),
        }
    }
}

/// The create endpoint's core: one mutating request, already reduced to
/// plain values. The admin gate runs first and counts a failed token
/// check as a strike; only when it passes is the interval expanded and
/// upserted, and the expanded records are the success response. The
/// request passes exactly when the client is not banned and the token
/// equals the secret.
pub fn record_create(
    state: &mut AppState,
    store: &mut SlotStore,
    client_ip: &String,
    admin_token_from_request: Option<&String>,
    admin_token: &String,
    record: &Record,
) -> (r: Result<Vec<Record>, GateError>)
    requires
        old(state).wf(),
        old(store).wf(),
    ensures
        final(state).wf(),
        final(store).wf(),
        final(state)@ == gate_next(
            old(state)@,
            client_ip@,
            token_view(admin_token_from_request),
            admin_token@,
        ),
        ({
            let decision = gate_decision(
                old(state)@,
                client_ip@,
                token_view(admin_token_from_request),
                admin_token@,
            );
            match r {
                Ok(records) => {
                    &&& decision is Ok
                    &&& record_views(records@) == expanded_records(
                        record@.date,
                        record.time_index_begin as int,
                        record.time_index_end as int,
                        record@.type_str,
                        record@.remark,
                    )
                    &&& final(store).store_map() == upsert_all(
                        old(store).store_map(),
                        record_views(records@),
                    )
                },
                Err(e) => {
                    &&& decision == Err::<(), GateError>(e)
                    &&& *final(store) == *old(store)
                },
            }
        }),
{
    match check_admin_token_error_count(state, client_ip, admin_token_from_request, admin_token) {
        Err(e) => Err(e),
        Ok(_) => {
            let records = generate_record_vec(record);
            store.insert_record_list(&records);
            Ok(records)
        },
    }
}

/// The search endpoint's core: the stored records whose date lies in
/// the form's inclusive range, in listing order.
pub fn record_search(store: &SlotStore, form: &SearchForm) -> (r: Vec<Record>)
    ensures
        record_views(r@) == store@.filter(
            |rv: RecordView| date_in_range(rv.date, form.date_begin@, form.date_end@),
        ),
        store.wf() ==> sorted_for_listing(record_views(r@)),
{
    store.search_record(form.date_begin.as_str(), form.date_end.as_str())
}

/// Ingests the rows of one source unit dated `date_str`: rows whose
/// time range does not parse are skipped, the rest are expanded and
/// upserted in order.
pub fn insert_by_csv_rows(store: &mut SlotStore, date_str: &str, rows: &Vec<CsvRow>)
    requires
        old(store).wf(),
    ensures
        final(store).wf(),
        final(store).store_map() == upsert_all(
            old(store).store_map(),
            records_of_rows(date_str@, csv_row_views(rows@)),
        ),
{
    let records = generate_record_vec_by_rows(date_str, rows);
    store.insert_record_list(&records);
}

} // verus!
