//! The decisions of one request.
//!
//! The caller performs the four upstream queries and hands their
//! outcomes in; this module decides what the request returns. A failed
//! metadata query degrades to an empty mapping, so every instance falls
//! under the sentinel node name; a failed metric query fails the whole
//! request, with no partial result.

use vstd::prelude::*;
use crate::aggregate::{
    aggregate_measurements, output_ok, temps_of, TemperatureMeasurement,
};
use crate::mapping::{blade_name_of, build_instance_node_map, mapping_of, names_of};
use crate::sample::MetricSample;
use crate::table::StrTable;
use crate::text::str_eq;

verus! {

/// What one upstream query came back as: a decoded reply, or nothing
/// (the backend unreachable, or its body undecodable).
pub enum QueryReply {
    Reply { status: String, rows: Vec<MetricSample> },
    Failed,
}

/// Why a query yields no result set.
#[derive(Debug, PartialEq, Eq)]
pub enum FetchError {
    /// The backend could not be reached or its body not decoded.
    NoReply,
    /// The reply's status field does not say "success".
    BadStatus,
}

/// The reply is decoded and reports success.
pub open spec fn reply_success(r: QueryReply) -> bool {
    match r {
        QueryReply::Reply { status, rows } => status@ == "success"@,
        QueryReply::Failed => false,
    }
}

/// The reply's result rows.
pub open spec fn reply_rows(r: QueryReply) -> Seq<MetricSample> {
    match r {
        QueryReply::Reply { status, rows } => rows@,
        QueryReply::Failed => Seq::empty(),
    }
}

/// Accepts one window's reply: the rows on success, the error
/// otherwise.
pub fn fetch_result(r: QueryReply) -> (res: Result<Vec<MetricSample>, FetchError>)
    ensures
        reply_success(r) ==> (res matches Ok(rows) && rows@ == reply_rows(r)),
        !reply_success(r) ==> (res matches Err(e) && ((e is NoReply) <==> (r is Failed))),
{
    match r {
        QueryReply::Reply { status, rows } => {
            if str_eq(status.as_str(), "success") {
                Ok(rows)
            } else {
                Err(FetchError::BadStatus)
            }
        },
        QueryReply::Failed => Err(FetchError::NoReply),
    }
}

/// Resolves the metadata reply into the instance-to-node table: the
/// mapping on success, the error otherwise.
pub fn metadata_mapping(r: QueryReply) -> (res: Result<StrTable<String>, FetchError>)
    ensures
        reply_success(r) ==> (res matches Ok(m) && m.wf() && names_of(m@) == mapping_of(
            reply_rows(r),
        )),
        !reply_success(r) ==> (res matches Err(e) && ((e is NoReply) <==> (r is Failed))),
{
    match fetch_result(r) {
        Ok(rows) => Ok(build_instance_node_map(&rows)),
        Err(e) => Err(e),
    }
}

/// The node mapping a request works with: the resolved mapping when the
/// metadata query succeeded, empty otherwise.
pub open spec fn effective_mapping(meta: QueryReply) -> Map<Seq<char>, Seq<char>> {
    if reply_success(meta) {
        mapping_of(reply_rows(meta))
    } else {
        Map::empty()
    }
}

/// With no mapping to go by, every record falls under the sentinel
/// node name; so a failed metadata query degrades every instance to
/// `unknown_blade` without failing the request.
pub proof fn lemma_empty_mapping_all_sentinel(
    out: Seq<TemperatureMeasurement>,
    mm: Map<Seq<char>, i64>,
    hm: Map<Seq<char>, i64>,
    dm: Map<Seq<char>, i64>,
    a: int,
)
    requires
        output_ok(out, mm, hm, dm, Map::empty()),
        0 <= a < out.len(),
    ensures
        out[a].node@ == "unknown_blade"@,
{
    let k = choose|k: Seq<char>|
        #[trigger] mm.contains_key(k) && blade_name_of(k, Map::empty()) == out[a].node@;
    assert(blade_name_of(k, Map::empty()) == "unknown_blade"@);
}

/// One request's computation: resolve the mapping (a metadata failure
/// is not fatal), demand all three window replies, aggregate.
pub fn get_temperatures(
    meta: QueryReply,
    minutely: QueryReply,
    hourly: QueryReply,
    daily: QueryReply,
) -> (res: Result<Vec<TemperatureMeasurement>, FetchError>)
    ensures
        (res is Ok) == (reply_success(minutely) && reply_success(hourly) && reply_success(daily)),
        res matches Ok(out) ==> output_ok(
            out@,
            temps_of(reply_rows(minutely)),
            temps_of(reply_rows(hourly)),
            temps_of(reply_rows(daily)),
            effective_mapping(meta),
        ),
        res matches Err(e) ==> ((e is NoReply) <==> (if !reply_success(minutely) {
            minutely is Failed
        } else if !reply_success(hourly) {
            hourly is Failed
        } else {
            daily is Failed
        })),
{
    let ghost gmeta = meta;
    let ip_to_node_map = match metadata_mapping(meta) {
        Ok(m) => m,
        Err(_) => StrTable::new(),
    };
    proof {
        if !reply_success(gmeta) {
            assert(names_of(ip_to_node_map@) =~= effective_mapping(gmeta));
        }
    }
    let min_rows = match fetch_result(minutely) {
        Ok(rows) => rows,
        Err(e) => {
            return Err(e);
        },
    };
    let hour_rows = match fetch_result(hourly) {
        Ok(rows) => rows,
        Err(e) => {
            return Err(e);
        },
    };
    let day_rows = match fetch_result(daily) {
        Ok(rows) => rows,
        Err(e) => {
            return Err(e);
        },
    };
    Ok(aggregate_measurements(&min_rows, &hour_rows, &day_rows, &ip_to_node_map))
}

} // verus!
