use vstd::prelude::*;
use crate::catalog::get_bridge;
use crate::recent::RecentResults;
use crate::response::ApiResponse;

verus! {

/// The path parameter naming a bridge.
pub struct BridgeQuery {
    pub bridge_id: String,
}

/// The message sent when a request names no known bridge.
pub const BRIDGE_NOT_FOUND: &'static str = "Bridge not found";

/// The bridge a request names, or the "Bridge not found" answer that every
/// handler sends when the catalogue has no such bridge.
pub fn bridge_or_not_found<T>(bridge_ids: &Vec<String>, bridge_id: &str) -> (res: Result<usize, ApiResponse<T>>)
    ensures
        match res {
            Ok(i) => {
                &&& i < bridge_ids.len()
                &&& bridge_ids[i as int]@ == bridge_id@
                &&& forall|j: int| 0 <= j < i ==> bridge_ids[j]@ != bridge_id@
            },
            Err(resp) => {
                &&& forall|j: int| 0 <= j < bridge_ids.len() ==> bridge_ids[j]@ != bridge_id@
                &&& !resp.success
                &&& resp.data.is_none()
                &&& resp.error matches Some(e) && e@ == BRIDGE_NOT_FOUND@
            },
        },
{
    match get_bridge(bridge_ids, bridge_id) {
        Some(i) => Ok(i),
        None => Err(ApiResponse::err(BRIDGE_NOT_FOUND)),
    }
}

/// Where the answer to a request for a bridge's latest evaluation comes from.
pub enum RecentSource<'a, V> {
    /// The evaluation last recorded for the bridge.
    Cached(&'a V),
    /// No evaluation is recorded: the bridge at this catalogue position is to
    /// be evaluated at the default conditions.
    Evaluate(usize),
    /// The bridge is neither recorded nor in the catalogue.
    Unknown,
}

/// Decides how to answer a request for the latest evaluation of bridge
/// `bridge_id`: the recorded one if there is one, else a fresh evaluation if
/// the catalogue knows the bridge, else "not found".
pub fn recent_result_source<'a, V>(
    cache: &'a RecentResults<V>,
    bridge_ids: &Vec<String>,
    bridge_id: &str,
) -> (res: RecentSource<'a, V>)
    ensures
        match res {
            RecentSource::Cached(v) => cache@.contains_key(bridge_id@) && *v == cache@[bridge_id@],
            RecentSource::Evaluate(i) => {
                &&& !cache@.contains_key(bridge_id@)
                &&& i < bridge_ids.len()
                &&& bridge_ids[i as int]@ == bridge_id@
                &&& forall|j: int| 0 <= j < i ==> bridge_ids[j]@ != bridge_id@
            },
            RecentSource::Unknown => {
                &&& !cache@.contains_key(bridge_id@)
                &&& forall|j: int| 0 <= j < bridge_ids.len() ==> bridge_ids[j]@ != bridge_id@
            },
        },
{
    match cache.get(bridge_id) {
        Some(v) => RecentSource::Cached(v),
        None => match get_bridge(bridge_ids, bridge_id) {
            Some(i) => RecentSource::Evaluate(i),
            None => RecentSource::Unknown,
        },
    }
}

/// How a sensor upload is answered once the store has taken its points.
pub enum UploadOutcome {
    /// The store failed: the answer is a server error carrying its message.
    StoreFailed(String),
    /// `written` points were stored for the catalogue's bridge at position
    /// `bridge`: it is evaluated, its alerts checked and its result recorded,
    /// and the answer carries the count and the result.
    Evaluate { written: usize, bridge: usize },
    /// `written` points were stored for a bridge the catalogue does not
    /// know: the answer carries the count alone.
    WrittenOnly { written: usize },
}

/// Decides how to answer a sensor upload for bridge `bridge_id`, given what
/// the store answered (`stored`).
pub fn upload_outcome(stored: Result<usize, String>, bridge_ids: &Vec<String>, bridge_id: &str) -> (res: UploadOutcome)
    ensures
        stored matches Err(e) ==> res == UploadOutcome::StoreFailed(e),
        stored matches Ok(n) ==> match res {
            UploadOutcome::Evaluate { written, bridge } => {
                &&& written == n
                &&& bridge < bridge_ids.len()
                &&& bridge_ids[bridge as int]@ == bridge_id@
                &&& forall|j: int| 0 <= j < bridge ==> bridge_ids[j]@ != bridge_id@
            },
            UploadOutcome::WrittenOnly { written } => {
                &&& written == n
                &&& forall|j: int| 0 <= j < bridge_ids.len() ==> bridge_ids[j]@ != bridge_id@
            },
            UploadOutcome::StoreFailed(_) => false,
        },
{
    match stored {
        Err(e) => UploadOutcome::StoreFailed(e),
        Ok(written) => match get_bridge(bridge_ids, bridge_id) {
            Some(bridge) => UploadOutcome::Evaluate { written, bridge },
            None => UploadOutcome::WrittenOnly { written },
        },
    }
}

} // verus!
