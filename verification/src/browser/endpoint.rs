//! A DevTools target as the browser's `/json/list` endpoint describes it.
use vstd::prelude::*;

verus! {

/// One page, worker or other target the browser exposes.
#[derive(Clone, Debug)]
pub struct Target {
    pub id: String,
    pub url: String,
    pub websocket_url: String,
    pub kind: String,
}

} // verus!
