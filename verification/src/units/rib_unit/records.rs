//! Stored routes as they are handed out.
use crate::ingress::IngressId;
use crate::net::Prefix;
use crate::payload::{RotondaPaMap, RouteStatus};
use vstd::prelude::*;

verus! {

/// The route to a prefix that one source announced.
#[derive(Debug)]
pub struct RouteRecord {
    /// The source.
    pub multi_uniq_id: IngressId,
    /// The logical time of the last change.
    pub ltime: u64,
    pub status: RouteStatus,
    pub meta: RotondaPaMap,
}

impl Clone for RouteRecord {
    fn clone(&self) -> (copy: Self)
        ensures
            copy == *self,
    {
        RouteRecord {
            multi_uniq_id: self.multi_uniq_id,
            ltime: self.ltime,
            status: self.status,
            meta: self.meta.clone(),
        }
    }
}

/// The routes to a prefix.
#[derive(Debug)]
pub struct PrefixRecord {
    pub prefix: Prefix,
    pub meta: Vec<RouteRecord>,
}

} // verus!
