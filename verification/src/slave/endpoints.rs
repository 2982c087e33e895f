use vstd::prelude::*;
use crate::slave::redundancy::Routes;

verus! {

/// The query of an update: a new value and a new time to live, each optional.
pub struct UpdateQuery {
    pub value: Option<String>,
    pub ttl: Option<usize>,
}

/// What the orchestrator tells a cache node when it takes it on.
pub struct CommMasterRequest {
    pub ip: String,
    pub port: u16,
    pub name: String,
}

/// Hands a node's name over to another route.
pub struct Handover {
    pub name: String,
    pub route: Routes,
}

/// A cache node's name and its virtual nodes on the hash ring.
pub struct Topo {
    pub name: String,
    pub vnodes: Vec<usize>,
}

} // verus!
