use vstd::prelude::*;

verus! {

/// A request from a client, or from a leader to its follower.
#[derive(Debug)]
pub enum Request {
    Get { key: String },
    Put { key: String, value: String },
    Remove { key: String },
    Compact,
    Scan { start: String, end: String },
    /// A committed `Put`, forwarded by the leader.
    ReplicateSet { key: String, value: String },
    /// A committed `Remove`, forwarded by the leader.
    ReplicateRm { key: String },
}

/// The answer to one request.
#[derive(Debug)]
pub enum Response {
    /// Success, with the value found by a lookup, if any.
    Success(Option<String>),
    /// Failure, with its message.
    Failure(String),
    /// The entries of a range scan, in ascending key order.
    ScanResult(Vec<(String, String)>),
}

/// The role of a server, fixed when it starts.
#[derive(Debug, Clone, Copy, PartialEq, Eq, Structural)]
pub enum ServerRole {
    Leader,
    Follower,
}

/// A write that a client sends: gated on the leader role.
pub open spec fn is_client_write(req: Request) -> bool {
    match req {
        Request::Put { .. } | Request::Remove { .. } | Request::Compact => true,
        _ => false,
    }
}

/// The replicate-variant request that forwards a committed client write.
pub fn replication_request(req: &Request) -> (r: Option<Request>)
    ensures
        match req {
            Request::Put { key, value } => r matches Some(Request::ReplicateSet { key: k, value: v })
                && k@ == key@ && v@ == value@,
            Request::Remove { key } => r matches Some(Request::ReplicateRm { key: k }) && k@ == key@,
            _ => r is None,
        },
{
    match req {
        Request::Put { key, value } => Some(
            Request::ReplicateSet { key: key.clone(), value: value.clone() },
        ),
        Request::Remove { key } => Some(Request::ReplicateRm { key: key.clone() }),
        _ => None,
    }
}

} // verus!
