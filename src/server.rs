use vstd::prelude::*;
use crate::protocol::{Request, Response, ServerRole, is_client_write, replication_request};
use crate::store::{KvStore, StoreError, error_message, pairs_of};
use crate::command::CommandView;
use crate::record::{record_fits, record_bytes, put_of, log_of};
use crate::model::range_filter;

verus! {

/// The message of a write that a follower refuses.
pub open spec fn not_leader_message() -> Seq<char> {
    "write rejected: not leader"@
}

/// What the server does next for a request.
#[derive(Debug)]
pub enum Action {
    /// Answer at once; neither the index nor the log changes.
    Reply(Response),
    /// Append these bytes to the log and flush them, then `commit`.
    Append(Vec<u8>),
    /// Replace the log by these bytes atomically, then `commit`.
    Rewrite(Vec<u8>),
}

/// The requests that a server of this role applies to its store, through
/// its log.
pub open spec fn applies_write(role: ServerRole, req: Request) -> bool {
    match req {
        Request::Put { .. } | Request::Remove { .. } | Request::Compact => role
            == ServerRole::Leader,
        Request::ReplicateSet { .. } | Request::ReplicateRm { .. } => true,
        _ => false,
    }
}

/// `resp` is the answer to a request that needs no write: a lookup, a scan,
/// or a client write refused by a follower.
pub open spec fn answers(store: KvStore, role: ServerRole, req: Request, resp: Response) -> bool {
    match req {
        Request::Get { key } => match resp {
            Response::Success(Some(v)) => store@.contains_key(key@) && store@[key@] == v@,
            Response::Success(None) => !store@.contains_key(key@),
            _ => false,
        },
        Request::Scan { start, end } => match resp {
            Response::ScanResult(r) => pairs_of(r@) == range_filter(store.pairs(), start@, end@),
            _ => false,
        },
        _ => role == ServerRole::Follower && is_client_write(req) && match resp {
            Response::Failure(m) => m@ == not_leader_message(),
            _ => false,
        },
    }
}

/// `a` fails with the message of `e`.
pub open spec fn fails_with(a: Action, e: StoreError) -> bool {
    a matches Action::Reply(Response::Failure(m)) && m@ == error_message(e)
}

/// `a` logs the record of `c`, or fails where the record is too large.
pub open spec fn logs(a: Action, c: CommandView) -> bool {
    if record_fits(c) {
        a matches Action::Append(b) && b@ == record_bytes(c)
    } else {
        fails_with(a, StoreError::TooLarge)
    }
}

/// The action that `plan` chooses for a request.
pub open spec fn planned(store: KvStore, role: ServerRole, req: Request, a: Action) -> bool {
    if !applies_write(role, req) {
        a matches Action::Reply(resp) && answers(store, role, req, resp)
    } else {
        match req {
            Request::Put { key, value } => logs(a, CommandView::Put { key: key@, value: value@ }),
            Request::ReplicateSet { key, value } => logs(
                a,
                CommandView::Put { key: key@, value: value@ },
            ),
            Request::Remove { key } => if store@.contains_key(key@) {
                logs(a, CommandView::Remove { key: key@ })
            } else {
                fails_with(a, StoreError::NotFound)
            },
            Request::ReplicateRm { key } => if store@.contains_key(key@) {
                logs(a, CommandView::Remove { key: key@ })
            } else {
                fails_with(a, StoreError::NotFound)
            },
            Request::Compact => if forall|i: int|
                0 <= i < store.pairs().len() ==> record_fits(#[trigger] put_of(store.pairs()[i])) {
                a matches Action::Rewrite(b) && b@ == log_of(store.pairs())
            } else {
                fails_with(a, StoreError::TooLarge)
            },
            _ => false,
        }
    }
}

fn not_leader() -> (r: Response)
    ensures
        r matches Response::Failure(m) && m@ == not_leader_message(),
{
    Response::Failure("write rejected: not leader".to_owned())
}

/// The answer to a request that this role does not apply as a write.
fn answer(store: &KvStore, role: ServerRole, req: &Request) -> (r: Response)
    requires
        store.wf(),
        !applies_write(role, *req),
    ensures
        answers(*store, role, *req, r),
{
    match req {
        Request::Get { key } => Response::Success(store.get(key.clone())),
        Request::Scan { start, end } => Response::ScanResult(store.scan(start.clone(), end.clone())),
        _ => not_leader(),
    }
}

fn failure(e: StoreError) -> (r: Action)
    ensures
        fails_with(r, e),
{
    Action::Reply(Response::Failure(e.message()))
}

/// Decides what to do for one request: answer it, or write the log first.
pub fn plan(store: &KvStore, role: ServerRole, req: &Request) -> (a: Action)
    requires
        store.wf(),
    ensures
        planned(*store, role, *req, a),
{
    let write = match req {
        Request::Put { .. } | Request::Remove { .. } | Request::Compact => role == ServerRole::Leader,
        Request::ReplicateSet { .. } | Request::ReplicateRm { .. } => true,
        _ => false,
    };
    if !write {
        return Action::Reply(answer(store, role, req));
    }
    let rec = match req {
        Request::Put { key, value } => store.set_record(key, value),
        Request::ReplicateSet { key, value } => store.set_record(key, value),
        Request::Remove { key } => store.remove_record(key),
        Request::ReplicateRm { key } => store.remove_record(key),
        _ => {
            return match store.compact() {
                Ok(b) => Action::Rewrite(b),
                Err(e) => failure(e),
            };
        },
    };
    match rec {
        Ok(b) => Action::Append(b),
        Err(e) => failure(e),
    }
}

/// The outcome of a write that `plan` asked for, once the log write is done:
/// the response and the request to forward to the follower, if any.
pub open spec fn committed(
    old_store: KvStore,
    new_store: KvStore,
    role: ServerRole,
    req: Request,
    r: (Response, Option<Request>),
    has_follower: bool,
) -> bool {
    match req {
        Request::Put { key, value } => {
            &&& new_store@ == old_store@.insert(key@, value@)
            &&& r.0 matches Response::Success(None)
            &&& if has_follower {
                r.1 matches Some(Request::ReplicateSet { key: k, value: v }) && k@ == key@ && v@
                    == value@
            } else {
                r.1 is None
            }
        },
        Request::ReplicateSet { key, value } => {
            &&& new_store@ == old_store@.insert(key@, value@)
            &&& r.0 matches Response::Success(None)
            &&& r.1 is None
        },
        Request::Remove { key } => if old_store@.contains_key(key@) {
            &&& new_store@ == old_store@.remove(key@)
            &&& r.0 matches Response::Success(None)
            &&& if has_follower {
                r.1 matches Some(Request::ReplicateRm { key: k }) && k@ == key@
            } else {
                r.1 is None
            }
        } else {
            &&& new_store@ == old_store@
            &&& r.0 matches Response::Failure(m) && m@ == error_message(StoreError::NotFound)
            &&& r.1 is None
        },
        Request::ReplicateRm { key } => if old_store@.contains_key(key@) {
            &&& new_store@ == old_store@.remove(key@)
            &&& r.0 matches Response::Success(None)
            &&& r.1 is None
        } else {
            &&& new_store@ == old_store@
            &&& r.0 matches Response::Failure(m) && m@ == error_message(StoreError::NotFound)
            &&& r.1 is None
        },
        _ => {
            &&& new_store@ == old_store@
            &&& r.0 matches Response::Success(None)
            &&& r.1 is None
        },
    }
}

/// Finishes a request once the log write that `plan` asked for has been
/// attempted: `written` is its outcome. The index changes only after a
/// successful write; a failed one is reported with its message. A leader
/// with a follower forwards each committed client `Put` and `Remove`.
pub fn commit(
    store: &mut KvStore,
    role: ServerRole,
    req: Request,
    written: Result<(), String>,
    has_follower: bool,
) -> (r: (Response, Option<Request>))
    requires
        old(store).wf(),
    ensures
        final(store).wf(),
        !applies_write(role, req) ==> final(store)@ == old(store)@ && r.1 is None && answers(
            *old(store),
            role,
            req,
            r.0,
        ),
        applies_write(role, req) && written is Err ==> final(store)@ == old(store)@ && r.1 is None
            && (r.0 matches Response::Failure(m) && m@ == written->Err_0@),
        applies_write(role, req) && written is Ok ==> committed(
            *old(store),
            *final(store),
            role,
            req,
            r,
            has_follower,
        ),
{
    let write = match &req {
        Request::Put { .. } | Request::Remove { .. } | Request::Compact => role == ServerRole::Leader,
        Request::ReplicateSet { .. } | Request::ReplicateRm { .. } => true,
        _ => false,
    };
    if !write {
        return (answer(store, role, &req), None);
    }
    if let Err(msg) = written {
        return (Response::Failure(msg), None);
    }
    let forward = if has_follower && role == ServerRole::Leader {
        replication_request(&req)
    } else {
        None
    };
    match req {
        Request::Put { key, value } | Request::ReplicateSet { key, value } => {
            store.set(key, value);
            (Response::Success(None), forward)
        },
        Request::Remove { key } | Request::ReplicateRm { key } => match store.remove(key) {
            Ok(()) => (Response::Success(None), forward),
            Err(e) => (Response::Failure(e.message()), None),
        },
        _ => (Response::Success(None), None),
    }
}

/// Role gating: a follower answers every client write with a refusal and
/// asks for no log write, while it applies through its log the writes that
/// its leader forwards.
pub proof fn lemma_role_gating(
    store: KvStore,
    new_store: KvStore,
    req: Request,
    a: Action,
    r: (Response, Option<Request>),
    has_follower: bool,
)
    ensures
        planned(store, ServerRole::Follower, req, a) && is_client_write(req) ==> (a matches Action::Reply(
            Response::Failure(m),
        ) && m@ == not_leader_message()),
        applies_write(ServerRole::Follower, req) <==> (req is ReplicateSet || req is ReplicateRm),
        match req {
            Request::ReplicateSet { key, value } => committed(
                store,
                new_store,
                ServerRole::Follower,
                req,
                r,
                has_follower,
            ) ==> new_store@ == store@.insert(key@, value@) && r.0 matches Response::Success(None),
            Request::ReplicateRm { key } => committed(
                store,
                new_store,
                ServerRole::Follower,
                req,
                r,
                has_follower,
            ) && store@.contains_key(key@) ==> new_store@ == store@.remove(key@)
                && r.0 matches Response::Success(None),
            _ => true,
        },
{
}

} // verus!
