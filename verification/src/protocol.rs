use crate::delta::{Delta, OpView};
use vstd::prelude::*;

verus! {

/// The model of a request: the document it names, the revision it was built
/// against, and the delta to apply.
pub struct RequestView {
    pub path: Seq<char>,
    pub revision: nat,
    pub delta: Seq<OpView>,
}

/// A message sent to the remote peer. At most one `ApplyDelta` request per
/// document is outstanding at a time.
#[derive(Debug)]
pub enum Request {
    ApplyDelta(String, usize, Delta),
}

impl View for Request {
    type V = RequestView;

    open spec fn view(&self) -> RequestView {
        match self {
            Request::ApplyDelta(path, revision, delta) => RequestView {
                path: path@,
                revision: *revision as nat,
                delta: delta@,
            },
        }
    }
}

/// The remote peer rejected a request (for example, a stale revision). The
/// core does not retry: the caller is expected to resynchronize from a fresh
/// snapshot.
#[derive(Debug)]
pub struct RemoteRejection {
    pub reason: String,
}

impl Clone for RemoteRejection {
    fn clone(&self) -> (r: RemoteRejection)
        ensures
            r.reason@ == self.reason@,
    {
        RemoteRejection { reason: self.reason.clone() }
    }
}

/// The remote peer's answer to the oldest in-flight request.
#[derive(Debug)]
pub enum Response {
    ApplyDelta(Result<(), RemoteRejection>),
}

/// A message pushed by the remote peer whenever it accepts an edit from any
/// client. A client's own acknowledged edit arrives as a `Response`, never as
/// a notification.
#[derive(Debug)]
pub enum Notification {
    DeltaWasApplied(String, Delta),
}

} // verus!
