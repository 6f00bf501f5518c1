use vstd::prelude::*;
use crate::acl::Session;
use crate::model::{ItemPath, PathFilter};

verus! {

/// An attribute read, or a resumed one when `resume_path` is set.
#[derive(Clone, Copy, Debug, PartialEq, Eq)]
pub struct ReadRequest {
    pub filter: PathFilter,
    pub resume_path: Option<ItemPath>,
}

/// An attribute write: `value` goes to every attribute that `filter` matches.
#[derive(Clone, Copy, Debug, PartialEq, Eq)]
pub struct WriteRequest {
    pub filter: PathFilter,
    pub value: u32,
}

/// A command invocation: `args` go to every command that `filter` matches.
#[derive(Clone, Copy, Debug, PartialEq, Eq)]
pub struct InvokeRequest {
    pub filter: PathFilter,
    pub args: u32,
}

/// A subscription, or a resumed one when `resume_path` is set.
#[derive(Clone, Copy, Debug, PartialEq, Eq)]
pub struct SubscribeRequest {
    pub filter: PathFilter,
    pub resume_path: Option<ItemPath>,
}

#[derive(Clone, Copy, Debug, PartialEq, Eq)]
pub struct TimedRequest {
    pub timeout_ms: u16,
}

/// One decoded interaction directed at the device model.
#[derive(Clone, Copy, Debug, PartialEq, Eq)]
pub enum Interaction {
    Read(ReadRequest),
    Write(WriteRequest),
    Invoke(InvokeRequest),
    Subscribe(SubscribeRequest),
    Timed(TimedRequest),
    ResumeRead(ReadRequest),
    ResumeSubscribe(SubscribeRequest),
}

/// The exchange that an interaction arrived on: its session, and where the
/// response left off when it did not fit.
pub struct Transaction {
    pub session: Session,
    pub resume_path: Option<ItemPath>,
}

impl Transaction {
    pub fn new(session: Session) -> (r: Transaction)
        ensures
            r.session == session,
            r.resume_path is None,
    {
        Transaction { session, resume_path: None }
    }

    pub fn session(&self) -> (r: &Session)
        ensures
            *r == self.session,
    {
        &self.session
    }

    /// Finishes the exchange: records the resume path and answers whether
    /// the response is complete.
    pub fn complete(&mut self, resume_path: Option<ItemPath>) -> (r: bool)
        ensures
            final(self).session == old(self).session,
            final(self).resume_path == resume_path,
            r == (resume_path is None),
    {
        self.resume_path = resume_path;
        resume_path.is_none()
    }
}

} // verus!
