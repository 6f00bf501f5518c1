//! Interaction dispatch for a device object model: each decoded interaction
//! (read, write, invoke, subscribe and their resumed forms) is routed to the
//! matching traversal of the model, every item passes an access check, and
//! the results are encoded into a bounded response buffer that records where
//! to resume when it fills up.

pub mod model;
pub mod tlv;
pub mod acl;
pub mod subscription;
pub mod interaction;
pub mod dispatch;
