//! The surface that the user implements to observe the service.
use vstd::prelude::*;
use crate::control::ServiceContext;
use crate::event::{ProtocolEvent, ServiceError, ServiceEvent, SessionContext};

verus! {

/// The user's handle on the service: told of errors, of sessions and listens
/// opening and closing, and of the events of the protocols that ask for them.
/// Each method runs on the service's own task, so it must not block.
pub trait ServiceHandle {
    /// A runtime error.
    fn handle_error(&mut self, control: &mut ServiceContext, error: ServiceError) {
    }

    /// A session or listen event.
    fn handle_event(&mut self, control: &mut ServiceContext, event: ServiceEvent) {
    }

    /// An event of a protocol listed in the configuration's `event`.
    fn handle_proto(&mut self, control: &mut ServiceContext, event: ProtocolEvent) {
    }
}

impl ServiceHandle for () {
}

/// Takes over the read half `R` of a protocol substream once it is open; a
/// protocol has either this or callback handlers, never both.
pub trait ProtocolSpawn<R> {
    fn spawn(&self, context: &SessionContext, control: &mut ServiceContext, read_part: R);
}

} // verus!
