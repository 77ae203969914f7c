//! The service's run state: whether it runs forever, how many dial and listen
//! attempts are in flight, and whether a shutdown was asked for.
use vstd::prelude::*;

verus! {

/// Run state of the service.
#[derive(Clone, Copy, Debug, PartialEq, Eq, Structural)]
pub struct State {
    /// Keep running when there is nothing left to do.
    pub forever: bool,
    /// Dial and listen attempts in flight.
    pub pending: u32,
    /// A shutdown was asked for.
    pub shutdown: bool,
}

impl State {
    pub fn new(forever: bool) -> (r: State)
        ensures
            r == (State { forever, pending: 0, shutdown: false }),
    {
        State { forever, pending: 0, shutdown: false }
    }

    /// One more attempt in flight (the count stops at its largest value).
    pub fn increase(&mut self)
        ensures
            *final(self) == (State {
                pending: if old(self).pending < u32::MAX {
                    (old(self).pending + 1) as u32
                } else {
                    old(self).pending
                },
                ..*old(self)
            }),
    {
        if self.pending < u32::MAX {
            self.pending = self.pending + 1;
        }
    }

    /// One attempt fewer in flight (the count stops at zero).
    pub fn decrease(&mut self)
        ensures
            *final(self) == (State {
                pending: if old(self).pending > 0 {
                    (old(self).pending - 1) as u32
                } else {
                    0
                },
                ..*old(self)
            }),
    {
        if self.pending > 0 {
            self.pending = self.pending - 1;
        }
    }

    /// Marks that a shutdown was asked for.
    pub fn pre_shutdown(&mut self)
        ensures
            *final(self) == (State { shutdown: true, ..*old(self) }),
    {
        self.shutdown = true;
    }

    pub open spec fn spec_is_shutdown(&self) -> bool {
        self.shutdown || (!self.forever && self.pending == 0)
    }

    /// Whether the service may end once nothing else is open: a shutdown was
    /// asked for, or it does not run forever and no attempt is in flight.
    pub fn is_shutdown(&self) -> (r: bool)
        ensures
            r == self.spec_is_shutdown(),
    {
        self.shutdown || (!self.forever && self.pending == 0)
    }
}

} // verus!
