//! Streams of change events: how many there may be.

use crate::server::reply;
use crate::server::reply::{refuse, Reply};
use vstd::prelude::*;

verus! {

/// How many streams may be live at a time.
pub const MAX_STREAMS: u64 = 256;

/// The streams that are live.
pub struct Streams {
    live: u64,
}

impl View for Streams {
    type V = u64;

    closed spec fn view(&self) -> u64 {
        self.live
    }
}

impl Streams {
    pub open spec fn wf(&self) -> bool {
        self@ <= MAX_STREAMS
    }

    pub fn new() -> (s: Streams)
        ensures
            s.wf(),
            s@ == 0,
    {
        Streams { live: 0 }
    }

    /// Take a slot for a stream; where none is left the request is refused.
    pub fn connect(&mut self) -> (r: Result<(), Reply>)
        requires
            old(self).wf(),
        ensures
            final(self).wf(),
            if old(self)@ < MAX_STREAMS {
                r is Ok && final(self)@ == old(self)@ + 1
            } else {
                r matches Err(e) && e@ == reply::refusal(503, "too_many_streams"@) && final(self)@ == old(self)@
            },
    {
        if self.live >= MAX_STREAMS {
            return Err(refuse(503, "too_many_streams"));
        }
        self.live = self.live + 1;
        Ok(())
    }

    /// Give a slot back.
    pub fn release(&mut self)
        requires
            old(self).wf(),
            old(self)@ > 0,
        ensures
            final(self).wf(),
            final(self)@ == old(self)@ - 1,
    {
        self.live = self.live - 1;
    }

    /// How many streams are live.
    pub fn live(&self) -> (n: u64)
        ensures
            n == self@,
    {
        self.live
    }
}

} // verus!
