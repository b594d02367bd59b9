//! What a snapshot observes of a processor.

use crate::contract::context::{Produced, Tail};
use vstd::prelude::*;

verus! {

/// Block size used when driving snapshot cases.
pub const SNAPSHOT_BLOCK: usize = 128;

/// Which observable surface a snapshot hashes.
#[derive(Clone, Copy, Debug, PartialEq, Eq, Structural)]
pub enum Region {
    /// The process body only.
    Body,
    /// The process body followed by the drained tail.
    BodyFlush,
}

impl Region {
    /// The name of the region in a manifest.
    pub fn tag(self) -> (r: &'static str)
        ensures
            r@ == (match self {
                Region::Body => "body"@,
                Region::BodyFlush => "body+flush"@,
            }),
    {
        match self {
            Region::Body => "body",
            Region::BodyFlush => "body+flush",
        }
    }
}

/// What is wrong with how a processor drains.
#[derive(Clone, Copy, Debug, PartialEq, Eq, Structural)]
pub enum DrainFault {
    /// More frames were delivered than there was room for.
    Overrun,
    /// Nothing was delivered, and the drain is not done.
    Stalled,
    /// The declared tail was delivered, and the drain is not done.
    Unfinished,
}

/// The drain of a declared finite tail.
#[derive(Clone, Copy, Debug, PartialEq, Eq, Structural)]
pub struct Drain {
    /// Frames of the tail that have not been delivered.
    pub remaining: usize,
    /// The processor has reported the end, or has no tail.
    pub done: bool,
}

impl Drain {
    /// The drain of `tail`. An infinite tail has none.
    pub fn of(tail: Tail) -> (r: Option<Drain>)
        ensures
            r == (match tail {
                Tail::Absent => Some(Drain { remaining: 0, done: true }),
                Tail::Frames(frames) => Some(Drain { remaining: frames, done: frames == 0 }),
                Tail::Infinite => None,
            }),
    {
        match tail {
            Tail::Absent => Some(Drain { remaining: 0, done: true }),
            Tail::Frames(frames) => Some(Drain { remaining: frames, done: frames == 0 }),
            Tail::Infinite => None,
        }
    }

    /// The drain after a flush into `remaining` frames delivered `produced`.
    pub fn after(self, produced: Produced) -> (r: Result<Drain, DrainFault>)
        ensures
            r == (if produced.frames > self.remaining {
                Err::<Drain, DrainFault>(DrainFault::Overrun)
            } else if produced.done {
                Ok(Drain { remaining: (self.remaining - produced.frames) as usize, done: true })
            } else if produced.frames == 0 {
                Err(DrainFault::Stalled)
            } else if produced.frames == self.remaining {
                Err(DrainFault::Unfinished)
            } else {
                Ok(Drain { remaining: (self.remaining - produced.frames) as usize, done: false })
            }),
    {
        if produced.frames > self.remaining {
            return Err(DrainFault::Overrun);
        }
        let remaining: usize = self.remaining - produced.frames;
        if produced.done {
            return Ok(Drain { remaining, done: true });
        }
        if produced.frames == 0 {
            return Err(DrainFault::Stalled);
        }
        if remaining == 0 {
            return Err(DrainFault::Unfinished);
        }
        Ok(Drain { remaining, done: false })
    }
}

} // verus!
