//! Deterministic in-memory collaborators: a scripted transport and a
//! stepping clock.
//!
//! These let the polling and framing logic run without a physical bus or
//! real sleeps: the transport answers reads from a queue of scripted
//! responses and records every write, and the clock advances by a fixed
//! step per reading and by exactly the requested amount per sleep.

use vstd::prelude::*;

use crate::Error;
use crate::bus::{BusOp, Clock, Transport};

verus! {

/// Transport double that answers reads from a script.
///
/// Writes always succeed and are recorded in `writes`.  Each read consumes
/// the next queued response, whatever length it has; a read past the end of
/// the script fails like a transport fault.
pub struct ScriptedTransport {
    /// Responses still to be served, oldest first.
    pub responses: Vec<Vec<u8>>,
    /// Every byte string written so far, oldest first.
    pub writes: Vec<Vec<u8>>,
    /// The ghost operation history.
    pub hist: Ghost<Seq<BusOp>>,
}

impl ScriptedTransport {
    /// A transport with no scripted responses: writes succeed, any read
    /// fails.
    pub fn new() -> (r: ScriptedTransport)
        ensures
            r.log() == Seq::<BusOp>::empty(),
            r.responses@.len() == 0,
            r.writes@.len() == 0,
    {
        ScriptedTransport {
            responses: Vec::new(),
            writes: Vec::new(),
            hist: Ghost(Seq::empty()),
        }
    }

    /// Queue one more response for a future read.
    pub fn queue_response(&mut self, bytes: Vec<u8>)
        ensures
            final(self).responses@ == old(self).responses@.push(bytes),
            final(self).writes@ == old(self).writes@,
            final(self).log() == old(self).log(),
    {
        self.responses.push(bytes);
    }
}

impl Transport for ScriptedTransport {
    open spec fn log(&self) -> Seq<BusOp> {
        self.hist@
    }

    fn write(&mut self, data: &[u8]) -> (r: Result<(), Error>)
        ensures
            r is Ok ==> final(self).log() == old(self).log().push(BusOp::Write(data@)),
            r is Err ==> r == Err::<(), Error>(Error::IoError)
                && final(self).log() == old(self).log(),
            r is Ok,
            final(self).responses@ == old(self).responses@,
            final(self).writes@.len() == old(self).writes@.len() + 1,
            final(self).writes@.last()@ == data@,
            forall|i: int|
                0 <= i < old(self).writes@.len() ==> final(self).writes@[i] == old(
                    self,
                ).writes@[i],
    {
        let copy = crate::bus::copy_bytes(data);
        self.writes.push(copy);
        proof {
            self.hist@ = self.hist@.push(BusOp::Write(data@));
        }
        Ok(())
    }

    fn read(&mut self, len: usize) -> (r: Result<Vec<u8>, Error>)
        ensures
            r matches Ok(b) ==> final(self).log() == old(self).log().push(BusOp::Read(b@)),
            r is Err ==> r == Err::<Vec<u8>, Error>(Error::IoError)
                && final(self).log() == old(self).log(),
            final(self).writes@ == old(self).writes@,
            r matches Ok(b) ==> old(self).responses@.len() > 0 && b == old(self).responses@[0]
                && final(self).responses@ == old(self).responses@.skip(1),
            r is Err ==> old(self).responses@.len() == 0
                && final(self).responses@ == old(self).responses@,
    {
        if self.responses.len() == 0 {
            return Err(Error::IoError);
        }
        let b = self.responses.remove(0);
        proof {
            self.hist@ = self.hist@.push(BusOp::Read(b@));
        }
        Ok(b)
    }
}

/// Clock double.
///
/// Each reading first advances the counter by `step` (at least one
/// millisecond), simulating time spent between readings; each sleep
/// advances it by exactly the requested amount.  Both saturate at the
/// counter's ceiling.
pub struct SteppingClock {
    /// The current reading, in milliseconds.
    pub t: u64,
    /// How far one `now` reading advances the counter.
    pub step: u64,
}

impl SteppingClock {
    /// A clock starting at `start` that advances `step` per reading.
    pub fn new(start: u64, step: u64) -> (r: SteppingClock)
        ensures
            r.now_ms() == start,
            r.step == step,
    {
        SteppingClock { t: start, step }
    }
}

impl Clock for SteppingClock {
    open spec fn now_ms(&self) -> u64 {
        self.t
    }

    fn now(&mut self) -> (r: u64)
        ensures
            r == final(self).now_ms(),
            final(self).now_ms() >= old(self).now_ms(),
            old(self).now_ms() < u64::MAX ==> final(self).now_ms() > old(self).now_ms(),
            final(self).step == old(self).step,
            ({
                let s: u64 = if old(self).step == 0 {
                    1
                } else {
                    old(self).step
                };
                final(self).t == if old(self).t + s <= u64::MAX {
                    (old(self).t + s) as u64
                } else {
                    u64::MAX
                }
            }),
    {
        let step: u64 = if self.step == 0 { 1 } else { self.step };
        if step <= u64::MAX - self.t {
            self.t = self.t + step;
        } else {
            self.t = u64::MAX;
        }
        self.t
    }

    fn sleep(&mut self, ms: u64)
        ensures
            final(self).now_ms() >= old(self).now_ms(),
            final(self).now_ms() >= old(self).now_ms() + ms
                || final(self).now_ms() == u64::MAX,
            final(self).step == old(self).step,
            final(self).t == if old(self).t + ms <= u64::MAX {
                (old(self).t + ms) as u64
            } else {
                u64::MAX
            },
    {
        if ms <= u64::MAX - self.t {
            self.t = self.t + ms;
        } else {
            self.t = u64::MAX;
        }
    }
}

} // verus!
