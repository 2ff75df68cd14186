//! The collaborator interfaces the driver runs on: a byte-oriented bus
//! transport and a millisecond clock, each with a ghost model.
//!
//! A [`Transport`] carries a ghost log of the byte-level operations that
//! succeeded on it, so every driver contract can say exactly which frames
//! were put on the bus and which bytes came back.  A [`Clock`] exposes a
//! monotone millisecond reading; sleeping advances it by at least the
//! requested amount.
//!
//! The bus is a single-consumer resource: one driver value owns a transport
//! for its whole lifetime, and nothing here locks against a second user.

use vstd::prelude::*;

use crate::Error;

verus! {

/// One byte-level operation that succeeded on the transport.
///
/// `Write` holds the bytes handed to the bus; `Read` holds the bytes the
/// bus returned (however many that was — the driver checks the count).
#[verifier::ext_equal]
pub enum BusOp {
    Write(Seq<u8>),
    Read(Seq<u8>),
}

/// Byte-oriented transport to the controller chip.
///
/// `log` is the ghost history of operations that succeeded, oldest first.
/// A failed call leaves the log unchanged: the operation did not happen.
/// Nothing is promised about the bytes a read returns — they come from the
/// device — so a contract over this trait states what holds of every
/// possible response.
pub trait Transport: Sized {
    /// Ghost history of the operations that succeeded on this transport.
    /// The default is the empty history, for implementations outside the
    /// verified world that track none.
    open spec fn log(&self) -> Seq<BusOp> {
        Seq::empty()
    }

    /// Hand `data` to the bus in one operation.
    fn write(&mut self, data: &[u8]) -> (r: Result<(), Error>)
        ensures
            r is Ok ==> final(self).log() == old(self).log().push(BusOp::Write(data@)),
            r is Err ==> r == Err::<(), Error>(Error::IoError)
                && final(self).log() == old(self).log(),
    ;

    /// Ask the bus for `len` bytes.  The device may answer with any number
    /// of bytes; the log records what actually came back.
    fn read(&mut self, len: usize) -> (r: Result<Vec<u8>, Error>)
        ensures
            r matches Ok(b) ==> final(self).log() == old(self).log().push(BusOp::Read(b@)),
            r is Err ==> r == Err::<Vec<u8>, Error>(Error::IoError)
                && final(self).log() == old(self).log(),
    ;
}

/// Millisecond clock and sleep source.
///
/// `now_ms` only moves forward, and each reading is strictly later than
/// the one before until the counter saturates at its ceiling — that strict
/// advance is what lets the driver's polling loops terminate.  `sleep`
/// advances the reading by at least the requested amount (short of the
/// ceiling); a real clock may always advance further on its own.
pub trait Clock: Sized {
    /// Ghost current reading, in milliseconds.  The default reading, for
    /// implementations outside the verified world, is zero.
    open spec fn now_ms(&self) -> u64 {
        0
    }

    /// Read the clock.
    fn now(&mut self) -> (r: u64)
        ensures
            r == final(self).now_ms(),
            final(self).now_ms() >= old(self).now_ms(),
            old(self).now_ms() < u64::MAX ==> final(self).now_ms() > old(self).now_ms(),
    ;

    /// Block for at least `ms` milliseconds.  The reading afterwards is at
    /// least `ms` later, or saturated at the counter's ceiling.
    fn sleep(&mut self, ms: u64)
        ensures
            final(self).now_ms() >= old(self).now_ms(),
            final(self).now_ms() >= old(self).now_ms() + ms
                || final(self).now_ms() == u64::MAX,
    ;
}

/// The frame a block write puts on the bus: register, payload length,
/// payload.
pub open spec fn write_frame(reg: u8, data: Seq<u8>) -> Seq<u8> {
    seq![reg, data.len() as u8] + data
}

/// Log entry of a block write.
pub open spec fn op_block_write(reg: u8, data: Seq<u8>) -> BusOp {
    BusOp::Write(write_frame(reg, data))
}

/// Log entry of the one-byte write that selects a register before a read.
pub open spec fn op_select(reg: u8) -> BusOp {
    BusOp::Write(seq![reg])
}

/// The two operations of a block read: select the register, then read.
/// `raw` is whatever the bus returned, sentinel byte included.
pub open spec fn read_cycle(reg: u8, raw: Seq<u8>) -> Seq<BusOp> {
    seq![op_select(reg), BusOp::Read(raw)]
}

/// A 32-bit value read little-endian from four bytes.
pub open spec fn le32(b: Seq<u8>) -> u32
    recommends
        b.len() == 4,
{
    (b[0] + b[1] * 0x100 + b[2] * 0x1_0000 + b[3] * 0x100_0000) as u32
}

/// A 16-bit value read little-endian from two bytes.
pub open spec fn le16(b: Seq<u8>) -> u16
    recommends
        b.len() == 2,
{
    (b[0] + b[1] * 0x100) as u16
}

/// Decode four bytes as a little-endian 32-bit value.
pub fn decode_le32(b: &[u8]) -> (r: u32)
    requires
        b@.len() == 4,
    ensures
        r == le32(b@),
{
    let r: u32 = b[0] as u32
        + b[1] as u32 * 0x100
        + b[2] as u32 * 0x1_0000
        + b[3] as u32 * 0x100_0000;
    r
}

/// Decode two bytes as a little-endian 16-bit value.
pub fn decode_le16(b: &[u8]) -> (r: u16)
    requires
        b@.len() == 2,
    ensures
        r == le16(b@),
{
    let r: u16 = b[0] as u16 + b[1] as u16 * 0x100;
    r
}

/// Copy a byte slice into an owned vector.
pub fn copy_bytes(b: &[u8]) -> (v: Vec<u8>)
    ensures
        v@ == b@,
{
    let mut v: Vec<u8> = Vec::new();
    let mut i: usize = 0;
    while i < b.len()
        invariant
            i <= b@.len(),
            v@ == b@.take(i as int),
        decreases b@.len() - i,
    {
        v.push(b[i]);
        i = i + 1;
        proof {
            assert(v@ =~= b@.take(i as int));
        }
    }
    proof {
        assert(v@ =~= b@);
    }
    v
}

/// The four little-endian bytes of a 32-bit word.
pub open spec fn le_bytes32(w: u32) -> Seq<u8> {
    seq![
        (w % 0x100) as u8,
        ((w / 0x100) % 0x100) as u8,
        ((w / 0x1_0000) % 0x100) as u8,
        ((w / 0x100_0000) % 0x100) as u8,
    ]
}

/// Append the little-endian bytes of `w` to `out`.
pub fn push_le_bytes32(out: &mut Vec<u8>, w: u32)
    ensures
        final(out)@ == old(out)@ + le_bytes32(w),
{
    out.push((w % 0x100) as u8);
    out.push(((w / 0x100) % 0x100) as u8);
    out.push(((w / 0x1_0000) % 0x100) as u8);
    out.push(((w / 0x100_0000) % 0x100) as u8);
    proof {
        assert(out@ =~= old(out)@ + le_bytes32(w));
    }
}

} // verus!
