//! The protocol driver: register framing, the command-execution handshake,
//! the lock/debug-mode session lifecycle, the vendor-message builder and
//! the high-level actions, and the reconnect poller.
//!
//! Every contract is stated over the transport's ghost operation log (see
//! [`crate::bus`]): a promise here says exactly which frames went over the
//! bus and what was concluded from the bytes that came back.  Bytes a read
//! returns come from the device, so clauses about them are conditioned on
//! the response actually observed.

use vstd::prelude::*;

use crate::Error;
use crate::bus::{
    BusOp, Clock, Transport, le16, le32, le_bytes32, op_block_write, op_select, read_cycle,
    write_frame, decode_le16, decode_le32, push_le_bytes32,
};

verus! {

/// Mode register: four ASCII bytes naming the operating mode.
pub const REG_MODE: u8 = 0x03;

/// Command register: a four-byte tag, read back as a little-endian status.
pub const REG_CMD: u8 = 0x08;

/// Data register: payload for the command about to be posted.
pub const REG_DATA: u8 = 0x09;

/// Power-status register: two bytes, bit 0 of the little-endian value
/// means "connected".
pub const REG_POWER_STATUS: u8 = 0x3F;

/// The invalid-command sentinel, read little-endian from the command
/// register after the chip refuses a posted command.
pub const INVALID_CMD_SENTINEL: u32 = 0x444D_4321;

/// Default budget for a command to settle, in milliseconds.
pub const DEFAULT_CMD_TIMEOUT_MS: u64 = 1000;

/// Budget of the firmware-update action's vendor message, in
/// milliseconds.
pub const DFU_CMD_TIMEOUT_MS: u64 = 200;

/// Settle delay after the firmware-update action's vendor message, in
/// milliseconds.
pub const DFU_SETTLE_MS: u64 = 200;

/// Settle interval around a reboot, in milliseconds.
pub const RECONNECT_WAIT_MS: u64 = 1000;

/// Interval between reconnect polls, in milliseconds.
pub const POLL_WAIT_MS: u64 = 100;

/// Total budget for the reconnect poll, in milliseconds.
pub const RECONNECT_TIMEOUT_MS: u64 = 3000;

/// Does a command-register reading equal the invalid-command sentinel?
pub fn is_invalid_cmd(val: u32) -> (r: bool)
    ensures
        r == (val == INVALID_CMD_SENTINEL),
{
    val == 0x444D_4321
}

/// The operating modes the chip reports.  Any other four bytes in the mode
/// register are a decode failure, never a new variant.
#[derive(Clone, Copy, Debug, PartialEq, Eq, Structural)]
pub enum Mode {
    App,
    Boot,
    Bist,
    Disc,
    Ptch,
    Dbma,
}

/// The exact four ASCII bytes the chip reports for each mode.  The codes
/// are case- and space-sensitive: application mode ends in a space.
pub open spec fn mode_code(m: Mode) -> Seq<u8> {
    match m {
        Mode::App => seq![0x41u8, 0x50, 0x50, 0x20],   // "APP "
        Mode::Boot => seq![0x42u8, 0x4F, 0x4F, 0x54],  // "BOOT"
        Mode::Bist => seq![0x42u8, 0x49, 0x53, 0x54],  // "BIST"
        Mode::Disc => seq![0x44u8, 0x49, 0x53, 0x43],  // "DISC"
        Mode::Ptch => seq![0x50u8, 0x54, 0x43, 0x48],  // "PTCH"
        Mode::Dbma => seq![0x44u8, 0x42, 0x4D, 0x61],  // "DBMa"
    }
}

/// Decode four mode-register bytes, exactly and case-sensitively.
pub open spec fn mode_of(b: Seq<u8>) -> Option<Mode> {
    if b == mode_code(Mode::App) {
        Some(Mode::App)
    } else if b == mode_code(Mode::Boot) {
        Some(Mode::Boot)
    } else if b == mode_code(Mode::Bist) {
        Some(Mode::Bist)
    } else if b == mode_code(Mode::Disc) {
        Some(Mode::Disc)
    } else if b == mode_code(Mode::Ptch) {
        Some(Mode::Ptch)
    } else if b == mode_code(Mode::Dbma) {
        Some(Mode::Dbma)
    } else {
        None
    }
}

/// Compare four bytes against a mode code.
fn eq4(b: &[u8], c0: u8, c1: u8, c2: u8, c3: u8) -> (r: bool)
    requires
        b@.len() == 4,
    ensures
        r == (b@ == seq![c0, c1, c2, c3]),
{
    let r = b[0] == c0 && b[1] == c1 && b[2] == c2 && b[3] == c3;
    proof {
        if r {
            assert(b@ =~= seq![c0, c1, c2, c3]);
        }
    }
    r
}

/// Decode four mode-register bytes into a [`Mode`].
pub fn decode_mode(b: &[u8]) -> (r: Option<Mode>)
    requires
        b@.len() == 4,
    ensures
        r == mode_of(b@),
{
    if eq4(b, 0x41, 0x50, 0x50, 0x20) {
        Some(Mode::App)
    } else if eq4(b, 0x42, 0x4F, 0x4F, 0x54) {
        Some(Mode::Boot)
    } else if eq4(b, 0x42, 0x49, 0x53, 0x54) {
        Some(Mode::Bist)
    } else if eq4(b, 0x44, 0x49, 0x53, 0x43) {
        Some(Mode::Disc)
    } else if eq4(b, 0x50, 0x54, 0x43, 0x48) {
        Some(Mode::Ptch)
    } else if eq4(b, 0x44, 0x42, 0x4D, 0x61) {
        Some(Mode::Dbma)
    } else {
        None
    }
}

/// The driver for one controller chip.
///
/// A `Device` exclusively owns its transport for its whole lifetime: the
/// bus is a single-consumer resource, and nothing enforces against a
/// second driver on the same physical bus beyond this ownership.
pub struct Device<T: Transport, C: Clock> {
    /// The bus to the chip.
    pub transport: T,
    /// The time source for poll budgets and settle delays.
    pub clock: C,
    /// The authentication key: the device code, byte-reversed.
    pub key: Vec<u8>,
}

impl<T: Transport, C: Clock> Device<T, C> {
    /// Wrap an owned transport and clock without touching the bus, deriving
    /// the authentication key from the device code.  No handshake is
    /// performed; [`Device::new`] is the authenticated constructor.
    pub fn attach(transport: T, clock: C, code: &[u8]) -> (d: Device<T, C>)
        ensures
            d.transport == transport,
            d.clock == clock,
            d.key@.len() == code@.len(),
            forall|j: int| 0 <= j < code@.len() ==> d.key@[j] == code@[code@.len() - 1 - j],
    {
        let n = code.len();
        let mut key: Vec<u8> = Vec::new();
        let mut i: usize = 0;
        while i < n
            invariant
                n == code@.len(),
                i <= n,
                key@.len() == i,
                forall|j: int| 0 <= j < i ==> key@[j] == code@[n - 1 - j],
            decreases n - i,
        {
            key.push(code[n - 1 - i]);
            i = i + 1;
        }
        Device { transport, clock, key }
    }

    /// Send frame `[reg, len(data), data...]` to the bus.
    ///
    /// Fails only when the transport does, in which case nothing was
    /// logged as sent.
    pub fn write_block(&mut self, reg: u8, data: &[u8]) -> (r: Result<(), Error>)
        requires
            data@.len() <= 255,
        ensures
            final(self).clock == old(self).clock,
            final(self).key == old(self).key,
            r is Ok ==> final(self).transport.log()
                == old(self).transport.log().push(op_block_write(reg, data@)),
            r is Err ==> r == Err::<(), Error>(Error::IoError)
                && final(self).transport.log() == old(self).transport.log(),
    {
        let mut buf: Vec<u8> = Vec::new();
        buf.push(reg);
        buf.push(data.len() as u8);
        let mut i: usize = 0;
        while i < data.len()
            invariant
                i <= data@.len(),
                data@.len() <= 255,
                buf@ == seq![reg, data@.len() as u8] + data@.take(i as int),
            decreases data@.len() - i,
        {
            buf.push(data[i]);
            i = i + 1;
            proof {
                assert(buf@ =~= seq![reg, data@.len() as u8] + data@.take(i as int));
            }
        }
        proof {
            assert(buf@ =~= write_frame(reg, data@));
        }
        self.transport.write(buf.as_slice())
    }

    /// Select `reg` with a one-byte write, then read `len + 1` bytes: the
    /// leading protocol sentinel byte is discarded and the remaining `len`
    /// bytes are returned.
    ///
    /// A response of any other length is a `ProtocolError`; a transport
    /// failure is an `IoError` and leaves no read in the log.
    pub fn read_block(&mut self, reg: u8, len: usize) -> (r: Result<Vec<u8>, Error>)
        requires
            len < usize::MAX,
        ensures
            final(self).clock == old(self).clock,
            final(self).key == old(self).key,
            r matches Ok(b) ==> exists|raw: Seq<u8>|
                #![auto]
                final(self).transport.log() == old(self).transport.log() + read_cycle(reg, raw)
                    && raw.len() == len + 1 && b@ == raw.skip(1),
            r == Err::<Vec<u8>, Error>(Error::ProtocolError) ==> exists|raw: Seq<u8>|
                #![auto]
                final(self).transport.log() == old(self).transport.log() + read_cycle(reg, raw)
                    && raw.len() != len + 1,
            r == Err::<Vec<u8>, Error>(Error::IoError)
                ==> final(self).transport.log() == old(self).transport.log()
                    || final(self).transport.log()
                        == old(self).transport.log().push(op_select(reg)),
            r is Err ==> r == Err::<Vec<u8>, Error>(Error::IoError)
                || r == Err::<Vec<u8>, Error>(Error::ProtocolError),
    {
        let mut sel: Vec<u8> = Vec::new();
        sel.push(reg);
        proof {
            assert(sel@ =~= seq![reg]);
        }
        match self.transport.write(sel.as_slice()) {
            Ok(()) => {}
            Err(_) => {
                return Err(Error::IoError);
            }
        }
        let raw = match self.transport.read(len + 1) {
            Ok(v) => v,
            Err(_) => {
                return Err(Error::IoError);
            }
        };
        proof {
            assert(self.transport.log()
                == old(self).transport.log() + read_cycle(reg, raw@)) by {
                assert(old(self).transport.log().push(op_select(reg)).push(BusOp::Read(raw@))
                    =~= old(self).transport.log() + read_cycle(reg, raw@));
            }
        }
        if raw.len() != len + 1 {
            return Err(Error::ProtocolError);
        }
        let mut out: Vec<u8> = Vec::new();
        let mut i: usize = 1;
        while i < raw.len()
            invariant
                1 <= i <= raw@.len(),
                out@ == raw@.subrange(1, i as int),
            decreases raw@.len() - i,
        {
            out.push(raw[i]);
            i = i + 1;
            proof {
                assert(out@ =~= raw@.subrange(1, i as int));
            }
        }
        proof {
            assert(out@ =~= raw@.skip(1));
        }
        Ok(out)
    }
}

/// Is `raw` a full command-register response (sentinel byte plus four
/// status bytes)?
pub open spec fn is_status(raw: Seq<u8>) -> bool {
    raw.len() == 5
}

/// The status word of a command-register response, read little-endian
/// after the discarded sentinel byte.
pub open spec fn status_val(raw: Seq<u8>) -> u32 {
    le32(raw.skip(1))
}

/// A command is still outstanding: the register reads nonzero and not the
/// invalid-command sentinel.
pub open spec fn status_pending(raw: Seq<u8>) -> bool {
    is_status(raw) && status_val(raw) != 0 && status_val(raw) != INVALID_CMD_SENTINEL
}

/// The register is free for a new command: zero, or the sentinel left by
/// a previously rejected one.
pub open spec fn status_clear(raw: Seq<u8>) -> bool {
    is_status(raw) && (status_val(raw) == 0 || status_val(raw) == INVALID_CMD_SENTINEL)
}

/// One read of the command register, as it appears in the log.
pub open spec fn status_cycle(raw: Seq<u8>) -> Seq<BusOp> {
    read_cycle(REG_CMD, raw)
}

/// The log segment of a run of command-register polls that each returned
/// `raws[i]`.
pub open spec fn poll_trace(raws: Seq<Seq<u8>>) -> Seq<BusOp>
    decreases raws.len(),
{
    if raws.len() == 0 {
        Seq::empty()
    } else {
        status_cycle(raws[0]) + poll_trace(raws.skip(1))
    }
}

/// Every response in the run showed the command still outstanding.
pub open spec fn all_pending(raws: Seq<Seq<u8>>) -> bool {
    forall|i: int| 0 <= i < raws.len() ==> status_pending(#[trigger] raws[i])
}

/// The data-register write of a command's payload: nothing when the
/// payload is empty.
pub open spec fn data_part(data: Seq<u8>) -> Seq<BusOp> {
    if data.len() == 0 {
        Seq::<BusOp>::empty()
    } else {
        seq![op_block_write(REG_DATA, data)]
    }
}

/// The log segment that issues a command: the passing pre-check, the data
/// write when there is a payload, and the tag write that triggers
/// execution.
pub open spec fn issue_trace(tag: Seq<u8>, data: Seq<u8>, raw0: Seq<u8>) -> Seq<BusOp> {
    status_cycle(raw0) + data_part(data) + seq![op_block_write(REG_CMD, tag)]
}

/// Everything a command-execution attempt that a transport fault stopped
/// can have put in the log: a prefix of an attempt, cut at the pre-check,
/// at the payload or tag write, or while polling.  Every completed reading
/// in such a prefix let the attempt continue (a clear pre-check, pending
/// polls): a decisive reading never ends in this shape.
pub open spec fn attempt_io_stopped_trace(
    pre: Seq<BusOp>,
    post: Seq<BusOp>,
    tag: Seq<u8>,
    data: Seq<u8>,
) -> bool {
    ||| post == pre
    ||| post == pre.push(op_select(REG_CMD))
    ||| exists|raw0: Seq<u8>|
        #![auto]
        status_clear(raw0) && (post == pre + status_cycle(raw0) || post == pre + status_cycle(
            raw0,
        ) + data_part(data))
    ||| exists|raw0: Seq<u8>, raws: Seq<Seq<u8>>|
        #![auto]
        status_clear(raw0) && all_pending(raws) && (post == pre + issue_trace(tag, data, raw0)
            + poll_trace(raws) || post == (pre + issue_trace(tag, data, raw0) + poll_trace(
            raws,
        )).push(op_select(REG_CMD)))
}

/// Everything a command-execution attempt that a malformed response
/// stopped can have put in the log: an attempt cut at a completed reading
/// of the wrong length, at the pre-check or while polling.
pub open spec fn attempt_malformed_trace(
    pre: Seq<BusOp>,
    post: Seq<BusOp>,
    tag: Seq<u8>,
    data: Seq<u8>,
) -> bool {
    ||| exists|raw0: Seq<u8>|
        #![auto]
        post == pre + status_cycle(raw0) && raw0.len() != 5
    ||| exists|raw0: Seq<u8>, raws: Seq<Seq<u8>>, rawx: Seq<u8>|
        #![auto]
        status_clear(raw0) && all_pending(raws) && rawx.len() != 5 && post == pre + issue_trace(
            tag,
            data,
            raw0,
        ) + poll_trace(raws) + status_cycle(rawx)
}

/// The whole log segment of a command that was issued and then polled to a
/// final register reading `rawn`: pre-check clear, payload, tag, a run of
/// pending polls, one final poll.
pub open spec fn settled_trace(
    pre: Seq<BusOp>,
    post: Seq<BusOp>,
    tag: Seq<u8>,
    data: Seq<u8>,
    rawn: Seq<u8>,
) -> bool {
    exists|raw0: Seq<u8>, raws: Seq<Seq<u8>>|
        #![auto]
        post == pre + issue_trace(tag, data, raw0) + poll_trace(raws) + status_cycle(rawn)
            && status_clear(raw0) && all_pending(raws) && is_status(rawn)
}

/// Everything a command-execution attempt can have put in the log, by its
/// outcome.  A busy refusal reads the register once and writes nothing; a
/// settled attempt ends on a reading that decides it; a transport-level
/// failure can stop the attempt at any point, so nothing is pinned there.
/// No other error comes out of an attempt.
pub open spec fn exec_attempt_trace(
    pre: Seq<BusOp>,
    post: Seq<BusOp>,
    tag: Seq<u8>,
    data: Seq<u8>,
    r: Result<(), Error>,
) -> bool {
    match r {
        Result::Ok(_) => exists|rawn: Seq<u8>|
            #![auto]
            settled_trace(pre, post, tag, data, rawn) && status_val(rawn) == 0,
        Result::Err(e) => match e {
            Error::DeviceBusy => exists|raw0: Seq<u8>|
                #![auto]
                post == pre + status_cycle(raw0) && status_pending(raw0),
            Error::CommandRejected => exists|rawn: Seq<u8>|
                #![auto]
                settled_trace(pre, post, tag, data, rawn)
                    && status_val(rawn) == INVALID_CMD_SENTINEL,
            Error::CommandTimeout => exists|rawn: Seq<u8>|
                #![auto]
                settled_trace(pre, post, tag, data, rawn) && status_pending(rawn),
            Error::IoError => attempt_io_stopped_trace(pre, post, tag, data),
            Error::ProtocolError => attempt_malformed_trace(pre, post, tag, data),
            _ => false,
        },
    }
}

/// Appending one more poll to a run appends its cycle to the run's log
/// segment.
pub proof fn lemma_poll_trace_push(raws: Seq<Seq<u8>>, r: Seq<u8>)
    ensures
        poll_trace(raws.push(r)) == poll_trace(raws) + status_cycle(r),
    decreases raws.len(),
{
    let a = raws.push(r);
    if raws.len() == 0 {
        assert(a.skip(1) =~= Seq::<Seq<u8>>::empty());
        assert(poll_trace(a) == status_cycle(a[0]) + poll_trace(a.skip(1)));
        assert(poll_trace(a.skip(1)) == Seq::<BusOp>::empty());
        assert(poll_trace(a) =~= poll_trace(raws) + status_cycle(r));
    } else {
        assert(a[0] == raws[0]);
        assert(a.skip(1) =~= raws.skip(1).push(r));
        lemma_poll_trace_push(raws.skip(1), r);
        assert(poll_trace(a) == status_cycle(a[0]) + poll_trace(a.skip(1)));
        assert(poll_trace(a.skip(1)) == poll_trace(raws.skip(1)) + status_cycle(r));
        assert(poll_trace(raws) == status_cycle(raws[0]) + poll_trace(raws.skip(1)));
        assert(poll_trace(a) =~= poll_trace(raws) + status_cycle(r));
    }
}

/// A poll run's log segment holds two operations per poll.
pub proof fn lemma_poll_trace_len(raws: Seq<Seq<u8>>)
    ensures
        poll_trace(raws).len() == 2 * raws.len(),
    decreases raws.len(),
{
    if raws.len() > 0 {
        lemma_poll_trace_len(raws.skip(1));
    }
}

/// One poll of a run: the register select at the even offset, the
/// returned bytes at the odd one.
pub proof fn lemma_poll_trace_elem(raws: Seq<Seq<u8>>, k: int)
    requires
        0 <= k < raws.len(),
    ensures
        poll_trace(raws).len() == 2 * raws.len(),
        poll_trace(raws)[2 * k] == op_select(REG_CMD),
        poll_trace(raws)[2 * k + 1] == BusOp::Read(raws[k]),
    decreases raws.len(),
{
    lemma_poll_trace_len(raws);
    assert(poll_trace(raws) == status_cycle(raws[0]) + poll_trace(raws.skip(1)));
    if k == 0 {
        assert(poll_trace(raws)[0] == status_cycle(raws[0])[0]);
        assert(poll_trace(raws)[1] == status_cycle(raws[0])[1]);
    } else {
        lemma_poll_trace_elem(raws.skip(1), k - 1);
        assert(raws.skip(1)[k - 1] == raws[k]);
        assert(poll_trace(raws)[2 * k] == poll_trace(raws.skip(1))[2 * (k - 1)]);
        assert(poll_trace(raws)[2 * k + 1] == poll_trace(raws.skip(1))[2 * (k - 1) + 1]);
    }
}

/// A settled attempt's log segment is at least five operations long and
/// ends with the final command-register poll.
pub proof fn lemma_settled_props(
    pre: Seq<BusOp>,
    post: Seq<BusOp>,
    tag: Seq<u8>,
    data: Seq<u8>,
    rawn: Seq<u8>,
)
    requires
        settled_trace(pre, post, tag, data, rawn),
    ensures
        post.len() >= pre.len() + 5,
        post[post.len() - 1] == BusOp::Read(rawn),
        post[post.len() - 2] == op_select(REG_CMD),
{
    let (raw0, raws) = choose|raw0: Seq<u8>, raws: Seq<Seq<u8>>|
        #![auto]
        post == pre + issue_trace(tag, data, raw0) + poll_trace(raws) + status_cycle(rawn)
            && status_clear(raw0) && all_pending(raws) && is_status(rawn);
    lemma_poll_trace_len(raws);
    let base = pre + issue_trace(tag, data, raw0) + poll_trace(raws);
    assert(post.len() == base.len() + 2);
    assert(post[post.len() - 1] == status_cycle(rawn)[1]);
    assert(post[post.len() - 2] == status_cycle(rawn)[0]);
}

/// One log pair admits only one final reading of a settled attempt.
pub proof fn lemma_settled_reading_unique(
    pre: Seq<BusOp>,
    post: Seq<BusOp>,
    tag: Seq<u8>,
    data: Seq<u8>,
    r1: Seq<u8>,
    r2: Seq<u8>,
)
    requires
        settled_trace(pre, post, tag, data, r1),
        settled_trace(pre, post, tag, data, r2),
    ensures
        r1 == r2,
{
    lemma_settled_props(pre, post, tag, data, r1);
    lemma_settled_props(pre, post, tag, data, r2);
}

/// One log pair admits only one reading of a single read cycle.
pub proof fn lemma_cycle_reading_unique(
    pre: Seq<BusOp>,
    post: Seq<BusOp>,
    reg: u8,
    r1: Seq<u8>,
    r2: Seq<u8>,
)
    requires
        post == pre + read_cycle(reg, r1),
        post == pre + read_cycle(reg, r2),
    ensures
        r1 == r2,
{
    assert(post[pre.len() as int + 1] == BusOp::Read(r1));
    assert(post[pre.len() as int + 1] == BusOp::Read(r2));
}

/// An operation a command-execution attempt may put in the log: the
/// command-register select, the payload or tag frame, or a returned
/// reading.
pub open spec fn is_cmd_attempt_op(op: BusOp, tag: Seq<u8>, data: Seq<u8>) -> bool {
    ||| op == op_select(REG_CMD)
    ||| op == op_block_write(REG_DATA, data)
    ||| op == op_block_write(REG_CMD, tag)
    ||| op matches BusOp::Read(_)
}

/// A command-execution attempt only appends, and appends nothing but
/// command-attempt operations.
pub proof fn lemma_attempt_ops(
    pre: Seq<BusOp>,
    post: Seq<BusOp>,
    tag: Seq<u8>,
    data: Seq<u8>,
    r: Result<(), Error>,
)
    requires
        exec_attempt_trace(pre, post, tag, data, r),
    ensures
        post.len() >= pre.len(),
        post.take(pre.len() as int) == pre,
        forall|i: int|
            pre.len() <= i < post.len() ==> is_cmd_attempt_op(#[trigger] post[i], tag, data),
{
    match r {
        Result::Ok(_) => {
            let rawn = choose|rawn: Seq<u8>|
                #![auto]
                settled_trace(pre, post, tag, data, rawn) && status_val(rawn) == 0;
            lemma_settled_ops(pre, post, tag, data, rawn);
        }
        Result::Err(e) => match e {
            Error::DeviceBusy => {
                let raw0 = choose|raw0: Seq<u8>|
                    #![auto]
                    post == pre + status_cycle(raw0) && status_pending(raw0);
                assert(post[pre.len() as int] == op_select(REG_CMD));
                assert(post[pre.len() as int + 1] == BusOp::Read(raw0));
                assert(post.take(pre.len() as int) =~= pre);
            }
            Error::CommandRejected => {
                let rawn = choose|rawn: Seq<u8>|
                    #![auto]
                    settled_trace(pre, post, tag, data, rawn) && status_val(rawn)
                        == INVALID_CMD_SENTINEL;
                lemma_settled_ops(pre, post, tag, data, rawn);
            }
            Error::CommandTimeout => {
                let rawn = choose|rawn: Seq<u8>|
                    #![auto]
                    settled_trace(pre, post, tag, data, rawn) && status_pending(rawn);
                lemma_settled_ops(pre, post, tag, data, rawn);
            }
            _ => {
                lemma_stopped_ops(pre, post, tag, data);
            }
        },
    }
}

/// Helper: the operations of a settled attempt are command-attempt
/// operations.
proof fn lemma_settled_ops(
    pre: Seq<BusOp>,
    post: Seq<BusOp>,
    tag: Seq<u8>,
    data: Seq<u8>,
    rawn: Seq<u8>,
)
    requires
        settled_trace(pre, post, tag, data, rawn),
    ensures
        post.len() >= pre.len(),
        post.take(pre.len() as int) == pre,
        forall|i: int|
            pre.len() <= i < post.len() ==> is_cmd_attempt_op(#[trigger] post[i], tag, data),
{
    let (raw0, raws) = choose|raw0: Seq<u8>, raws: Seq<Seq<u8>>|
        #![auto]
        post == pre + issue_trace(tag, data, raw0) + poll_trace(raws) + status_cycle(rawn)
            && status_clear(raw0) && all_pending(raws) && is_status(rawn);
    lemma_poll_trace_len(raws);
    assert(post.take(pre.len() as int) =~= pre);
    let iss = issue_trace(tag, data, raw0);
    assert forall|i: int| pre.len() <= i < post.len() implies is_cmd_attempt_op(
        #[trigger] post[i],
        tag,
        data,
    ) by {
        if i < post.len() - 2 {
            lemma_segment_op(pre, post, tag, data, raw0, raws, status_cycle(rawn), i);
        } else if i == post.len() - 2 {
            assert(post[i] == status_cycle(rawn)[0]);
        } else {
            assert(post[i] == status_cycle(rawn)[1]);
        }
    }
}

/// Helper: the operations of a stopped attempt are command-attempt
/// operations.
proof fn lemma_stopped_ops(pre: Seq<BusOp>, post: Seq<BusOp>, tag: Seq<u8>, data: Seq<u8>)
    requires
        attempt_io_stopped_trace(pre, post, tag, data) || attempt_malformed_trace(
            pre,
            post,
            tag,
            data,
        ),
    ensures
        post.len() >= pre.len(),
        post.take(pre.len() as int) == pre,
        forall|i: int|
            pre.len() <= i < post.len() ==> is_cmd_attempt_op(#[trigger] post[i], tag, data),
{
    assert(post.take(pre.len() as int) =~= pre);
    assert forall|i: int| pre.len() <= i < post.len() implies is_cmd_attempt_op(
        #[trigger] post[i],
        tag,
        data,
    ) by {
        if post == pre {
        } else if post == pre.push(op_select(REG_CMD)) {
        } else if exists|raw0: Seq<u8>|
            #![auto]
            (post == pre + status_cycle(raw0) || post == pre + status_cycle(raw0) + data_part(
                data,
            )) {
            let raw0 = choose|raw0: Seq<u8>|
                #![auto]
                (post == pre + status_cycle(raw0) || post == pre + status_cycle(raw0) + data_part(
                    data,
                ));
            let j = i - pre.len();
            if j == 0 {
                assert(post[i] == op_select(REG_CMD));
            } else if j == 1 {
                assert(post[i] == BusOp::Read(raw0));
            } else {
                assert(post[i] == op_block_write(REG_DATA, data));
            }
        } else {
            let (raw0, raws) = choose|raw0: Seq<u8>, raws: Seq<Seq<u8>>|
                #![auto]
                post == pre + issue_trace(tag, data, raw0) + poll_trace(raws) || post == (pre
                    + issue_trace(tag, data, raw0) + poll_trace(raws)).push(op_select(REG_CMD))
                    || exists|rawx: Seq<u8>|
                    #![auto]
                    post == pre + issue_trace(tag, data, raw0) + poll_trace(raws) + status_cycle(
                        rawx,
                    );
            lemma_poll_trace_len(raws);
            if post == pre + issue_trace(tag, data, raw0) + poll_trace(raws) {
                lemma_segment_op(pre, post, tag, data, raw0, raws, Seq::empty(), i);
            } else if post == (pre + issue_trace(tag, data, raw0) + poll_trace(raws)).push(
                op_select(REG_CMD),
            ) {
                assert(post =~= pre + issue_trace(tag, data, raw0) + poll_trace(raws) + seq![
                    op_select(REG_CMD),
                ]);
                if i == post.len() - 1 {
                    assert(post[i] == op_select(REG_CMD));
                } else {
                    lemma_segment_op(pre, post, tag, data, raw0, raws, seq![op_select(REG_CMD)], i);
                }
            } else {
                let rawx = choose|rawx: Seq<u8>|
                    #![auto]
                    post == pre + issue_trace(tag, data, raw0) + poll_trace(raws) + status_cycle(
                        rawx,
                    );
                if i < post.len() - 2 {
                    lemma_segment_op(pre, post, tag, data, raw0, raws, status_cycle(rawx), i);
                } else if i == post.len() - 2 {
                    assert(post[i] == status_cycle(rawx)[0]);
                } else {
                    assert(post[i] == status_cycle(rawx)[1]);
                }
            }
        }
    }
}

/// Helper: one operation of the issue-and-poll region of an attempt.
proof fn lemma_segment_op(
    pre: Seq<BusOp>,
    post: Seq<BusOp>,
    tag: Seq<u8>,
    data: Seq<u8>,
    raw0: Seq<u8>,
    raws: Seq<Seq<u8>>,
    tail: Seq<BusOp>,
    i: int,
)
    requires
        post == pre + issue_trace(tag, data, raw0) + poll_trace(raws) + tail,
        pre.len() <= i < post.len() - tail.len(),
    ensures
        is_cmd_attempt_op(post[i], tag, data),
{
    lemma_poll_trace_len(raws);
    let iss = issue_trace(tag, data, raw0);
    if i < pre.len() + iss.len() {
        let j = i - pre.len();
        if j == 0 {
            assert(post[i] == iss[0]);
            assert(iss[0] == op_select(REG_CMD));
        } else if j == 1 {
            assert(post[i] == iss[1]);
            assert(iss[1] == BusOp::Read(raw0));
        } else if data.len() > 0 && j == 2 {
            assert(post[i] == iss[2]);
            assert(iss[2] == op_block_write(REG_DATA, data));
        } else {
            assert(post[i] == iss[j]);
            assert(iss[j] == op_block_write(REG_CMD, tag));
        }
    } else {
        let off = i - pre.len() - iss.len();
        let k = off / 2;
        lemma_poll_trace_elem(raws, k);
        assert(post[i] == poll_trace(raws)[off]);
        if off % 2 == 0 {
            assert(off == 2 * k);
        } else {
            assert(off == 2 * k + 1);
        }
    }
}

/// A decisive reading pins the outcome of a command-execution attempt.
/// On one and the same log pair: a lone pending pre-check read admits
/// only the busy refusal; a settled attempt ending on zero admits only
/// success; one ending on the sentinel admits only the rejection; and one
/// ending still pending admits only the timeout or a transport fault on
/// the very next poll select — no completed reading distinguishes those
/// two.
pub proof fn lemma_attempt_outcome_forced(
    pre: Seq<BusOp>,
    post: Seq<BusOp>,
    tag: Seq<u8>,
    data: Seq<u8>,
    r: Result<(), Error>,
)
    requires
        exec_attempt_trace(pre, post, tag, data, r),
    ensures
        forall|raw0: Seq<u8>|
            post == pre + status_cycle(raw0) && status_pending(raw0) ==> r == Err::<(), Error>(
                Error::DeviceBusy,
            ),
        forall|rawn: Seq<u8>|
            #[trigger] settled_trace(pre, post, tag, data, rawn) && status_val(rawn) == 0
                ==> r is Ok,
        forall|rawn: Seq<u8>|
            #[trigger] settled_trace(pre, post, tag, data, rawn) && status_val(rawn)
                == INVALID_CMD_SENTINEL ==> r == Err::<(), Error>(Error::CommandRejected),
        forall|rawn: Seq<u8>|
            #[trigger] settled_trace(pre, post, tag, data, rawn) && status_pending(rawn) ==> r
                == Err::<(), Error>(Error::CommandTimeout) || r == Err::<(), Error>(
                Error::IoError,
            ),
{
    match r {
        Result::Ok(_) => {
            let rn = choose|rn: Seq<u8>|
                #![auto]
                settled_trace(pre, post, tag, data, rn) && status_val(rn) == 0;
            lemma_settled_props(pre, post, tag, data, rn);
            assert forall|raw0: Seq<u8>|
                post == pre + status_cycle(raw0) && status_pending(raw0) implies r == Err::<
                (),
                Error,
            >(Error::DeviceBusy) by {
                assert(post.len() == pre.len() + 2);
            }
            assert forall|rawn: Seq<u8>|
                #[trigger] settled_trace(pre, post, tag, data, rawn) && (status_val(rawn)
                    == INVALID_CMD_SENTINEL || status_pending(rawn)) implies false by {
                lemma_settled_reading_unique(pre, post, tag, data, rawn, rn);
            }
        }
        Result::Err(e) => match e {
            Error::DeviceBusy => {
                let r0 = choose|r0: Seq<u8>|
                    #![auto]
                    post == pre + status_cycle(r0) && status_pending(r0);
                assert(post.len() == pre.len() + 2);
                assert forall|rawn: Seq<u8>|
                    #[trigger] settled_trace(pre, post, tag, data, rawn) implies false by {
                    lemma_settled_props(pre, post, tag, data, rawn);
                }
            }
            Error::CommandRejected | Error::CommandTimeout => {
                let rn = choose|rn: Seq<u8>|
                    #![auto]
                    settled_trace(pre, post, tag, data, rn) && (status_val(rn)
                        == INVALID_CMD_SENTINEL || status_pending(rn));
                lemma_settled_props(pre, post, tag, data, rn);
                assert forall|raw0: Seq<u8>|
                    post == pre + status_cycle(raw0) && status_pending(raw0) implies r == Err::<
                    (),
                    Error,
                >(Error::DeviceBusy) by {
                    assert(post.len() == pre.len() + 2);
                }
                assert forall|rawn: Seq<u8>|
                    #[trigger] settled_trace(pre, post, tag, data, rawn) implies rawn == rn by {
                    lemma_settled_reading_unique(pre, post, tag, data, rawn, rn);
                }
            }
            Error::IoError => {
                lemma_io_stop_not_decisive(pre, post, tag, data);
            }
            Error::ProtocolError => {
                lemma_malformed_not_decisive(pre, post, tag, data);
            }
            _ => {
                assert(false);
            }
        },
    }
}

/// Helper: a fault-stopped attempt's log never shows a lone pending
/// pre-check, nor a settled attempt ending on zero or the sentinel.
proof fn lemma_io_stop_not_decisive(pre: Seq<BusOp>, post: Seq<BusOp>, tag: Seq<u8>, data: Seq<u8>)
    requires
        attempt_io_stopped_trace(pre, post, tag, data),
    ensures
        forall|raw0: Seq<u8>| !(post == pre + status_cycle(raw0) && status_pending(raw0)),
        forall|rawn: Seq<u8>|
            !(#[trigger] settled_trace(pre, post, tag, data, rawn) && (status_val(rawn) == 0
                || status_val(rawn) == INVALID_CMD_SENTINEL)),
{
    assert forall|raw0: Seq<u8>|
        !(post == pre + status_cycle(raw0) && status_pending(raw0)) by {
        if post == pre + status_cycle(raw0) && status_pending(raw0) {
            if post == pre || post == pre.push(op_select(REG_CMD)) {
                assert(post.len() == pre.len() + 2);
            } else if exists|c: Seq<u8>|
                #![auto]
                status_clear(c) && (post == pre + status_cycle(c) || post == pre + status_cycle(c)
                    + data_part(data)) {
                let c = choose|c: Seq<u8>|
                    #![auto]
                    status_clear(c) && (post == pre + status_cycle(c) || post == pre
                        + status_cycle(c) + data_part(data));
                if post == pre + status_cycle(c) {
                    lemma_cycle_reading_unique(pre, post, REG_CMD, raw0, c);
                } else if data.len() == 0 {
                    assert(post =~= pre + status_cycle(c));
                    lemma_cycle_reading_unique(pre, post, REG_CMD, raw0, c);
                } else {
                    assert(post.len() == pre.len() + 3);
                }
            } else {
                let (c, raws) = choose|c: Seq<u8>, raws: Seq<Seq<u8>>|
                    #![auto]
                    status_clear(c) && all_pending(raws) && (post == pre + issue_trace(
                        tag,
                        data,
                        c,
                    ) + poll_trace(raws) || post == (pre + issue_trace(tag, data, c) + poll_trace(
                        raws,
                    )).push(op_select(REG_CMD)));
                lemma_poll_trace_len(raws);
                assert(issue_trace(tag, data, c).len() >= 3);
                assert(post.len() >= pre.len() + 3);
            }
        }
    }
    assert forall|rawn: Seq<u8>|
        !(#[trigger] settled_trace(pre, post, tag, data, rawn) && (status_val(rawn) == 0
            || status_val(rawn) == INVALID_CMD_SENTINEL)) by {
        if settled_trace(pre, post, tag, data, rawn) && (status_val(rawn) == 0 || status_val(rawn)
            == INVALID_CMD_SENTINEL) {
            lemma_settled_props(pre, post, tag, data, rawn);
            if post == pre {
            } else if post == pre.push(op_select(REG_CMD)) {
                assert(post[post.len() - 1] == op_select(REG_CMD));
            } else if exists|c: Seq<u8>|
                #![auto]
                status_clear(c) && (post == pre + status_cycle(c) || post == pre + status_cycle(c)
                    + data_part(data)) {
                let c = choose|c: Seq<u8>|
                    #![auto]
                    status_clear(c) && (post == pre + status_cycle(c) || post == pre
                        + status_cycle(c) + data_part(data));
                assert(post.len() <= pre.len() + 3);
            } else {
                let (c, raws) = choose|c: Seq<u8>, raws: Seq<Seq<u8>>|
                    #![auto]
                    status_clear(c) && all_pending(raws) && (post == pre + issue_trace(
                        tag,
                        data,
                        c,
                    ) + poll_trace(raws) || post == (pre + issue_trace(tag, data, c) + poll_trace(
                        raws,
                    )).push(op_select(REG_CMD)));
                lemma_poll_trace_len(raws);
                let iss = issue_trace(tag, data, c);
                if post == pre + iss + poll_trace(raws) {
                    if raws.len() == 0 {
                        assert(post[post.len() - 1] == iss[iss.len() - 1]);
                        assert(iss[iss.len() - 1] == op_block_write(REG_CMD, tag));
                    } else {
                        let k = raws.len() - 1;
                        lemma_poll_trace_elem(raws, k);
                        assert(post[post.len() - 1] == poll_trace(raws)[2 * k + 1]);
                        assert(status_pending(raws[k]));
                    }
                } else {
                    assert(post[post.len() - 1] == op_select(REG_CMD));
                }
            }
        }
    }
}

/// Helper: a malformed-response attempt's log never shows a lone pending
/// pre-check nor any settled attempt.
proof fn lemma_malformed_not_decisive(
    pre: Seq<BusOp>,
    post: Seq<BusOp>,
    tag: Seq<u8>,
    data: Seq<u8>,
)
    requires
        attempt_malformed_trace(pre, post, tag, data),
    ensures
        forall|raw0: Seq<u8>| !(post == pre + status_cycle(raw0) && status_pending(raw0)),
        forall|rawn: Seq<u8>| !(#[trigger] settled_trace(pre, post, tag, data, rawn)),
{
    assert forall|raw0: Seq<u8>|
        !(post == pre + status_cycle(raw0) && status_pending(raw0)) by {
        if post == pre + status_cycle(raw0) && status_pending(raw0) {
            if exists|m: Seq<u8>| #![auto] post == pre + status_cycle(m) && m.len() != 5 {
                let m = choose|m: Seq<u8>|
                    #![auto]
                    post == pre + status_cycle(m) && m.len() != 5;
                lemma_cycle_reading_unique(pre, post, REG_CMD, raw0, m);
            } else {
                let (c, raws, rawx) = choose|c: Seq<u8>, raws: Seq<Seq<u8>>, rawx: Seq<u8>|
                    #![auto]
                    status_clear(c) && all_pending(raws) && rawx.len() != 5 && post == pre
                        + issue_trace(tag, data, c) + poll_trace(raws) + status_cycle(rawx);
                lemma_poll_trace_len(raws);
                assert(post.len() >= pre.len() + 5);
            }
        }
    }
    assert forall|rawn: Seq<u8>|
        !(#[trigger] settled_trace(pre, post, tag, data, rawn)) by {
        if settled_trace(pre, post, tag, data, rawn) {
            lemma_settled_props(pre, post, tag, data, rawn);
            if exists|m: Seq<u8>| #![auto] post == pre + status_cycle(m) && m.len() != 5 {
                let m = choose|m: Seq<u8>|
                    #![auto]
                    post == pre + status_cycle(m) && m.len() != 5;
                assert(post.len() == pre.len() + 2);
            } else {
                let (c, raws, rawx) = choose|c: Seq<u8>, raws: Seq<Seq<u8>>, rawx: Seq<u8>|
                    #![auto]
                    status_clear(c) && all_pending(raws) && rawx.len() != 5 && post == pre
                        + issue_trace(tag, data, c) + poll_trace(raws) + status_cycle(rawx);
                lemma_poll_trace_len(raws);
                let base = pre + issue_trace(tag, data, c) + poll_trace(raws);
                assert(post[post.len() - 1] == status_cycle(rawx)[1]);
                assert(rawn == rawx);
            }
        }
    }
}

/// The four ASCII bytes of the authentication command tag, `LOCK`.
pub open spec fn lock_tag() -> Seq<u8> {
    seq![0x4Cu8, 0x4F, 0x43, 0x4B]
}

/// The four ASCII bytes of the debug-mode command tag, `DBMa`.
pub open spec fn dbma_tag() -> Seq<u8> {
    seq![0x44u8, 0x42, 0x4D, 0x61]
}

/// The four ASCII bytes of the vendor-message command tag, `VDMs`.
pub open spec fn vdms_tag() -> Seq<u8> {
    seq![0x56u8, 0x44, 0x4D, 0x73]
}

/// The four ASCII bytes of the local passthrough-enable command tag,
/// `DVEn`.
pub open spec fn dven_tag() -> Seq<u8> {
    seq![0x44u8, 0x56, 0x45, 0x6E]
}

/// The all-zero key the teardown relocks the chip with.
pub open spec fn zero_key() -> Seq<u8> {
    seq![0u8, 0, 0, 0]
}

/// A byte sequence reversed.
pub open spec fn rev_bytes(s: Seq<u8>) -> Seq<u8> {
    Seq::new(s.len(), |i: int| s[s.len() - 1 - i])
}

/// Everything a mode-register read can have put in the log, whatever its
/// outcome: nothing, the bare register select, or a full read cycle.
pub open spec fn mode_read_trace(pre: Seq<BusOp>, post: Seq<BusOp>) -> bool {
    post == pre || post == pre.push(op_select(REG_MODE)) || exists|raw: Seq<u8>|
        #![auto]
        post == pre + read_cycle(REG_MODE, raw)
}

/// The log segment of a debug-mode switch that fully succeeded: the `DBMa`
/// command settled to zero and the mode register then read `DBMa`.
pub open spec fn dbma_ok_trace(pre: Seq<BusOp>, post: Seq<BusOp>, flag: u8) -> bool {
    exists|mid: Seq<BusOp>, raw: Seq<u8>|
        #![auto]
        exec_attempt_trace(pre, mid, dbma_tag(), seq![flag], Ok(()))
            && post == mid + read_cycle(REG_MODE, raw) && raw.len() == 5
            && mode_of(raw.skip(1)) == Some(Mode::Dbma)
}

/// The log segment of a debug-mode switch whose command settled to zero
/// but whose mode register then read some mode other than `DBMa`.
pub open spec fn dbma_incompatible_trace(pre: Seq<BusOp>, post: Seq<BusOp>, flag: u8) -> bool {
    exists|mid: Seq<BusOp>, raw: Seq<u8>, m: Mode|
        #![auto]
        exec_attempt_trace(pre, mid, dbma_tag(), seq![flag], Ok(()))
            && post == mid + read_cycle(REG_MODE, raw) && raw.len() == 5
            && mode_of(raw.skip(1)) == Some(m) && m != Mode::Dbma
}

/// One log pair admits only one split into a prefix and a final
/// mode-register read cycle.
pub proof fn lemma_mode_tail_unique(
    mid1: Seq<BusOp>,
    mid2: Seq<BusOp>,
    post: Seq<BusOp>,
    r1: Seq<u8>,
    r2: Seq<u8>,
)
    requires
        post == mid1 + read_cycle(REG_MODE, r1),
        post == mid2 + read_cycle(REG_MODE, r2),
    ensures
        mid1 == mid2,
        r1 == r2,
{
    assert(post.len() == mid1.len() + 2);
    assert(post.len() == mid2.len() + 2);
    assert(post[post.len() - 1] == BusOp::Read(r1));
    assert(post[post.len() - 1] == BusOp::Read(r2));
    assert forall|i: int| 0 <= i < mid1.len() implies mid1[i] == mid2[i] by {
        assert(post[i] == mid1[i]);
        assert(post[i] == mid2[i]);
    }
    assert(mid1 =~= mid2);
}

/// A failed command-execution attempt's log never splits into a
/// successful attempt followed by a mode-register read cycle: the
/// attempt's own operations never select the mode register.
pub proof fn lemma_err_attempt_no_mode_tail(
    pre: Seq<BusOp>,
    post: Seq<BusOp>,
    tag: Seq<u8>,
    data: Seq<u8>,
    e: Error,
)
    requires
        exec_attempt_trace(pre, post, tag, data, Err(e)),
    ensures
        forall|mid: Seq<BusOp>, mraw: Seq<u8>|
            #![trigger exec_attempt_trace(pre, mid, tag, data, Ok(())), read_cycle(REG_MODE, mraw)]
            !(exec_attempt_trace(pre, mid, tag, data, Ok(())) && post == mid + read_cycle(
                REG_MODE,
                mraw,
            )),
{
    lemma_attempt_ops(pre, post, tag, data, Err(e));
    assert forall|mid: Seq<BusOp>, mraw: Seq<u8>|
        #![trigger exec_attempt_trace(pre, mid, tag, data, Ok(())), read_cycle(REG_MODE, mraw)]
        !(exec_attempt_trace(pre, mid, tag, data, Ok(())) && post == mid + read_cycle(
            REG_MODE,
            mraw,
        )) by {
        if exec_attempt_trace(pre, mid, tag, data, Ok(())) && post == mid + read_cycle(
            REG_MODE,
            mraw,
        ) {
            let rawn = choose|rawn: Seq<u8>|
                #![auto]
                settled_trace(pre, mid, tag, data, rawn) && status_val(rawn) == 0;
            lemma_settled_props(pre, mid, tag, data, rawn);
            assert(post[mid.len() as int] == op_select(REG_MODE));
            assert(is_cmd_attempt_op(post[mid.len() as int], tag, data));
            assert(seq![REG_MODE][0] == REG_MODE);
        }
    }
}

/// Everything a debug-mode switch can have put in the log, whatever its
/// outcome: a command-execution attempt, then at most one mode read.
pub open spec fn dbma_any_trace(pre: Seq<BusOp>, post: Seq<BusOp>, flag: u8) -> bool {
    exists|mid: Seq<BusOp>, r1: Result<(), Error>|
        #![auto]
        exec_attempt_trace(pre, mid, dbma_tag(), seq![flag], r1) && mode_read_trace(mid, post)
}

/// Everything a relock can have put in the log: one command-execution
/// attempt under the `LOCK` tag with the given key.
pub open spec fn lock_any_trace(pre: Seq<BusOp>, post: Seq<BusOp>, key: Seq<u8>) -> bool {
    exists|r1: Result<(), Error>| #![auto] exec_attempt_trace(pre, post, lock_tag(), key, r1)
}

impl<T: Transport, C: Clock> Device<T, C> {
    /// Issue the four-byte `tag` with payload `data` and drive the
    /// busy/poll/timeout handshake, with an explicit settle budget.
    ///
    /// The sequence is: pre-check the command register (`DeviceBusy` if a
    /// prior command is outstanding — nothing is written), write the
    /// payload to the data register when non-empty, write the tag to the
    /// command register, then poll that register with no inter-poll delay
    /// until it reads zero (success), reads the sentinel
    /// (`CommandRejected`), or the budget runs out (`CommandTimeout`).  On
    /// success the settle delay is slept before returning.
    pub fn exec_cmd_with_timing(
        &mut self,
        tag: &[u8],
        data: &[u8],
        timeout_ms: u64,
        settle_ms: u64,
    ) -> (r: Result<(), Error>)
        requires
            tag@.len() == 4,
            data@.len() <= 255,
        ensures
            final(self).key == old(self).key,
            exec_attempt_trace(
                old(self).transport.log(),
                final(self).transport.log(),
                tag@,
                data@,
                r,
            ),
            final(self).clock.now_ms() >= old(self).clock.now_ms(),
            r == Err::<(), Error>(Error::DeviceBusy)
                ==> final(self).clock == old(self).clock,
            r == Err::<(), Error>(Error::CommandTimeout)
                ==> final(self).clock.now_ms() >= old(self).clock.now_ms() + timeout_ms
                    || final(self).clock.now_ms() == u64::MAX,
            r is Ok ==> final(self).clock.now_ms() >= old(self).clock.now_ms() + settle_ms
                || final(self).clock.now_ms() == u64::MAX,
            forall|raw0: Seq<u8>|
                #![auto]
                final(self).transport.log() == old(self).transport.log() + status_cycle(raw0)
                    && status_pending(raw0) ==> r == Err::<(), Error>(Error::DeviceBusy),
            forall|rawn: Seq<u8>|
                #[trigger] settled_trace(
                    old(self).transport.log(),
                    final(self).transport.log(),
                    tag@,
                    data@,
                    rawn,
                ) && status_val(rawn) == 0 ==> r is Ok,
            forall|rawn: Seq<u8>|
                #[trigger] settled_trace(
                    old(self).transport.log(),
                    final(self).transport.log(),
                    tag@,
                    data@,
                    rawn,
                ) && status_val(rawn) == INVALID_CMD_SENTINEL ==> r == Err::<(), Error>(
                    Error::CommandRejected,
                ),
            forall|rawn: Seq<u8>|
                #[trigger] settled_trace(
                    old(self).transport.log(),
                    final(self).transport.log(),
                    tag@,
                    data@,
                    rawn,
                ) && status_pending(rawn) ==> r == Err::<(), Error>(Error::CommandTimeout) || r
                    == Err::<(), Error>(Error::IoError),
    {
        let st = match self.read_block(REG_CMD, 4) {
            Ok(b) => b,
            Err(e) => {
                proof {
                    if e == Error::ProtocolError {
                        let raw = choose|raw: Seq<u8>|
                            #![auto]
                            self.transport.log() == old(self).transport.log() + read_cycle(
                                REG_CMD,
                                raw,
                            ) && raw.len() != 5;
                        assert(self.transport.log() == old(self).transport.log()
                            + status_cycle(raw));
                        assert(attempt_malformed_trace(
                            old(self).transport.log(),
                            self.transport.log(),
                            tag@,
                            data@,
                        ));
                    } else {
                        assert(attempt_io_stopped_trace(
                            old(self).transport.log(),
                            self.transport.log(),
                            tag@,
                            data@,
                        ));
                    }
                    lemma_attempt_outcome_forced(
                        old(self).transport.log(),
                        self.transport.log(),
                        tag@,
                        data@,
                        Err::<(), Error>(e),
                    );
                }
                return Err(e);
            }
        };
        let ghost raw0 = choose|raw: Seq<u8>|
            #![auto]
            self.transport.log() == old(self).transport.log() + read_cycle(REG_CMD, raw)
                && raw.len() == 5 && st@ == raw.skip(1);
        let val = decode_le32(st.as_slice());
        if val != 0 && !is_invalid_cmd(val) {
            proof {
                assert(status_pending(raw0));
                lemma_attempt_outcome_forced(
                    old(self).transport.log(),
                    self.transport.log(),
                    tag@,
                    data@,
                    Err::<(), Error>(Error::DeviceBusy),
                );
            }
            return Err(Error::DeviceBusy);
        }
        proof {
            assert(status_clear(raw0));
        }

        if data.len() > 0 {
            match self.write_block(REG_DATA, data) {
                Ok(()) => {}
                Err(e) => {
                    proof {
                        assert(self.transport.log() == old(self).transport.log()
                            + status_cycle(raw0));
                        assert(attempt_io_stopped_trace(
                            old(self).transport.log(),
                            self.transport.log(),
                            tag@,
                            data@,
                        ));
                        lemma_attempt_outcome_forced(
                            old(self).transport.log(),
                            self.transport.log(),
                            tag@,
                            data@,
                            Err::<(), Error>(e),
                        );
                    }
                    return Err(e);
                }
            }
        }
        match self.write_block(REG_CMD, tag) {
            Ok(()) => {}
            Err(e) => {
                proof {
                    assert(self.transport.log() =~= old(self).transport.log() + status_cycle(
                        raw0,
                    ) + data_part(data@));
                    assert(attempt_io_stopped_trace(
                        old(self).transport.log(),
                        self.transport.log(),
                        tag@,
                        data@,
                    ));
                    lemma_attempt_outcome_forced(
                        old(self).transport.log(),
                        self.transport.log(),
                        tag@,
                        data@,
                        Err::<(), Error>(e),
                    );
                }
                return Err(e);
            }
        }
        let ghost issued_log = self.transport.log();
        proof {
            assert(issued_log =~= old(self).transport.log() + issue_trace(tag@, data@, raw0));
        }

        let start = self.clock.now();
        let ghost mut raws: Seq<Seq<u8>> = Seq::empty();
        loop
            invariant_except_break
                self.transport.log() == issued_log + poll_trace(raws),
            invariant
                tag@.len() == 4,
                data@.len() <= 255,
                self.key == old(self).key,
                issued_log == old(self).transport.log() + issue_trace(tag@, data@, raw0),
                status_clear(raw0),
                all_pending(raws),
                self.clock.now_ms() >= start,
                start >= old(self).clock.now_ms(),
            ensures
                self.key == old(self).key,
                self.clock.now_ms() >= old(self).clock.now_ms(),
                exists|rawn: Seq<u8>|
                    #![auto]
                    settled_trace(
                        old(self).transport.log(),
                        self.transport.log(),
                        tag@,
                        data@,
                        rawn,
                    ) && status_val(rawn) == 0,
            decreases u64::MAX - self.clock.now_ms(),
        {
            let ghost pre_poll = self.transport.log();
            let stb = match self.read_block(REG_CMD, 4) {
                Ok(b) => b,
                Err(e) => {
                    proof {
                        if e == Error::ProtocolError {
                            let rawx = choose|raw: Seq<u8>|
                                #![auto]
                                self.transport.log() == pre_poll + read_cycle(REG_CMD, raw)
                                    && raw.len() != 5;
                            assert(self.transport.log() =~= old(self).transport.log()
                                + issue_trace(tag@, data@, raw0) + poll_trace(raws)
                                + status_cycle(rawx));
                        } else if self.transport.log() == pre_poll {
                            assert(self.transport.log() =~= old(self).transport.log()
                                + issue_trace(tag@, data@, raw0) + poll_trace(raws));
                        } else {
                            assert(self.transport.log() =~= (old(self).transport.log()
                                + issue_trace(tag@, data@, raw0) + poll_trace(raws)).push(
                                op_select(REG_CMD),
                            ));
                        }
                        if e == Error::ProtocolError {
                            assert(attempt_malformed_trace(
                                old(self).transport.log(),
                                self.transport.log(),
                                tag@,
                                data@,
                            ));
                        } else {
                            assert(attempt_io_stopped_trace(
                                old(self).transport.log(),
                                self.transport.log(),
                                tag@,
                                data@,
                            ));
                        }
                        lemma_attempt_outcome_forced(
                            old(self).transport.log(),
                            self.transport.log(),
                            tag@,
                            data@,
                            Err::<(), Error>(e),
                        );
                    }
                    return Err(e);
                }
            };
            let ghost rawn = choose|raw: Seq<u8>|
                #![auto]
                self.transport.log() == pre_poll + read_cycle(REG_CMD, raw) && raw.len() == 5
                    && stb@ == raw.skip(1);
            proof {
                assert(self.transport.log() =~= old(self).transport.log() + issue_trace(
                    tag@,
                    data@,
                    raw0,
                ) + poll_trace(raws) + status_cycle(rawn));
            }
            let val = decode_le32(stb.as_slice());
            proof {
                assert(status_val(rawn) == val);
            }
            if is_invalid_cmd(val) {
                proof {
                    assert(settled_trace(
                        old(self).transport.log(),
                        self.transport.log(),
                        tag@,
                        data@,
                        rawn,
                    ));
                    lemma_attempt_outcome_forced(
                        old(self).transport.log(),
                        self.transport.log(),
                        tag@,
                        data@,
                        Err::<(), Error>(Error::CommandRejected),
                    );
                }
                return Err(Error::CommandRejected);
            }
            if val == 0 {
                proof {
                    assert(settled_trace(
                        old(self).transport.log(),
                        self.transport.log(),
                        tag@,
                        data@,
                        rawn,
                    ));
                }
                break;
            }
            let cur = self.clock.now();
            if cur == u64::MAX || cur - start >= timeout_ms {
                proof {
                    assert(status_pending(rawn));
                    assert(settled_trace(
                        old(self).transport.log(),
                        self.transport.log(),
                        tag@,
                        data@,
                        rawn,
                    ));
                    lemma_attempt_outcome_forced(
                        old(self).transport.log(),
                        self.transport.log(),
                        tag@,
                        data@,
                        Err::<(), Error>(Error::CommandTimeout),
                    );
                }
                return Err(Error::CommandTimeout);
            }
            proof {
                lemma_poll_trace_push(raws, rawn);
                raws = raws.push(rawn);
                assert(self.transport.log() =~= issued_log + poll_trace(raws));
            }
        }
        self.clock.sleep(settle_ms);
        proof {
            lemma_attempt_outcome_forced(
                old(self).transport.log(),
                self.transport.log(),
                tag@,
                data@,
                Ok::<(), Error>(()),
            );
        }
        Ok(())
    }

    /// Read and decode the mode register.
    ///
    /// An unrecognized four-byte code, or a response of the wrong length,
    /// is a `ProtocolError`, never a new mode.
    pub fn get_mode(&mut self) -> (r: Result<Mode, Error>)
        ensures
            final(self).clock == old(self).clock,
            final(self).key == old(self).key,
            mode_read_trace(old(self).transport.log(), final(self).transport.log()),
            r matches Ok(m) ==> exists|raw: Seq<u8>|
                #![auto]
                final(self).transport.log() == old(self).transport.log() + read_cycle(
                    REG_MODE,
                    raw,
                ) && raw.len() == 5 && mode_of(raw.skip(1)) == Some(m),
            r == Err::<Mode, Error>(Error::ProtocolError) ==> exists|raw: Seq<u8>|
                #![auto]
                final(self).transport.log() == old(self).transport.log() + read_cycle(
                    REG_MODE,
                    raw,
                ) && (raw.len() != 5 || mode_of(raw.skip(1)) is None),
            r == Err::<Mode, Error>(Error::IoError)
                ==> final(self).transport.log() == old(self).transport.log()
                    || final(self).transport.log()
                        == old(self).transport.log().push(op_select(REG_MODE)),
            r is Err ==> r == Err::<Mode, Error>(Error::IoError)
                || r == Err::<Mode, Error>(Error::ProtocolError),
    {
        let b = match self.read_block(REG_MODE, 4) {
            Ok(b) => b,
            Err(e) => {
                return Err(e);
            }
        };
        match decode_mode(b.as_slice()) {
            Some(m) => Ok(m),
            None => Err(Error::ProtocolError),
        }
    }

    /// Issue a command with the default one-second budget and no settle
    /// delay.
    pub fn exec_cmd(&mut self, tag: &[u8], data: &[u8]) -> (r: Result<(), Error>)
        requires
            tag@.len() == 4,
            data@.len() <= 255,
        ensures
            final(self).key == old(self).key,
            exec_attempt_trace(
                old(self).transport.log(),
                final(self).transport.log(),
                tag@,
                data@,
                r,
            ),
            final(self).clock.now_ms() >= old(self).clock.now_ms(),
            r == Err::<(), Error>(Error::CommandTimeout)
                ==> final(self).clock.now_ms() >= old(self).clock.now_ms()
                    + DEFAULT_CMD_TIMEOUT_MS || final(self).clock.now_ms() == u64::MAX,
            forall|raw0: Seq<u8>|
                #![auto]
                final(self).transport.log() == old(self).transport.log() + status_cycle(raw0)
                    && status_pending(raw0) ==> r == Err::<(), Error>(Error::DeviceBusy),
            forall|rawn: Seq<u8>|
                #[trigger] settled_trace(
                    old(self).transport.log(),
                    final(self).transport.log(),
                    tag@,
                    data@,
                    rawn,
                ) ==> (status_val(rawn) == 0 ==> r is Ok) && (status_val(rawn)
                    == INVALID_CMD_SENTINEL ==> r == Err::<(), Error>(Error::CommandRejected))
                    && (status_pending(rawn) ==> r == Err::<(), Error>(Error::CommandTimeout)
                    || r == Err::<(), Error>(Error::IoError)),
    {
        self.exec_cmd_with_timing(tag, data, DEFAULT_CMD_TIMEOUT_MS, 0)
    }

    /// Authenticate against the chip with `key` (the byte-reversed device
    /// code, or all zeroes to relock).
    pub fn lock(&mut self, key: &[u8]) -> (r: Result<(), Error>)
        requires
            key@.len() <= 255,
        ensures
            final(self).key == old(self).key,
            final(self).clock.now_ms() >= old(self).clock.now_ms(),
            exec_attempt_trace(
                old(self).transport.log(),
                final(self).transport.log(),
                lock_tag(),
                key@,
                r,
            ),
            r == Err::<(), Error>(Error::CommandTimeout)
                ==> final(self).clock.now_ms() >= old(self).clock.now_ms()
                    + DEFAULT_CMD_TIMEOUT_MS || final(self).clock.now_ms() == u64::MAX,
            forall|raw0: Seq<u8>|
                #![auto]
                final(self).transport.log() == old(self).transport.log() + status_cycle(raw0)
                    && status_pending(raw0) ==> r == Err::<(), Error>(Error::DeviceBusy),
            forall|rawn: Seq<u8>|
                #[trigger] settled_trace(
                    old(self).transport.log(),
                    final(self).transport.log(),
                    lock_tag(),
                    key@,
                    rawn,
                ) ==> (status_val(rawn) == 0 ==> r is Ok) && (status_val(rawn)
                    == INVALID_CMD_SENTINEL ==> r == Err::<(), Error>(Error::CommandRejected))
                    && (status_pending(rawn) ==> r == Err::<(), Error>(Error::CommandTimeout)
                    || r == Err::<(), Error>(Error::IoError)),
    {
        let tag = tag_bytes(0x4C, 0x4F, 0x43, 0x4B);
        self.exec_cmd(tag.as_slice(), key)
    }

    /// Enter (`debug == true`) or leave (`false`) the elevated debug mode,
    /// then require the mode register to read `DBMa`.
    pub fn dbma(&mut self, debug: bool) -> (r: Result<(), Error>)
        ensures
            final(self).key == old(self).key,
            final(self).clock.now_ms() >= old(self).clock.now_ms(),
            dbma_any_trace(
                old(self).transport.log(),
                final(self).transport.log(),
                dbma_flag(debug),
            ),
            r is Ok ==> dbma_ok_trace(
                old(self).transport.log(),
                final(self).transport.log(),
                dbma_flag(debug),
            ),
            r == Err::<(), Error>(Error::IncompatibleState) ==> dbma_incompatible_trace(
                old(self).transport.log(),
                final(self).transport.log(),
                dbma_flag(debug),
            ),
            r != Err::<(), Error>(Error::InvalidArgument)
                && r != Err::<(), Error>(Error::ReconnectTimeout),
            dbma_ok_trace(
                old(self).transport.log(),
                final(self).transport.log(),
                dbma_flag(debug),
            ) ==> r is Ok,
            dbma_incompatible_trace(
                old(self).transport.log(),
                final(self).transport.log(),
                dbma_flag(debug),
            ) ==> r == Err::<(), Error>(Error::IncompatibleState),
    {
        let mut data: Vec<u8> = Vec::new();
        data.push(if debug { 1 } else { 0 });
        proof {
            assert(data@ =~= seq![dbma_flag(debug)]);
        }
        let tag = tag_bytes(0x44, 0x42, 0x4D, 0x61);
        proof {
            assert(tag@ =~= dbma_tag());
        }
        let ghost pre = old(self).transport.log();
        let ghost flag = dbma_flag(debug);
        match self.exec_cmd(tag.as_slice(), data.as_slice()) {
            Ok(()) => {}
            Err(e) => {
                proof {
                    assert(exec_attempt_trace(
                        pre,
                        self.transport.log(),
                        dbma_tag(),
                        seq![flag],
                        Err::<(), Error>(e),
                    ));
                    assert(mode_read_trace(self.transport.log(), self.transport.log()));
                    assert(dbma_any_trace(pre, self.transport.log(), flag));
                    lemma_err_attempt_no_mode_tail(
                        pre,
                        self.transport.log(),
                        dbma_tag(),
                        seq![flag],
                        e,
                    );
                }
                return Err(e);
            }
        }
        let ghost mid = self.transport.log();
        proof {
            assert(exec_attempt_trace(pre, mid, dbma_tag(), seq![flag], Ok::<(), Error>(())));
        }
        let m = match self.get_mode() {
            Ok(m) => m,
            Err(e) => {
                proof {
                    assert(mode_read_trace(mid, self.transport.log()));
                    assert(dbma_any_trace(pre, self.transport.log(), flag));
                    if dbma_ok_trace(pre, self.transport.log(), flag) || dbma_incompatible_trace(
                        pre,
                        self.transport.log(),
                        flag,
                    ) {
                        let (mid2, mraw2) = choose|mid2: Seq<BusOp>, mraw2: Seq<u8>|
                            #![auto]
                            exec_attempt_trace(pre, mid2, dbma_tag(), seq![flag], Ok(()))
                                && self.transport.log() == mid2 + read_cycle(REG_MODE, mraw2)
                                && mraw2.len() == 5 && mode_of(mraw2.skip(1)) is Some;
                        let rawn = choose|rawn: Seq<u8>|
                            #![auto]
                            settled_trace(pre, mid, dbma_tag(), seq![flag], rawn) && status_val(
                                rawn,
                            ) == 0;
                        lemma_settled_props(pre, mid, dbma_tag(), seq![flag], rawn);
                        assert(self.transport.log()[self.transport.log().len() - 1]
                            == BusOp::Read(mraw2));
                        assert(self.transport.log()[self.transport.log().len() - 2] == op_select(
                            REG_MODE,
                        ));
                        if self.transport.log() == mid {
                            assert(mid[mid.len() - 2] == op_select(REG_CMD));
                            assert(seq![REG_MODE][0] == REG_MODE && seq![REG_CMD][0] == REG_CMD);
                        } else if self.transport.log() == mid.push(op_select(REG_MODE)) {
                            assert(self.transport.log()[self.transport.log().len() - 1]
                                == op_select(REG_MODE));
                        } else {
                            let rawb = choose|rawb: Seq<u8>|
                                #![auto]
                                self.transport.log() == mid + read_cycle(REG_MODE, rawb) && (
                                rawb.len() != 5 || mode_of(rawb.skip(1)) is None);
                            lemma_mode_tail_unique(
                                mid,
                                mid2,
                                self.transport.log(),
                                rawb,
                                mraw2,
                            );
                        }
                        assert(false);
                    }
                }
                return Err(e);
            }
        };
        let ghost raw = choose|raw: Seq<u8>|
            #![auto]
            self.transport.log() == mid + read_cycle(REG_MODE, raw) && raw.len() == 5
                && mode_of(raw.skip(1)) == Some(m);
        proof {
            assert(mode_read_trace(mid, self.transport.log()));
            assert(dbma_any_trace(pre, self.transport.log(), flag));
        }
        if m != Mode::Dbma {
            proof {
                assert(dbma_incompatible_trace(pre, self.transport.log(), flag));
                if dbma_ok_trace(pre, self.transport.log(), flag) {
                    let (mid2, mraw2) = choose|mid2: Seq<BusOp>, mraw2: Seq<u8>|
                        #![auto]
                        exec_attempt_trace(pre, mid2, dbma_tag(), seq![flag], Ok(()))
                            && self.transport.log() == mid2 + read_cycle(REG_MODE, mraw2)
                            && mraw2.len() == 5 && mode_of(mraw2.skip(1)) == Some(Mode::Dbma);
                    lemma_mode_tail_unique(mid, mid2, self.transport.log(), raw, mraw2);
                    assert(false);
                }
            }
            return Err(Error::IncompatibleState);
        }
        proof {
            assert(dbma_ok_trace(pre, self.transport.log(), flag));
            if dbma_incompatible_trace(pre, self.transport.log(), flag) {
                let (mid2, mraw2, m2) = choose|mid2: Seq<BusOp>, mraw2: Seq<u8>, m2: Mode|
                    #![auto]
                    exec_attempt_trace(pre, mid2, dbma_tag(), seq![flag], Ok(()))
                        && self.transport.log() == mid2 + read_cycle(REG_MODE, mraw2)
                        && mraw2.len() == 5 && mode_of(mraw2.skip(1)) == Some(m2) && m2
                        != Mode::Dbma;
                lemma_mode_tail_unique(mid, mid2, self.transport.log(), raw, mraw2);
                assert(false);
            }
        }
        Ok(())
    }

    /// Best-effort teardown: leave debug mode, then relock with the
    /// all-zero key.
    ///
    /// Both steps are attempted exactly once each, in that order, whatever
    /// the outcome of whatever came before; a failure of either is
    /// discarded, so teardown never replaces a result already being
    /// reported.
    pub fn close(&mut self)
        ensures
            final(self).key == old(self).key,
            final(self).clock.now_ms() >= old(self).clock.now_ms(),
            exists|mid: Seq<BusOp>|
                #![auto]
                dbma_any_trace(old(self).transport.log(), mid, 0) && lock_any_trace(
                    mid,
                    final(self).transport.log(),
                    zero_key(),
                ),
    {
        let _ = self.dbma(false);
        let ghost mid = self.transport.log();
        let zeros = tag_bytes(0, 0, 0, 0);
        proof {
            assert(zeros@ =~= zero_key());
        }
        let _ = self.lock(zeros.as_slice());
    }
}

/// The one-byte payload that selects the debug-mode state.
pub open spec fn dbma_flag(debug: bool) -> u8 {
    if debug {
        1
    } else {
        0
    }
}

/// Build a four-byte value (a command tag, or the zero key).
fn tag_bytes(c0: u8, c1: u8, c2: u8, c3: u8) -> (v: Vec<u8>)
    ensures
        v@ == seq![c0, c1, c2, c3],
{
    let mut v: Vec<u8> = Vec::new();
    v.push(c0);
    v.push(c1);
    v.push(c2);
    v.push(c3);
    proof {
        assert(v@ =~= seq![c0, c1, c2, c3]);
    }
    v
}

/// The message-origin marker of a vendor-defined message.
#[derive(Clone, Copy, Debug, PartialEq, Eq, Structural)]
pub enum VdmSop {
    Sop,
    SopPrime,
    SopPrimePrime,
    SopStar,
}

/// The two-bit encoding of a message origin.
pub open spec fn sop_bits(s: VdmSop) -> u8 {
    match s {
        VdmSop::Sop => 0,
        VdmSop::SopPrime => 1,
        VdmSop::SopPrimePrime => 2,
        VdmSop::SopStar => 3,
    }
}

/// The two-bit encoding of a message origin.
pub fn sop_bits_exec(s: VdmSop) -> (r: u8)
    ensures
        r == sop_bits(s),
{
    match s {
        VdmSop::Sop => 0,
        VdmSop::SopPrime => 1,
        VdmSop::SopPrimePrime => 2,
        VdmSop::SopStar => 3,
    }
}

/// The little-endian serialization of a run of 32-bit words.
pub open spec fn le_words(ws: Seq<u32>) -> Seq<u8>
    decreases ws.len(),
{
    if ws.len() == 0 {
        Seq::empty()
    } else {
        le_bytes32(ws[0]) + le_words(ws.skip(1))
    }
}

/// Serializing one more word appends its four bytes.
pub proof fn lemma_le_words_push(ws: Seq<u32>, w: u32)
    ensures
        le_words(ws.push(w)) == le_words(ws) + le_bytes32(w),
        le_words(ws.push(w)).len() == le_words(ws).len() + 4,
    decreases ws.len(),
{
    let a = ws.push(w);
    if ws.len() == 0 {
        assert(a.skip(1) =~= Seq::<u32>::empty());
        assert(le_words(a) == le_bytes32(a[0]) + le_words(a.skip(1)));
        assert(le_words(a.skip(1)) == Seq::<u8>::empty());
        assert(le_words(a) =~= le_words(ws) + le_bytes32(w));
    } else {
        assert(a[0] == ws[0]);
        assert(a.skip(1) =~= ws.skip(1).push(w));
        lemma_le_words_push(ws.skip(1), w);
        assert(le_words(a) == le_bytes32(a[0]) + le_words(a.skip(1)));
        assert(le_words(a.skip(1)) == le_words(ws.skip(1)) + le_bytes32(w));
        assert(le_words(ws) == le_bytes32(ws[0]) + le_words(ws.skip(1)));
        assert(le_words(a) =~= le_words(ws) + le_bytes32(w));
    }
}

/// A vendor-defined message on the wire: one header byte holding the
/// origin in the high nibble and the word count in the low nibble,
/// followed by the words, little-endian.
pub open spec fn vdm_payload(s: VdmSop, ws: Seq<u32>) -> Seq<u8>
    recommends
        1 <= ws.len() <= 7,
{
    seq![(sop_bits(s) * 16 + ws.len()) as u8] + le_words(ws)
}

/// The header byte carries the origin and the word count in its two
/// nibbles.
pub proof fn lemma_vdm_header_nibbles(s: VdmSop, ws: Seq<u32>)
    requires
        1 <= ws.len() <= 7,
    ensures
        vdm_payload(s, ws)[0] % 16 == ws.len(),
        vdm_payload(s, ws)[0] / 16 == sop_bits(s),
{
    assert(sop_bits(s) <= 3);
    assert(vdm_payload(s, ws)[0] == (sop_bits(s) * 16 + ws.len()) as u8);
}

/// Serialize a vendor-defined message.
pub fn build_vdm_payload(sop: VdmSop, vdos: &[u32]) -> (v: Vec<u8>)
    requires
        1 <= vdos@.len() <= 7,
    ensures
        v@ == vdm_payload(sop, vdos@),
        v@.len() == 1 + 4 * vdos@.len(),
{
    let bits = sop_bits_exec(sop);
    let header: u8 = bits * 16 + (vdos.len() as u8);
    let mut v: Vec<u8> = Vec::new();
    v.push(header);
    let mut i: usize = 0;
    while i < vdos.len()
        invariant
            i <= vdos@.len(),
            vdos@.len() <= 7,
            header == (sop_bits(sop) * 16 + vdos@.len()) as u8,
            v@ == seq![header] + le_words(vdos@.take(i as int)),
            v@.len() == 1 + 4 * i,
        decreases vdos@.len() - i,
    {
        proof {
            assert(vdos@.take(i + 1) =~= vdos@.take(i as int).push(vdos@[i as int]));
            lemma_le_words_push(vdos@.take(i as int), vdos@[i as int]);
        }
        push_le_bytes32(&mut v, vdos[i]);
        i = i + 1;
        proof {
            assert(v@ =~= seq![header] + le_words(vdos@.take(i as int)));
        }
    }
    proof {
        assert(vdos@.take(vdos@.len() as int) =~= vdos@);
        assert(v@ =~= vdm_payload(sop, vdos@));
    }
    v
}

/// The log segment of a vendor-message command that fully succeeded: the
/// mode register read `DBMa`, then the serialized message was executed
/// under the `VDMs` tag and settled to zero.
pub open spec fn vdms_ok_trace(pre: Seq<BusOp>, post: Seq<BusOp>, sop: VdmSop, ws: Seq<u32>) -> bool {
    exists|mid: Seq<BusOp>, raw: Seq<u8>|
        #![auto]
        mid == pre + read_cycle(REG_MODE, raw) && raw.len() == 5
            && mode_of(raw.skip(1)) == Some(Mode::Dbma)
            && exec_attempt_trace(mid, post, vdms_tag(), vdm_payload(sop, ws), Ok(()))
}

/// Everything a vendor-message command can have put in the log, whatever
/// its outcome: nothing (a rejected word count), an incomplete or
/// unsuitable mode read, or the mode read followed by a command-execution
/// attempt of the serialized message.
pub open spec fn vdms_attempt_trace(
    pre: Seq<BusOp>,
    post: Seq<BusOp>,
    sop: VdmSop,
    ws: Seq<u32>,
) -> bool {
    exists|mid: Seq<BusOp>|
        #![auto]
        mode_read_trace(pre, mid) && (post == mid || exists|r1: Result<(), Error>|
            #![auto]
            exec_attempt_trace(mid, post, vdms_tag(), vdm_payload(sop, ws), r1))
}

impl<T: Transport, C: Clock> Device<T, C> {
    /// Send a vendor-defined message: check the word count, require debug
    /// mode, then execute the serialized message under the `VDMs` tag with
    /// the given budget and settle delay.
    ///
    /// The word count is rejected as `InvalidArgument` exactly when it is
    /// zero or above seven, before anything touches the bus.
    pub fn vdms_with_timing(
        &mut self,
        sop: VdmSop,
        vdos: &[u32],
        timeout_ms: u64,
        settle_ms: u64,
    ) -> (r: Result<(), Error>)
        ensures
            final(self).key == old(self).key,
            final(self).clock.now_ms() >= old(self).clock.now_ms(),
            vdms_attempt_trace(
                old(self).transport.log(),
                final(self).transport.log(),
                sop,
                vdos@,
            ),
            (r == Err::<(), Error>(Error::InvalidArgument)) <==> (vdos@.len() == 0
                || vdos@.len() > 7),
            r == Err::<(), Error>(Error::InvalidArgument)
                ==> final(self).transport.log() == old(self).transport.log()
                    && final(self).clock == old(self).clock,
            r is Ok ==> vdms_ok_trace(
                old(self).transport.log(),
                final(self).transport.log(),
                sop,
                vdos@,
            ),
            r == Err::<(), Error>(Error::IncompatibleState) ==> exists|raw: Seq<u8>, m: Mode|
                #![auto]
                final(self).transport.log() == old(self).transport.log() + read_cycle(
                    REG_MODE,
                    raw,
                ) && raw.len() == 5 && mode_of(raw.skip(1)) == Some(m) && m != Mode::Dbma,
            r != Err::<(), Error>(Error::ReconnectTimeout),
            r == Err::<(), Error>(Error::CommandTimeout)
                ==> final(self).clock.now_ms() >= old(self).clock.now_ms() + timeout_ms
                    || final(self).clock.now_ms() == u64::MAX,
            r is Ok ==> final(self).clock.now_ms() >= old(self).clock.now_ms() + settle_ms
                || final(self).clock.now_ms() == u64::MAX,
            forall|raw: Seq<u8>|
                #![trigger read_cycle(REG_MODE, raw)]
                final(self).transport.log() == old(self).transport.log() + read_cycle(
                    REG_MODE,
                    raw,
                ) && raw.len() == 5 && mode_of(raw.skip(1)) is Some && mode_of(raw.skip(1))
                    != Some(Mode::Dbma) ==> r == Err::<(), Error>(Error::IncompatibleState),
    {
        if vdos.len() == 0 || vdos.len() > 7 {
            proof {
                assert(mode_read_trace(old(self).transport.log(), self.transport.log()));
                assert(vdms_attempt_trace(
                    old(self).transport.log(),
                    self.transport.log(),
                    sop,
                    vdos@,
                ));
            }
            return Err(Error::InvalidArgument);
        }
        let m = match self.get_mode() {
            Ok(m) => m,
            Err(e) => {
                proof {
                    assert(vdms_attempt_trace(
                        old(self).transport.log(),
                        self.transport.log(),
                        sop,
                        vdos@,
                    ));
                    if e == Error::ProtocolError {
                        let rawb = choose|rawb: Seq<u8>|
                            #![auto]
                            self.transport.log() == old(self).transport.log() + read_cycle(
                                REG_MODE,
                                rawb,
                            ) && (rawb.len() != 5 || mode_of(rawb.skip(1)) is None);
                        assert forall|raw: Seq<u8>|
                            self.transport.log() == old(self).transport.log() + read_cycle(
                                REG_MODE,
                                raw,
                            ) implies raw == rawb by {
                            lemma_cycle_reading_unique(
                                old(self).transport.log(),
                                self.transport.log(),
                                REG_MODE,
                                raw,
                                rawb,
                            );
                        }
                    }
                }
                return Err(e);
            }
        };
        let ghost raw = choose|raw: Seq<u8>|
            #![auto]
            self.transport.log() == old(self).transport.log() + read_cycle(REG_MODE, raw)
                && raw.len() == 5 && mode_of(raw.skip(1)) == Some(m);
        if m != Mode::Dbma {
            proof {
                assert(vdms_attempt_trace(
                    old(self).transport.log(),
                    self.transport.log(),
                    sop,
                    vdos@,
                ));
            }
            return Err(Error::IncompatibleState);
        }
        let ghost mid = self.transport.log();
        let data = build_vdm_payload(sop, vdos);
        let tag = tag_bytes(0x56, 0x44, 0x4D, 0x73);
        proof {
            assert(tag@ =~= vdms_tag());
        }
        let res = self.exec_cmd_with_timing(tag.as_slice(), data.as_slice(), timeout_ms, settle_ms);
        proof {
            assert(exec_attempt_trace(
                mid,
                self.transport.log(),
                vdms_tag(),
                vdm_payload(sop, vdos@),
                res,
            ));
            assert forall|rawq: Seq<u8>|
                self.transport.log() == old(self).transport.log() + read_cycle(REG_MODE, rawq)
                    implies rawq == raw by {
                lemma_attempt_ops(mid, self.transport.log(), vdms_tag(), vdm_payload(sop, vdos@), res);
                assert(self.transport.log().len() == mid.len());
                assert(self.transport.log() =~= self.transport.log().take(mid.len() as int));
                lemma_cycle_reading_unique(
                    old(self).transport.log(),
                    self.transport.log(),
                    REG_MODE,
                    rawq,
                    raw,
                );
            }
            assert(vdms_attempt_trace(
                old(self).transport.log(),
                self.transport.log(),
                sop,
                vdos@,
            ));
            if res is Ok {
                assert(exec_attempt_trace(
                    mid,
                    self.transport.log(),
                    vdms_tag(),
                    vdm_payload(sop, vdos@),
                    Ok::<(), Error>(()),
                ));
                assert(vdms_ok_trace(
                    old(self).transport.log(),
                    self.transport.log(),
                    sop,
                    vdos@,
                ));
            }
        }
        res
    }

    /// Send a vendor-defined message with the default one-second budget
    /// and no settle delay.
    pub fn vdms(&mut self, sop: VdmSop, vdos: &[u32]) -> (r: Result<(), Error>)
        ensures
            final(self).key == old(self).key,
            final(self).clock.now_ms() >= old(self).clock.now_ms(),
            vdms_attempt_trace(
                old(self).transport.log(),
                final(self).transport.log(),
                sop,
                vdos@,
            ),
            (r == Err::<(), Error>(Error::InvalidArgument)) <==> (vdos@.len() == 0
                || vdos@.len() > 7),
            r == Err::<(), Error>(Error::InvalidArgument)
                ==> final(self).transport.log() == old(self).transport.log()
                    && final(self).clock == old(self).clock,
            r is Ok ==> vdms_ok_trace(
                old(self).transport.log(),
                final(self).transport.log(),
                sop,
                vdos@,
            ),
            r == Err::<(), Error>(Error::IncompatibleState) ==> exists|raw: Seq<u8>, m: Mode|
                #![auto]
                final(self).transport.log() == old(self).transport.log() + read_cycle(
                    REG_MODE,
                    raw,
                ) && raw.len() == 5 && mode_of(raw.skip(1)) == Some(m) && m != Mode::Dbma,
            r != Err::<(), Error>(Error::ReconnectTimeout),
            r == Err::<(), Error>(Error::CommandTimeout)
                ==> final(self).clock.now_ms() >= old(self).clock.now_ms()
                    + DEFAULT_CMD_TIMEOUT_MS || final(self).clock.now_ms() == u64::MAX,
            forall|raw: Seq<u8>|
                #![trigger read_cycle(REG_MODE, raw)]
                final(self).transport.log() == old(self).transport.log() + read_cycle(
                    REG_MODE,
                    raw,
                ) && raw.len() == 5 && mode_of(raw.skip(1)) is Some && mode_of(raw.skip(1))
                    != Some(Mode::Dbma) ==> r == Err::<(), Error>(Error::IncompatibleState),
    {
        self.vdms_with_timing(sop, vdos, DEFAULT_CMD_TIMEOUT_MS, 0)
    }

    /// Enable the corresponding passthrough on the local end: execute the
    /// given words, serialized little-endian, under the `DVEn` tag.
    pub fn dven(&mut self, vdos: &[u32]) -> (r: Result<(), Error>)
        requires
            vdos@.len() <= 63,
        ensures
            final(self).key == old(self).key,
            final(self).clock.now_ms() >= old(self).clock.now_ms(),
            exec_attempt_trace(
                old(self).transport.log(),
                final(self).transport.log(),
                dven_tag(),
                le_words(vdos@),
                r,
            ),
            r == Err::<(), Error>(Error::CommandTimeout)
                ==> final(self).clock.now_ms() >= old(self).clock.now_ms()
                    + DEFAULT_CMD_TIMEOUT_MS || final(self).clock.now_ms() == u64::MAX,
            forall|raw0: Seq<u8>|
                #![auto]
                final(self).transport.log() == old(self).transport.log() + status_cycle(raw0)
                    && status_pending(raw0) ==> r == Err::<(), Error>(Error::DeviceBusy),
            forall|rawn: Seq<u8>|
                #[trigger] settled_trace(
                    old(self).transport.log(),
                    final(self).transport.log(),
                    dven_tag(),
                    le_words(vdos@),
                    rawn,
                ) ==> (status_val(rawn) == 0 ==> r is Ok) && (status_val(rawn)
                    == INVALID_CMD_SENTINEL ==> r == Err::<(), Error>(Error::CommandRejected))
                    && (status_pending(rawn) ==> r == Err::<(), Error>(Error::CommandTimeout)
                    || r == Err::<(), Error>(Error::IoError)),
    {
        let mut data: Vec<u8> = Vec::new();
        let mut i: usize = 0;
        while i < vdos.len()
            invariant
                i <= vdos@.len(),
                vdos@.len() <= 63,
                data@ == le_words(vdos@.take(i as int)),
                data@.len() == 4 * i,
            decreases vdos@.len() - i,
        {
            proof {
                assert(vdos@.take(i + 1) =~= vdos@.take(i as int).push(vdos@[i as int]));
                lemma_le_words_push(vdos@.take(i as int), vdos@[i as int]);
            }
            push_le_bytes32(&mut data, vdos[i]);
            i = i + 1;
        }
        proof {
            assert(vdos@.take(vdos@.len() as int) =~= vdos@);
        }
        let tag = tag_bytes(0x44, 0x56, 0x45, 0x6E);
        self.exec_cmd(tag.as_slice(), data.as_slice())
    }

    /// Read the power-status register and report bit 0 of its
    /// little-endian value: whether the downstream device is connected.
    pub fn check_connected(&mut self) -> (r: Result<bool, Error>)
        ensures
            final(self).key == old(self).key,
            final(self).clock == old(self).clock,
            exists|sub: Seq<BusOp>|
                #![auto]
                final(self).transport.log() == old(self).transport.log() + sub
                    && power_wait_ops(sub),
            r matches Ok(b) ==> exists|raw: Seq<u8>|
                #![auto]
                final(self).transport.log() == old(self).transport.log() + read_cycle(
                    REG_POWER_STATUS,
                    raw,
                ) && raw.len() == 3 && b == (le16(raw.skip(1)) % 2 == 1),
            r is Err ==> r == Err::<bool, Error>(Error::IoError) || r == Err::<bool, Error>(
                Error::ProtocolError,
            ),
            r == Err::<bool, Error>(Error::IoError)
                ==> final(self).transport.log() == old(self).transport.log()
                    || final(self).transport.log() == old(self).transport.log().push(
                    op_select(REG_POWER_STATUS),
                ),
            r == Err::<bool, Error>(Error::ProtocolError) ==> exists|raw: Seq<u8>|
                #![auto]
                final(self).transport.log() == old(self).transport.log() + read_cycle(
                    REG_POWER_STATUS,
                    raw,
                ) && raw.len() != 3,
            forall|raw: Seq<u8>|
                #![auto]
                final(self).transport.log() == old(self).transport.log() + read_cycle(
                    REG_POWER_STATUS,
                    raw,
                ) && raw.len() == 3 ==> r == Ok::<bool, Error>(le16(raw.skip(1)) % 2 == 1),
    {
        let ghost pre = old(self).transport.log();
        let b = match self.read_block(REG_POWER_STATUS, 2) {
            Ok(b) => b,
            Err(e) => {
                proof {
                    if self.transport.log() == pre {
                        assert(self.transport.log() =~= pre + Seq::<BusOp>::empty());
                        assert(power_wait_ops(Seq::<BusOp>::empty()));
                        assert(self.transport.log().len() == pre.len());
                    } else if self.transport.log() == pre.push(op_select(REG_POWER_STATUS)) {
                        assert(self.transport.log() =~= pre + seq![
                            op_select(REG_POWER_STATUS),
                        ]);
                        assert(power_wait_ops(seq![op_select(REG_POWER_STATUS)]));
                        assert(self.transport.log().len() == pre.len() + 1);
                    } else {
                        let rawp = choose|rawp: Seq<u8>|
                            #![auto]
                            self.transport.log() == pre + read_cycle(REG_POWER_STATUS, rawp)
                                && rawp.len() != 3;
                        lemma_power_cycle_ops(rawp);
                        assert forall|raw: Seq<u8>|
                            self.transport.log() == pre + read_cycle(REG_POWER_STATUS, raw)
                                implies raw == rawp by {
                            lemma_cycle_reading_unique(
                                pre,
                                self.transport.log(),
                                REG_POWER_STATUS,
                                raw,
                                rawp,
                            );
                        }
                    }
                }
                return Err(e);
            }
        };
        proof {
            let rawa = choose|rawa: Seq<u8>|
                #![auto]
                self.transport.log() == pre + read_cycle(REG_POWER_STATUS, rawa) && rawa.len()
                    == 3 && b@ == rawa.skip(1);
            lemma_power_cycle_ops(rawa);
            assert forall|raw: Seq<u8>|
                self.transport.log() == pre + read_cycle(REG_POWER_STATUS, raw) implies raw
                    == rawa by {
                lemma_cycle_reading_unique(pre, self.transport.log(), REG_POWER_STATUS, raw, rawa);
            }
        }
        let v = decode_le16(b.as_slice());
        Ok(v % 2 == 1)
    }
}

/// Both operations of a power-status read cycle stay on the power-status
/// register.
proof fn lemma_power_cycle_ops(raw: Seq<u8>)
    ensures
        power_wait_ops(read_cycle(REG_POWER_STATUS, raw)),
{
    let c = read_cycle(REG_POWER_STATUS, raw);
    assert forall|i: int| 0 <= i < c.len() implies is_power_wait_op(#[trigger] c[i]) by {
        if i == 0 {
            assert(c[0] == op_select(REG_POWER_STATUS));
        } else {
            assert(c[1] == BusOp::Read(raw));
        }
    }
}

/// An operation the reconnect wait is allowed to put in the log: a select
/// of the power-status register, or a read.
pub open spec fn is_power_wait_op(op: BusOp) -> bool {
    match op {
        BusOp::Write(b) => b == seq![REG_POWER_STATUS],
        BusOp::Read(_) => true,
    }
}

/// The reconnect wait only touches the power-status register.
pub open spec fn power_wait_ops(sub: Seq<BusOp>) -> bool {
    forall|i: int| 0 <= i < sub.len() ==> is_power_wait_op(#[trigger] sub[i])
}

/// A power-status response whose bit 0 reports the device as connected.
pub open spec fn connected_response(raw: Seq<u8>) -> bool {
    raw.len() == 3 && le16(raw.skip(1)) % 2 == 1
}

/// The vendor words that put the target into firmware-update mode.
pub open spec fn dfu_words() -> Seq<u32> {
    seq![0x5AC_8012u32, 0x106, 0x8001_0000]
}

/// The vendor words that reboot the target normally.
pub open spec fn reboot_words() -> Seq<u32> {
    seq![0x5AC_8012u32, 0x105, 0x8000_0000]
}

/// The vendor words that put the target side into serial passthrough.
pub open spec fn serial_words() -> Seq<u32> {
    seq![0x5AC_8012u32, 0x184_0306]
}

/// The vendor words that put the target into debug-USB passthrough.
pub open spec fn debugusb_words() -> Seq<u32> {
    seq![0x5AC_8012u32, 0x182_4606]
}

/// The log segment of a fully successful `serial` action: the vendor
/// message to the target, a mode read of `DBMa`, then the local `DVEn`
/// command carrying the passthrough word.
pub open spec fn serial_ok_trace(pre: Seq<BusOp>, post: Seq<BusOp>) -> bool {
    exists|l1: Seq<BusOp>, raw: Seq<u8>|
        #![auto]
        vdms_ok_trace(pre, l1, VdmSop::SopStar, serial_words()) && raw.len() == 5
            && mode_of(raw.skip(1)) == Some(Mode::Dbma) && exec_attempt_trace(
            l1 + read_cycle(REG_MODE, raw),
            post,
            dven_tag(),
            le_words(seq![0x184_0306u32]),
            Ok(()),
        )
}

/// A fully successful vendor-message command's log segment is at least
/// seven operations long and ends with the final command-register poll.
pub proof fn lemma_vdms_ok_props(pre: Seq<BusOp>, post: Seq<BusOp>, sop: VdmSop, ws: Seq<u32>)
    requires
        vdms_ok_trace(pre, post, sop, ws),
    ensures
        post.len() >= pre.len() + 7,
        post[post.len() - 1] matches BusOp::Read(_),
        post[post.len() - 2] == op_select(REG_CMD),
{
    let (mid, raw) = choose|mid: Seq<BusOp>, raw: Seq<u8>|
        #![auto]
        mid == pre + read_cycle(REG_MODE, raw) && raw.len() == 5 && mode_of(raw.skip(1))
            == Some(Mode::Dbma) && exec_attempt_trace(
            mid,
            post,
            vdms_tag(),
            vdm_payload(sop, ws),
            Ok(()),
        );
    let rawn = choose|rawn: Seq<u8>|
        #![auto]
        settled_trace(mid, post, vdms_tag(), vdm_payload(sop, ws), rawn) && status_val(rawn) == 0;
    lemma_settled_props(mid, post, vdms_tag(), vdm_payload(sop, ws), rawn);
}

/// Everything a `serial` action can have put in the log, whatever its
/// outcome: a vendor-message attempt, then at most one mode read, then at
/// most one local-enable command attempt.
pub open spec fn serial_attempt_trace(pre: Seq<BusOp>, post: Seq<BusOp>) -> bool {
    exists|m1: Seq<BusOp>, m2: Seq<BusOp>|
        #![auto]
        vdms_attempt_trace(pre, m1, VdmSop::SopStar, serial_words()) && mode_read_trace(m1, m2)
            && (post == m2 || exists|r1: Result<(), Error>|
            #![auto]
            exec_attempt_trace(m2, post, dven_tag(), le_words(seq![0x184_0306u32]), r1))
}

/// Everything a reboot-then-serial action can have put in the log,
/// whatever its outcome: a reboot-message attempt; or the successful
/// reboot followed by a power-status wait, cut there or continued past a
/// connected reading into a serial attempt.
pub open spec fn reboot_serial_attempt_trace(pre: Seq<BusOp>, post: Seq<BusOp>) -> bool {
    ||| vdms_attempt_trace(pre, post, VdmSop::SopStar, reboot_words())
    ||| exists|l1: Seq<BusOp>, w: Seq<BusOp>|
        #![auto]
        vdms_ok_trace(pre, l1, VdmSop::SopStar, reboot_words()) && power_wait_ops(w) && (post
            == l1 + w || exists|raw: Seq<u8>|
            #![auto]
            connected_response(raw) && serial_attempt_trace(
                l1 + w + read_cycle(REG_POWER_STATUS, raw),
                post,
            ))
}

/// The log segment of a fully successful reboot-then-serial action: the
/// reboot message, a wait that only touches the power-status register and
/// ends on a connected reading, then the serial action.
pub open spec fn reboot_serial_ok_trace(pre: Seq<BusOp>, post: Seq<BusOp>) -> bool {
    exists|l1: Seq<BusOp>, w: Seq<BusOp>, raw: Seq<u8>|
        #![auto]
        vdms_ok_trace(pre, l1, VdmSop::SopStar, reboot_words()) && power_wait_ops(w)
            && connected_response(raw) && serial_ok_trace(
            l1 + w + read_cycle(REG_POWER_STATUS, raw),
            post,
        )
}

impl<T: Transport, C: Clock> Device<T, C> {
    /// Reboot the target into firmware-update (DFU) mode: one vendor
    /// message with a 200 ms budget and a 200 ms settle delay.
    pub fn dfu(&mut self) -> (r: Result<(), Error>)
        ensures
            final(self).key == old(self).key,
            final(self).clock.now_ms() >= old(self).clock.now_ms(),
            vdms_attempt_trace(
                old(self).transport.log(),
                final(self).transport.log(),
                VdmSop::SopStar,
                dfu_words(),
            ),
            r is Ok ==> vdms_ok_trace(
                old(self).transport.log(),
                final(self).transport.log(),
                VdmSop::SopStar,
                dfu_words(),
            ),
            r != Err::<(), Error>(Error::InvalidArgument)
                && r != Err::<(), Error>(Error::ReconnectTimeout),
            r == Err::<(), Error>(Error::CommandTimeout)
                ==> final(self).clock.now_ms() >= old(self).clock.now_ms() + DFU_CMD_TIMEOUT_MS
                    || final(self).clock.now_ms() == u64::MAX,
            r is Ok ==> final(self).clock.now_ms() >= old(self).clock.now_ms() + DFU_SETTLE_MS
                || final(self).clock.now_ms() == u64::MAX,
    {
        let mut w: Vec<u32> = Vec::new();
        w.push(0x5AC_8012);
        w.push(0x106);
        w.push(0x8001_0000);
        proof {
            assert(w@ =~= dfu_words());
        }
        self.vdms_with_timing(VdmSop::SopStar, w.as_slice(), DFU_CMD_TIMEOUT_MS, DFU_SETTLE_MS)
    }

    /// Reboot the target into normal mode: one vendor message with the
    /// default one-second budget and no settle delay.
    pub fn reboot(&mut self) -> (r: Result<(), Error>)
        ensures
            final(self).key == old(self).key,
            final(self).clock.now_ms() >= old(self).clock.now_ms(),
            vdms_attempt_trace(
                old(self).transport.log(),
                final(self).transport.log(),
                VdmSop::SopStar,
                reboot_words(),
            ),
            r is Ok ==> vdms_ok_trace(
                old(self).transport.log(),
                final(self).transport.log(),
                VdmSop::SopStar,
                reboot_words(),
            ),
            r != Err::<(), Error>(Error::InvalidArgument)
                && r != Err::<(), Error>(Error::ReconnectTimeout),
            r == Err::<(), Error>(Error::CommandTimeout)
                ==> final(self).clock.now_ms() >= old(self).clock.now_ms()
                    + DEFAULT_CMD_TIMEOUT_MS || final(self).clock.now_ms() == u64::MAX,
    {
        let mut w: Vec<u32> = Vec::new();
        w.push(0x5AC_8012);
        w.push(0x105);
        w.push(0x8000_0000);
        proof {
            assert(w@ =~= reboot_words());
        }
        self.vdms(VdmSop::SopStar, w.as_slice())
    }

    /// Put the target into debug-USB passthrough: one vendor message with
    /// the default one-second budget and no settle delay.
    pub fn debugusb(&mut self) -> (r: Result<(), Error>)
        ensures
            final(self).key == old(self).key,
            final(self).clock.now_ms() >= old(self).clock.now_ms(),
            vdms_attempt_trace(
                old(self).transport.log(),
                final(self).transport.log(),
                VdmSop::SopStar,
                debugusb_words(),
            ),
            r is Ok ==> vdms_ok_trace(
                old(self).transport.log(),
                final(self).transport.log(),
                VdmSop::SopStar,
                debugusb_words(),
            ),
            r != Err::<(), Error>(Error::InvalidArgument)
                && r != Err::<(), Error>(Error::ReconnectTimeout),
            r == Err::<(), Error>(Error::CommandTimeout)
                ==> final(self).clock.now_ms() >= old(self).clock.now_ms()
                    + DEFAULT_CMD_TIMEOUT_MS || final(self).clock.now_ms() == u64::MAX,
    {
        let mut w: Vec<u32> = Vec::new();
        w.push(0x5AC_8012);
        w.push(0x182_4606);
        proof {
            assert(w@ =~= debugusb_words());
        }
        self.vdms(VdmSop::SopStar, w.as_slice())
    }

    /// Put the target side into serial passthrough, require local debug
    /// mode, then enable the matching passthrough on the local end.  Both
    /// commands run with the default one-second budget and no settle
    /// delay.
    pub fn serial(&mut self) -> (r: Result<(), Error>)
        ensures
            final(self).key == old(self).key,
            final(self).clock.now_ms() >= old(self).clock.now_ms(),
            serial_attempt_trace(old(self).transport.log(), final(self).transport.log()),
            r is Ok ==> serial_ok_trace(old(self).transport.log(), final(self).transport.log()),
            r == Err::<(), Error>(Error::IncompatibleState) ==> exists|
                base: Seq<BusOp>,
                raw: Seq<u8>,
                m: Mode,
            |
                #![auto]
                (base == old(self).transport.log() || vdms_ok_trace(
                    old(self).transport.log(),
                    base,
                    VdmSop::SopStar,
                    serial_words(),
                )) && final(self).transport.log() == base + read_cycle(REG_MODE, raw)
                    && raw.len() == 5 && mode_of(raw.skip(1)) == Some(m) && m != Mode::Dbma,
            r != Err::<(), Error>(Error::InvalidArgument)
                && r != Err::<(), Error>(Error::ReconnectTimeout),
            r == Err::<(), Error>(Error::CommandTimeout)
                ==> final(self).clock.now_ms() >= old(self).clock.now_ms()
                    + DEFAULT_CMD_TIMEOUT_MS || final(self).clock.now_ms() == u64::MAX,
            forall|raw: Seq<u8>|
                #![trigger read_cycle(REG_MODE, raw)]
                final(self).transport.log() == old(self).transport.log() + read_cycle(
                    REG_MODE,
                    raw,
                ) && raw.len() == 5 && mode_of(raw.skip(1)) is Some && mode_of(raw.skip(1))
                    != Some(Mode::Dbma) ==> r == Err::<(), Error>(Error::IncompatibleState),
            forall|base: Seq<BusOp>, raw: Seq<u8>|
                #![trigger vdms_ok_trace(old(self).transport.log(), base, VdmSop::SopStar, serial_words()), read_cycle(REG_MODE, raw)]
                vdms_ok_trace(old(self).transport.log(), base, VdmSop::SopStar, serial_words())
                    && final(self).transport.log() == base + read_cycle(REG_MODE, raw)
                    && raw.len() == 5 && mode_of(raw.skip(1)) is Some && mode_of(raw.skip(1))
                    != Some(Mode::Dbma) ==> r == Err::<(), Error>(Error::IncompatibleState),
    {
        let mut w: Vec<u32> = Vec::new();
        w.push(0x5AC_8012);
        w.push(0x184_0306);
        proof {
            assert(w@ =~= serial_words());
        }
        let ghost pre = old(self).transport.log();
        match self.vdms(VdmSop::SopStar, w.as_slice()) {
            Ok(()) => {}
            Err(e) => {
                proof {
                    assert(mode_read_trace(self.transport.log(), self.transport.log()));
                    assert(serial_attempt_trace(pre, self.transport.log()));
                    let log = self.transport.log();
                    assert forall|base: Seq<BusOp>, rawq: Seq<u8>|
                        #![trigger vdms_ok_trace(pre, base, VdmSop::SopStar, serial_words()), read_cycle(REG_MODE, rawq)]
                        vdms_ok_trace(pre, base, VdmSop::SopStar, serial_words()) && log == base
                            + read_cycle(REG_MODE, rawq) implies e
                            == Error::IncompatibleState by {
                        if e != Error::IncompatibleState {
                            lemma_vdms_ok_props(pre, base, VdmSop::SopStar, serial_words());
                            assert(log[log.len() - 2] == op_select(REG_MODE));
                            let mid_a = choose|mid_a: Seq<BusOp>|
                                #![auto]
                                mode_read_trace(pre, mid_a) && (log == mid_a || exists|
                                    r1: Result<(), Error>,
                                |
                                    #![auto]
                                    exec_attempt_trace(
                                        mid_a,
                                        log,
                                        vdms_tag(),
                                        vdm_payload(VdmSop::SopStar, serial_words()),
                                        r1,
                                    ));
                            if mid_a == pre || mid_a == pre.push(op_select(REG_MODE)) {
                            } else {
                                let x = choose|x: Seq<u8>|
                                    #![auto]
                                    mid_a == pre + read_cycle(REG_MODE, x);
                                assert(mid_a.len() == pre.len() + 2);
                            }
                            assert(mid_a.len() <= pre.len() + 2);
                            if log == mid_a {
                                assert(log.len() <= pre.len() + 2);
                            } else {
                                let r1 = choose|r1: Result<(), Error>|
                                    #![auto]
                                    exec_attempt_trace(
                                        mid_a,
                                        log,
                                        vdms_tag(),
                                        vdm_payload(VdmSop::SopStar, serial_words()),
                                        r1,
                                    );
                                lemma_attempt_ops(
                                    mid_a,
                                    log,
                                    vdms_tag(),
                                    vdm_payload(VdmSop::SopStar, serial_words()),
                                    r1,
                                );
                                assert(is_cmd_attempt_op(
                                    log[log.len() - 2],
                                    vdms_tag(),
                                    vdm_payload(VdmSop::SopStar, serial_words()),
                                ));
                                assert(seq![REG_MODE][0] == REG_MODE && seq![REG_CMD][0]
                                    == REG_CMD);
                            }
                            assert(false);
                        }
                    }
                }
                return Err(e);
            }
        }
        let ghost l1 = self.transport.log();
        proof {
            lemma_vdms_ok_props(pre, l1, VdmSop::SopStar, serial_words());
        }
        let m = match self.get_mode() {
            Ok(m) => m,
            Err(e) => {
                proof {
                    assert(serial_attempt_trace(pre, self.transport.log()));
                    let log = self.transport.log();
                    assert forall|rawq: Seq<u8>|
                        !(log == pre + read_cycle(REG_MODE, rawq)) by {
                        if log == pre + read_cycle(REG_MODE, rawq) {
                            assert(log.len() >= l1.len());
                            assert(log.len() == pre.len() + 2);
                        }
                    }
                    assert forall|base: Seq<BusOp>, rawq: Seq<u8>|
                        #![trigger vdms_ok_trace(pre, base, VdmSop::SopStar, serial_words()), read_cycle(REG_MODE, rawq)]
                        !(vdms_ok_trace(pre, base, VdmSop::SopStar, serial_words()) && log
                            == base + read_cycle(REG_MODE, rawq) && rawq.len() == 5 && mode_of(
                            rawq.skip(1),
                        ) is Some) by {
                        if vdms_ok_trace(pre, base, VdmSop::SopStar, serial_words()) && log
                            == base + read_cycle(REG_MODE, rawq) && rawq.len() == 5 && mode_of(
                            rawq.skip(1),
                        ) is Some {
                            assert(log[log.len() - 2] == op_select(REG_MODE));
                            assert(log[log.len() - 1] == BusOp::Read(rawq));
                            if log == l1 {
                            } else if log == l1.push(op_select(REG_MODE)) {
                                assert(log[log.len() - 1] == op_select(REG_MODE));
                            } else {
                                let rawb = choose|rawb: Seq<u8>|
                                    #![auto]
                                    log == l1 + read_cycle(REG_MODE, rawb) && (rawb.len() != 5
                                        || mode_of(rawb.skip(1)) is None);
                                lemma_mode_tail_unique(l1, base, log, rawb, rawq);
                            }
                            assert(false);
                        }
                    }
                }
                return Err(e);
            }
        };
        let ghost raw = choose|raw: Seq<u8>|
            #![auto]
            self.transport.log() == l1 + read_cycle(REG_MODE, raw) && raw.len() == 5
                && mode_of(raw.skip(1)) == Some(m);
        if m != Mode::Dbma {
            proof {
                assert(serial_attempt_trace(pre, self.transport.log()));
            }
            return Err(Error::IncompatibleState);
        }
        let mut dw: Vec<u32> = Vec::new();
        dw.push(0x184_0306);
        proof {
            assert(dw@ =~= seq![0x184_0306u32]);
        }
        let ghost l2 = self.transport.log();
        let res = self.dven(dw.as_slice());
        proof {
            assert(exec_attempt_trace(
                l2,
                self.transport.log(),
                dven_tag(),
                le_words(seq![0x184_0306u32]),
                res,
            ));
            assert(serial_attempt_trace(pre, self.transport.log()));
            if res is Ok {
                assert(serial_ok_trace(pre, self.transport.log()));
            }
            let log = self.transport.log();
            lemma_attempt_ops(l2, log, dven_tag(), le_words(seq![0x184_0306u32]), res);
            assert forall|rawq: Seq<u8>|
                !(log == pre + read_cycle(REG_MODE, rawq)) by {
                if log == pre + read_cycle(REG_MODE, rawq) {
                    assert(log.len() >= l2.len());
                    assert(log.len() == pre.len() + 2);
                }
            }
            assert forall|base: Seq<BusOp>, rawq: Seq<u8>|
                #![trigger vdms_ok_trace(pre, base, VdmSop::SopStar, serial_words()), read_cycle(REG_MODE, rawq)]
                !(vdms_ok_trace(pre, base, VdmSop::SopStar, serial_words()) && log == base
                    + read_cycle(REG_MODE, rawq) && rawq.len() == 5 && mode_of(rawq.skip(1))
                    is Some && mode_of(rawq.skip(1)) != Some(Mode::Dbma)) by {
                if vdms_ok_trace(pre, base, VdmSop::SopStar, serial_words()) && log == base
                    + read_cycle(REG_MODE, rawq) && rawq.len() == 5 && mode_of(rawq.skip(1))
                    is Some && mode_of(rawq.skip(1)) != Some(Mode::Dbma) {
                    assert(log[log.len() - 2] == op_select(REG_MODE));
                    assert(log[log.len() - 1] == BusOp::Read(rawq));
                    if log.len() == l2.len() {
                        assert(log =~= log.take(l2.len() as int));
                        lemma_mode_tail_unique(l1, base, log, raw, rawq);
                    } else if log.len() == l2.len() + 1 {
                        assert(log[log.len() - 2] == l2[l2.len() - 1]);
                        assert(l2[l2.len() - 1] == BusOp::Read(raw));
                    } else {
                        assert(log.len() - 2 >= l2.len());
                        assert(is_cmd_attempt_op(
                            log[log.len() - 2],
                            dven_tag(),
                            le_words(seq![0x184_0306u32]),
                        ));
                        assert(seq![REG_MODE][0] == REG_MODE && seq![REG_CMD][0] == REG_CMD);
                    }
                    assert(false);
                }
            }
        }
        res
    }

    /// Reboot the target, wait for the bus to report it connected again,
    /// then enter serial passthrough on both ends.
    ///
    /// After the reboot message, a fixed settle interval is slept, then
    /// the power-status register is polled every 100 ms; a transport-level
    /// read failure during this wait is treated as "not yet connected",
    /// tolerating bus instability right after the reset.  If the connected
    /// bit is not observed within the 3-second budget, the result is
    /// `ReconnectTimeout`.
    pub fn reboot_serial(&mut self) -> (r: Result<(), Error>)
        ensures
            final(self).key == old(self).key,
            final(self).clock.now_ms() >= old(self).clock.now_ms(),
            r is Ok ==> reboot_serial_ok_trace(
                old(self).transport.log(),
                final(self).transport.log(),
            ),
            r == Err::<(), Error>(Error::ReconnectTimeout)
                ==> final(self).clock.now_ms() > old(self).clock.now_ms()
                    + RECONNECT_TIMEOUT_MS || final(self).clock.now_ms() == u64::MAX,
            r == Err::<(), Error>(Error::ReconnectTimeout) ==> exists|
                l1: Seq<BusOp>,
                w: Seq<BusOp>,
            |
                #![auto]
                vdms_ok_trace(old(self).transport.log(), l1, VdmSop::SopStar, reboot_words())
                    && power_wait_ops(w) && final(self).transport.log() == l1 + w,
            reboot_serial_attempt_trace(old(self).transport.log(), final(self).transport.log()),
            r is Ok ==> final(self).clock.now_ms() >= old(self).clock.now_ms() + 2
                * RECONNECT_WAIT_MS || final(self).clock.now_ms() == u64::MAX,
            (r is Err && r != Err::<(), Error>(Error::ReconnectTimeout)) ==> vdms_attempt_trace(
                old(self).transport.log(),
                final(self).transport.log(),
                VdmSop::SopStar,
                reboot_words(),
            ) || exists|l1: Seq<BusOp>, w: Seq<BusOp>, raw: Seq<u8>|
                #![auto]
                vdms_ok_trace(old(self).transport.log(), l1, VdmSop::SopStar, reboot_words())
                    && power_wait_ops(w) && connected_response(raw) && serial_attempt_trace(
                    l1 + w + read_cycle(REG_POWER_STATUS, raw),
                    final(self).transport.log(),
                ),
            r != Err::<(), Error>(Error::InvalidArgument),
            r == Err::<(), Error>(Error::CommandTimeout)
                ==> final(self).clock.now_ms() >= old(self).clock.now_ms()
                    + DEFAULT_CMD_TIMEOUT_MS || final(self).clock.now_ms() == u64::MAX,
    {
        match self.reboot() {
            Ok(()) => {}
            Err(e) => {
                proof {
                    assert(reboot_serial_attempt_trace(
                        old(self).transport.log(),
                        self.transport.log(),
                    ));
                }
                return Err(e);
            }
        }
        let ghost pre = old(self).transport.log();
        let ghost l1 = self.transport.log();
        self.clock.sleep(RECONNECT_WAIT_MS);
        let ghost sl1 = self.clock.now_ms();
        let start = self.clock.now();
        let ghost mut w: Seq<BusOp> = Seq::empty();
        proof {
            assert(self.transport.log() =~= l1 + w);
        }
        loop
            invariant_except_break
                self.transport.log() == l1 + w,
            invariant
                self.key == old(self).key,
                pre == old(self).transport.log(),
                vdms_ok_trace(pre, l1, VdmSop::SopStar, reboot_words()),
                power_wait_ops(w),
                self.clock.now_ms() >= start,
                start >= sl1,
                sl1 >= old(self).clock.now_ms() + RECONNECT_WAIT_MS || sl1 == u64::MAX,
            ensures
                self.key == old(self).key,
                self.clock.now_ms() >= sl1,
                sl1 >= old(self).clock.now_ms() + RECONNECT_WAIT_MS || sl1 == u64::MAX,
                exists|wv: Seq<BusOp>, raw: Seq<u8>|
                    #![auto]
                    self.transport.log() == l1 + wv + read_cycle(REG_POWER_STATUS, raw)
                        && power_wait_ops(wv) && connected_response(raw),
            decreases u64::MAX - self.clock.now_ms(),
        {
            let ghost at_head = self.transport.log();
            let connected = match self.check_connected() {
                Ok(b) => b,
                Err(_) => false,
            };
            if connected {
                proof {
                    let raw = choose|raw: Seq<u8>|
                        #![auto]
                        self.transport.log() == at_head + read_cycle(REG_POWER_STATUS, raw)
                            && raw.len() == 3 && true == (le16(raw.skip(1)) % 2 == 1);
                    assert(connected_response(raw));
                    assert(self.transport.log() =~= l1 + w + read_cycle(
                        REG_POWER_STATUS,
                        raw,
                    ));
                }
                break;
            }
            proof {
                let sub = choose|sub: Seq<BusOp>|
                    #![auto]
                    self.transport.log() == at_head + sub && power_wait_ops(sub);
                assert forall|i: int| 0 <= i < (w + sub).len() implies is_power_wait_op(
                    #[trigger] (w + sub)[i],
                ) by {
                    if i < w.len() {
                        assert((w + sub)[i] == w[i]);
                    } else {
                        assert((w + sub)[i] == sub[i - w.len()]);
                    }
                }
                w = w + sub;
                assert(self.transport.log() =~= l1 + w);
            }
            self.clock.sleep(POLL_WAIT_MS);
            let cur = self.clock.now();
            if cur == u64::MAX || cur - start > RECONNECT_TIMEOUT_MS {
                proof {
                    assert(vdms_ok_trace(
                        old(self).transport.log(),
                        l1,
                        VdmSop::SopStar,
                        reboot_words(),
                    ));
                    assert(power_wait_ops(w) && self.transport.log() == l1 + w);
                    assert(reboot_serial_attempt_trace(pre, self.transport.log()));
                }
                return Err(Error::ReconnectTimeout);
            }
        }
        let ghost (wv, rawc) = choose|wv: Seq<BusOp>, rawc: Seq<u8>|
            #![auto]
            self.transport.log() == l1 + wv + read_cycle(REG_POWER_STATUS, rawc)
                && power_wait_ops(wv) && connected_response(rawc);
        self.clock.sleep(RECONNECT_WAIT_MS);
        let ghost l2 = self.transport.log();
        let res = self.serial();
        proof {
            assert(serial_attempt_trace(l2, self.transport.log()));
            assert(l2 == l1 + wv + read_cycle(REG_POWER_STATUS, rawc));
            assert(reboot_serial_attempt_trace(pre, self.transport.log()));
            if res is Ok {
                assert(reboot_serial_ok_trace(pre, self.transport.log()));
            }
        }
        res
    }
}

/// The log segment of a fully successful session open: the mode register
/// read `APP `, the `LOCK` command with the key settled to zero, and the
/// debug-mode entry succeeded.
pub open spec fn open_ok_trace(pre: Seq<BusOp>, post: Seq<BusOp>, key: Seq<u8>) -> bool {
    exists|raw: Seq<u8>, l1: Seq<BusOp>, l2: Seq<BusOp>|
        #![auto]
        l1 == pre + read_cycle(REG_MODE, raw) && raw.len() == 5
            && mode_of(raw.skip(1)) == Some(Mode::App)
            && exec_attempt_trace(l1, l2, lock_tag(), key, Ok(()))
            && dbma_ok_trace(l2, post, 1)
}

/// One successful application-mode read at the start of a session open.
pub open spec fn open_mode_app(pre: Seq<BusOp>, post: Seq<BusOp>) -> bool {
    exists|raw: Seq<u8>|
        #![auto]
        post == pre + read_cycle(REG_MODE, raw) && raw.len() == 5
            && mode_of(raw.skip(1)) == Some(Mode::App)
}

/// Everything a session open can have put in the log, whatever its
/// outcome: an incomplete or unsuitable mode read; the mode read and an
/// authentication attempt; or those and a debug-mode switch.
pub open spec fn open_attempt_trace(pre: Seq<BusOp>, post: Seq<BusOp>, key: Seq<u8>) -> bool {
    ||| mode_read_trace(pre, post)
    ||| exists|l1: Seq<BusOp>, r1: Result<(), Error>|
        #![auto]
        open_mode_app(pre, l1) && exec_attempt_trace(l1, post, lock_tag(), key, r1)
    ||| exists|l1: Seq<BusOp>, l2: Seq<BusOp>|
        #![auto]
        open_mode_app(pre, l1) && exec_attempt_trace(l1, l2, lock_tag(), key, Ok(()))
            && dbma_any_trace(l2, post, 1)
}

/// The log segment of a best-effort teardown: a debug-mode exit attempt,
/// then a relock attempt with the all-zero key, each exactly once.
pub open spec fn teardown_trace(pre: Seq<BusOp>, post: Seq<BusOp>) -> bool {
    exists|mid: Seq<BusOp>|
        #![auto]
        dbma_any_trace(pre, mid, 0) && lock_any_trace(mid, post, zero_key())
}

impl<T: Transport, C: Clock> Device<T, C> {
    /// Open an authenticated session: derive the key from the device code,
    /// require the chip to be in application mode, authenticate with
    /// `LOCK`, and enter debug mode.
    ///
    /// On failure the transport and clock are handed back with the error,
    /// and the chip is left as the failing step left it: a session that
    /// never opened owes no teardown.  That holds even when the failure
    /// comes after a successful `LOCK` (the debug-mode entry refused): the
    /// contract pins that exact trace, and a caller wanting the chip
    /// relocked after such a failure can attach to the returned transport
    /// and run [`Device::close`].
    pub fn new(transport: T, clock: C, code: &[u8]) -> (r: Result<Device<T, C>, (Error, T, C)>)
        requires
            code@.len() <= 255,
        ensures
            r matches Ok(d) ==> d.key@ == rev_bytes(code@) && open_ok_trace(
                transport.log(),
                d.transport.log(),
                rev_bytes(code@),
            ),
            r matches Err(t) ==> t.0 != Error::InvalidArgument && t.0 != Error::ReconnectTimeout,
            r matches Err(t) ==> (t.0 == Error::IncompatibleState ==> (exists|
                raw: Seq<u8>,
                m: Mode,
            |
                #![auto]
                t.1.log() == transport.log() + read_cycle(REG_MODE, raw) && raw.len() == 5
                    && mode_of(raw.skip(1)) == Some(m) && m != Mode::App) || exists|
                l2: Seq<BusOp>,
            |
                #![auto]
                dbma_incompatible_trace(l2, t.1.log(), 1)),
            r matches Err(t) ==> open_attempt_trace(
                transport.log(),
                t.1.log(),
                rev_bytes(code@),
            ),
            r matches Err(t) ==> forall|raw: Seq<u8>|
                #![trigger read_cycle(REG_MODE, raw)]
                t.1.log() == transport.log() + read_cycle(REG_MODE, raw) && raw.len() == 5
                    && mode_of(raw.skip(1)) is Some && mode_of(raw.skip(1)) != Some(Mode::App)
                    ==> t.0 == Error::IncompatibleState,
    {
        let mut d = Device::attach(transport, clock, code);
        proof {
            assert(d.key@ =~= rev_bytes(code@));
        }
        let ghost pre = d.transport.log();
        let m = match d.get_mode() {
            Ok(m) => m,
            Err(e) => {
                proof {
                    assert(mode_read_trace(pre, d.transport.log()));
                    assert(open_attempt_trace(pre, d.transport.log(), rev_bytes(code@)));
                    if e == Error::ProtocolError {
                        let rawb = choose|rawb: Seq<u8>|
                            #![auto]
                            d.transport.log() == pre + read_cycle(REG_MODE, rawb) && (rawb.len()
                                != 5 || mode_of(rawb.skip(1)) is None);
                        assert forall|raw: Seq<u8>|
                            d.transport.log() == pre + read_cycle(REG_MODE, raw) implies raw
                                == rawb by {
                            lemma_cycle_reading_unique(
                                pre,
                                d.transport.log(),
                                REG_MODE,
                                raw,
                                rawb,
                            );
                        }
                    } else {
                        assert(d.transport.log() == pre || d.transport.log() == pre.push(
                            op_select(REG_MODE),
                        ));
                        assert forall|rawq: Seq<u8>|
                            !(d.transport.log() == pre + read_cycle(REG_MODE, rawq)) by {
                            if d.transport.log() == pre + read_cycle(REG_MODE, rawq) {
                                assert(d.transport.log().len() == pre.len() + 2);
                            }
                        }
                    }
                }
                let (t2, c2) = d.into_parts();
                return Err((e, t2, c2));
            }
        };
        let ghost raw = choose|raw: Seq<u8>|
            #![auto]
            d.transport.log() == pre + read_cycle(REG_MODE, raw) && raw.len() == 5
                && mode_of(raw.skip(1)) == Some(m);
        if m != Mode::App {
            proof {
                assert(mode_read_trace(pre, d.transport.log()));
                assert(open_attempt_trace(pre, d.transport.log(), rev_bytes(code@)));
            }
            let (t2, c2) = d.into_parts();
            return Err((Error::IncompatibleState, t2, c2));
        }
        let ghost l1 = d.transport.log();
        proof {
            assert(open_mode_app(pre, l1));
        }
        let kb = crate::bus::copy_bytes(d.key.as_slice());
        match d.lock(kb.as_slice()) {
            Ok(()) => {}
            Err(e) => {
                proof {
                    assert(exec_attempt_trace(
                        l1,
                        d.transport.log(),
                        lock_tag(),
                        rev_bytes(code@),
                        Err::<(), Error>(e),
                    ));
                    assert(open_attempt_trace(pre, d.transport.log(), rev_bytes(code@)));
                    assert forall|rawq: Seq<u8>|
                        d.transport.log() == pre + read_cycle(REG_MODE, rawq) implies rawq
                            == raw by {
                        lemma_attempt_ops(
                            l1,
                            d.transport.log(),
                            lock_tag(),
                            rev_bytes(code@),
                            Err::<(), Error>(e),
                        );
                        assert(d.transport.log().len() == l1.len());
                        assert(d.transport.log() =~= d.transport.log().take(l1.len() as int));
                        lemma_cycle_reading_unique(pre, d.transport.log(), REG_MODE, rawq, raw);
                    }
                }
                let (t2, c2) = d.into_parts();
                return Err((e, t2, c2));
            }
        }
        let ghost l2 = d.transport.log();
        proof {
            assert(exec_attempt_trace(l1, l2, lock_tag(), rev_bytes(code@), Ok::<(), Error>(())));
        }
        match d.dbma(true) {
            Ok(()) => {}
            Err(e) => {
                proof {
                    assert(dbma_any_trace(l2, d.transport.log(), 1));
                    assert(open_attempt_trace(pre, d.transport.log(), rev_bytes(code@)));
                    let rawn = choose|rawn: Seq<u8>|
                        #![auto]
                        settled_trace(l1, l2, lock_tag(), rev_bytes(code@), rawn) && status_val(
                            rawn,
                        ) == 0;
                    lemma_settled_props(l1, l2, lock_tag(), rev_bytes(code@), rawn);
                    let (mid3, r3) = choose|mid3: Seq<BusOp>, r3: Result<(), Error>|
                        #![auto]
                        exec_attempt_trace(l2, mid3, dbma_tag(), seq![1u8], r3)
                            && mode_read_trace(mid3, d.transport.log());
                    lemma_attempt_ops(l2, mid3, dbma_tag(), seq![1u8], r3);
                    assert(d.transport.log().len() >= mid3.len());
                    assert(d.transport.log().len() > pre.len() + 2);
                }
                let (t2, c2) = d.into_parts();
                return Err((e, t2, c2));
            }
        }
        proof {
            assert(l1 == pre + read_cycle(REG_MODE, raw));
            assert(raw.len() == 5 && mode_of(raw.skip(1)) == Some(Mode::App));
            assert(exec_attempt_trace(l1, l2, lock_tag(), rev_bytes(code@), Ok::<(), Error>(())));
            assert(dbma_ok_trace(l2, d.transport.log(), 1));
            assert(open_ok_trace(pre, d.transport.log(), rev_bytes(code@)));
        }
        Ok(d)
    }

    /// Hand the transport and clock back, ending the driver's exclusive
    /// hold on the bus.
    pub fn into_parts(self) -> (r: (T, C))
        ensures
            r.0 == self.transport,
            r.1 == self.clock,
    {
        let Device { transport, clock, key: _ } = self;
        (transport, clock)
    }
}

/// One invocation's worth of work on an open session.
#[derive(Clone, Copy, Debug, PartialEq, Eq, Structural)]
pub enum Action {
    /// Reboot the target into firmware-update mode.
    Dfu,
    /// Reboot the target normally.
    Reboot,
    /// Reboot the target, then enter serial passthrough on both ends.
    RebootSerial,
    /// Enter serial passthrough on both ends.
    Serial,
    /// Enter debug-USB passthrough on the target.
    DebugUsb,
    /// Open and close a session without acting.
    Nop,
}

/// Everything an action can have put in the log, whatever its outcome.
pub open spec fn action_attempt_trace(action: Action, pre: Seq<BusOp>, post: Seq<BusOp>) -> bool {
    match action {
        Action::Dfu => vdms_attempt_trace(pre, post, VdmSop::SopStar, dfu_words()),
        Action::Reboot => vdms_attempt_trace(pre, post, VdmSop::SopStar, reboot_words()),
        Action::RebootSerial => reboot_serial_attempt_trace(pre, post),
        Action::Serial => serial_attempt_trace(pre, post),
        Action::DebugUsb => vdms_attempt_trace(pre, post, VdmSop::SopStar, debugusb_words()),
        Action::Nop => post == pre,
    }
}

/// The log segment of an action that fully succeeded.
pub open spec fn action_ok_trace(action: Action, pre: Seq<BusOp>, post: Seq<BusOp>) -> bool {
    match action {
        Action::Dfu => vdms_ok_trace(pre, post, VdmSop::SopStar, dfu_words()),
        Action::Reboot => vdms_ok_trace(pre, post, VdmSop::SopStar, reboot_words()),
        Action::RebootSerial => reboot_serial_ok_trace(pre, post),
        Action::Serial => serial_ok_trace(pre, post),
        Action::DebugUsb => vdms_ok_trace(pre, post, VdmSop::SopStar, debugusb_words()),
        Action::Nop => post == pre,
    }
}

/// Run one action inside a session: authenticate, act, and tear down.
///
/// Whenever the session opened, the teardown runs — whatever the action's
/// outcome — and its own failures are discarded, so the returned result is
/// always the action's (or the open's), never the teardown's.
pub fn run_action<T: Transport, C: Clock>(
    transport: T,
    clock: C,
    code: &[u8],
    action: Action,
) -> (r: (Result<(), Error>, T, C))
    requires
        code@.len() <= 255,
    ensures
        r.0 is Ok ==> exists|l1: Seq<BusOp>, l2: Seq<BusOp>|
            #![auto]
            open_ok_trace(transport.log(), l1, rev_bytes(code@)) && action_ok_trace(
                action,
                l1,
                l2,
            ) && teardown_trace(l2, r.1.log()),
        r.0 matches Err(e) ==> open_attempt_trace(transport.log(), r.1.log(), rev_bytes(code@))
            || exists|l1: Seq<BusOp>, l2: Seq<BusOp>|
            #![auto]
            open_ok_trace(transport.log(), l1, rev_bytes(code@)) && action_attempt_trace(
                action,
                l1,
                l2,
            ) && teardown_trace(l2, r.1.log()),
        r.0 != Err::<(), Error>(Error::InvalidArgument),
        action != Action::RebootSerial ==> r.0 != Err::<(), Error>(Error::ReconnectTimeout),
{
    let mut d = match Device::new(transport, clock, code) {
        Ok(d) => d,
        Err((e, t2, c2)) => {
            return (Err(e), t2, c2);
        }
    };
    let ghost l1 = d.transport.log();
    let res = match action {
        Action::Dfu => d.dfu(),
        Action::Reboot => d.reboot(),
        Action::RebootSerial => d.reboot_serial(),
        Action::Serial => d.serial(),
        Action::DebugUsb => d.debugusb(),
        Action::Nop => Ok(()),
    };
    let ghost l2 = d.transport.log();
    d.close();
    let ghost fin = d.transport.log();
    proof {
        assert(open_ok_trace(transport.log(), l1, rev_bytes(code@)));
        assert(teardown_trace(l2, fin));
        assert(action_attempt_trace(action, l1, l2));
        if res is Ok {
            assert(action_ok_trace(action, l1, l2));
        }
    }
    let (t2, c2) = d.into_parts();
    (res, t2, c2)
}

/// A block-write frame is the register, the payload length, then the
/// payload: two bytes longer than the payload, whatever it holds.
pub proof fn lemma_write_frame_shape(reg: u8, data: Seq<u8>)
    requires
        data.len() <= 255,
    ensures
        write_frame(reg, data).len() == data.len() + 2,
        write_frame(reg, data)[0] == reg,
        write_frame(reg, data)[1] == data.len() as u8,
        write_frame(reg, data).skip(2) == data,
{
    assert(write_frame(reg, data).skip(2) =~= data);
}

} // verus!

