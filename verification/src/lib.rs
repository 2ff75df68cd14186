//! Driver core for a register-addressed USB power-delivery port controller.
//!
//! The library contains everything with protocol logic in it: the wire
//! framing for register reads and writes, the command-execution handshake
//! with its busy/rejected/timeout semantics, the lock/debug-mode session
//! lifecycle, the vendor-defined-message (VDM) builder behind the high-level
//! actions, and the reconnect poller used after a reboot.
//!
//! The physical bus and the wall clock are collaborators, reached through
//! the [`bus::Transport`] and [`bus::Clock`] traits.  Every contract in the
//! driver is stated over the ghost log of bus operations that those traits
//! maintain, so what the driver promises is exactly which bytes go over the
//! bus and what it concludes from the bytes that come back.

pub mod bus;
pub mod device;
pub mod mock;

use vstd::prelude::*;

verus! {

/// Failure taxonomy of the driver.
///
/// Every operation of the library reports exactly one of these; higher-level
/// actions stop at and forward the first failure unmodified.
#[derive(Clone, Copy, Debug, PartialEq, Eq, Structural)]
pub enum Error {
    /// The transport reported a failure on a byte-level write or read.
    IoError,
    /// The transport returned the wrong number of bytes, or a register held
    /// bytes the protocol cannot decode (an unrecognized mode code).
    ProtocolError,
    /// The command register was occupied by a prior command at pre-check.
    DeviceBusy,
    /// The chip answered a posted command with the invalid-command sentinel.
    CommandRejected,
    /// The command register settled to neither success nor rejection within
    /// the configured budget.
    CommandTimeout,
    /// The chip was not in the operating mode a state-changing step requires.
    IncompatibleState,
    /// A vendor message was requested with a word count outside 1..=7.
    InvalidArgument,
    /// The connected bit was not observed within the reconnect budget.
    ReconnectTimeout,
}

} // verus!
