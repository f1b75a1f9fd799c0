//! The error taxonomy of the core.
//!
//! Decode failures (unsupported timing or format variant, malformed container
//! or track bytes) are format errors; an empty decoded sequence cannot be
//! played; connection failures name what went missing. File read failures and
//! transport write failures arise outside the verified core and are reported
//! by its callers (an I/O error from the reader, an `Error` lifecycle event
//! from the delivery loop).

use vstd::prelude::*;

verus! {

/// The file is malformed, uses timecode timing, or declares the
/// independent-sequential-tracks format variant.
#[derive(Debug, Clone, Copy, PartialEq, Eq, Structural)]
pub struct FormatError;

/// The decoded sequence holds no playable events, so there is nothing to
/// schedule.
#[derive(Debug, Clone, Copy, PartialEq, Eq, Structural)]
pub struct NoPlayableEventsError;

/// Why a connection attempt failed.
#[derive(Debug, Clone, Copy, PartialEq, Eq, Structural)]
pub enum DeviceError {
    /// The requested device is not in the device table, or its port vanished
    /// between discovery and connection.
    DeviceUnavailable,
    /// The wireless peripheral exposes no writable endpoint for this core.
    CharacteristicNotFound,
}

} // verus!
