//! Transport sinks: the delivery contract shared by the wired and wireless
//! outputs, and the framing applied to wireless payloads.
//!
//! A wired sink forwards payloads verbatim; a wireless sink prepends one fixed
//! timestamp-header byte (the zero-offset marker `0x80`) to every payload.

use vstd::prelude::*;

verus! {

/// The two physically different output transports.
#[derive(Debug, Clone, Copy, PartialEq, Eq, Structural)]
pub enum MidiTransport {
    Usb,
    Bluetooth,
}

/// What a wireless write carries for a payload `data`: the zero-offset
/// timestamp header byte followed by the payload, unmodified.
pub open spec fn spec_ble_packet(data: Seq<u8>) -> Seq<u8> {
    seq![0x80u8] + data
}

/// Frame one payload for a wireless characteristic write: a single
/// timestamp-header byte with a zero offset, then the payload verbatim.
pub fn pack_ble_midi_message(data: &[u8]) -> (packet: Vec<u8>)
    ensures
        packet@ == spec_ble_packet(data@),
{
    let mut packet: Vec<u8> = Vec::with_capacity(data.len());
    packet.push(0x80);
    let mut i: usize = 0;
    while i < data.len()
        invariant
            i <= data.len(),
            packet@ == seq![0x80u8] + data@.subrange(0, i as int),
        decreases data.len() - i,
    {
        packet.push(data[i]);
        i = i + 1;
        proof {
            assert(packet@ == seq![0x80u8] + data@.subrange(0, i as int));
        }
    }
    proof {
        assert(data@.subrange(0, data@.len() as int) == data@);
    }
    packet
}

} // verus!
