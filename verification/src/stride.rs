//! The three-byte stride reader of the plain MIDI input.
//!
//! It assumes every message in a packet is exactly three bytes (note on/off,
//! control change, pitch bend). One-byte System Real-Time messages, two-byte
//! messages and running status are skipped or misread by it; the byte-stream
//! parser in [`crate::parser`] is the reader that handles them.

use vstd::prelude::*;

verus! {

/// A single three-byte MIDI message with the host time the packet carried.
#[derive(Debug, Clone, Copy, PartialEq, Eq, Structural)]
pub struct MidiEvent {
    /// The status byte.
    pub status: u8,
    /// The first data byte.
    pub data1: u8,
    /// The second data byte.
    pub data2: u8,
    /// The host clock's reading when the packet arrived.
    pub host_time: u64,
}

/// The events a packet yields from byte `i` on: at every third byte, while
/// three bytes remain, a status byte (high bit set) and the two bytes after
/// it; a window that does not start with a status byte is skipped whole.
pub open spec fn stride_from(data: Seq<u8>, host_time: u64, i: int) -> Seq<MidiEvent>
    decreases data.len() - i,
{
    if i < 0 || i + 2 >= data.len() {
        Seq::empty()
    } else {
        let rest = stride_from(data, host_time, i + 3);
        if data[i] >= 0x80 {
            seq![MidiEvent { status: data[i], data1: data[i + 1], data2: data[i + 2], host_time }] + rest
        } else {
            rest
        }
    }
}

/// Every event of one packet, in order.
pub fn stride_events(data: &[u8], host_time: u64) -> (r: Vec<MidiEvent>)
    ensures
        r@ == stride_from(data@, host_time, 0),
{
    let mut r: Vec<MidiEvent> = Vec::new();
    let mut i: usize = 0;
    while i < data.len() && data.len() - i > 2
        invariant
            i % 3 == 0,
            i <= data@.len() + 2,
            r@ + stride_from(data@, host_time, i as int) == stride_from(data@, host_time, 0),
        decreases data@.len() + 3 - i,
    {
        let status = data[i];
        proof {
            assert(status & 0x80 != 0 <==> status >= 0x80) by (bit_vector);
        }
        if status & 0x80 != 0 {
            let ghost before = r@;
            r.push(MidiEvent { status, data1: data[i + 1], data2: data[i + 2], host_time });
            proof {
                let e = MidiEvent { status, data1: data@[i + 1], data2: data@[i + 2], host_time };
                assert(before + (seq![e] + stride_from(data@, host_time, i + 3)) =~= r@ + stride_from(
                    data@,
                    host_time,
                    i + 3,
                ));
            }
        }
        i = i + 3;
    }
    proof {
        assert(stride_from(data@, host_time, i as int) =~= Seq::empty());
        assert(r@ + Seq::<MidiEvent>::empty() =~= r@);
    }
    r
}

} // verus!
