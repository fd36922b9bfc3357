//! One MIDI message, decoded from its status byte and up to two data bytes.

use vstd::prelude::*;

verus! {

/// A decoded MIDI message.
#[derive(Debug, Clone, Copy, PartialEq, Eq, Structural)]
pub enum MidiMessage {
    /// A key went down. Never carries velocity 0: that is a note-off.
    NoteOn { channel: u8, note: u8, velocity: u8 },
    /// A key came up, with its release velocity.
    NoteOff { channel: u8, note: u8, velocity: u8 },
    /// A Control Change.
    Control { channel: u8, cc: u8, value: u8 },
    /// A clock pulse, 24 per quarter note.
    Clock,
    /// Start playback from the beginning.
    Start,
    /// Resume playback from the current position.
    Continue,
    /// Stop playback.
    Stop,
    /// Song Position Pointer: a count of sixteenth notes.
    SongPosition { sixteenths: u16 },
    /// Anything else, kept as it arrived.
    Other { status: u8, data1: u8, data2: u8 },
}

/// A message with the host time at which it arrived.
#[derive(Debug, Clone, PartialEq, Eq)]
pub struct TimedMidi {
    /// The host clock's reading when the packet arrived.
    pub host_time: u64,
    /// The message.
    pub message: MidiMessage,
}

/// The Song Position Pointer's 14-bit count, least significant seven bits
/// first: `data2` shifted up by seven, or-ed with `data1`.
pub open spec fn song_position(data1: u8, data2: u8) -> u16 {
    (((data2 as u16) << 7u16) | (data1 as u16)) as u16
}

/// The message that a status byte and two data bytes decode to.
pub open spec fn decode(status: u8, data1: u8, data2: u8) -> MidiMessage {
    if status == 0xF8 {
        MidiMessage::Clock
    } else if status == 0xFA {
        MidiMessage::Start
    } else if status == 0xFB {
        MidiMessage::Continue
    } else if status == 0xFC {
        MidiMessage::Stop
    } else if status == 0xF2 {
        MidiMessage::SongPosition { sixteenths: song_position(data1, data2) }
    } else if status / 16 == 9 && data2 == 0 {
        MidiMessage::NoteOff { channel: status % 16, note: data1, velocity: 0 }
    } else if status / 16 == 9 {
        MidiMessage::NoteOn { channel: status % 16, note: data1, velocity: data2 }
    } else if status / 16 == 8 {
        MidiMessage::NoteOff { channel: status % 16, note: data1, velocity: data2 }
    } else if status / 16 == 11 {
        MidiMessage::Control { channel: status % 16, cc: data1, value: data2 }
    } else {
        MidiMessage::Other { status, data1, data2 }
    }
}

impl MidiMessage {
    /// Decodes one message. A note-on with velocity 0 is a note-off.
    pub fn from_bytes(status: u8, data1: u8, data2: u8) -> (m: MidiMessage)
        ensures
            m == decode(status, data1, data2),
            status == 0xF2 && data1 < 128 && data2 < 128 ==> m == (MidiMessage::SongPosition {
                sixteenths: (data2 * 128 + data1) as u16,
            }),
    {
        proof {
            assert(status & 0xF0 == 0x90 <==> status / 16 == 9) by (bit_vector);
            assert(status & 0xF0 == 0x80 <==> status / 16 == 8) by (bit_vector);
            assert(status & 0xF0 == 0xB0 <==> status / 16 == 11) by (bit_vector);
            assert(status & 0x0F == status % 16) by (bit_vector);
            assert(data1 < 128 && data2 < 128 ==> (((data2 as u16) << 7u16) | (data1 as u16)) == data2 * 128 + data1)
                by (bit_vector);
        }
        if status == 0xF8 {
            MidiMessage::Clock
        } else if status == 0xFA {
            MidiMessage::Start
        } else if status == 0xFB {
            MidiMessage::Continue
        } else if status == 0xFC {
            MidiMessage::Stop
        } else if status == 0xF2 {
            let sixteenths = ((data2 as u16) << 7u16) | (data1 as u16);
            MidiMessage::SongPosition { sixteenths }
        } else if status & 0xF0 == 0x90 {
            let channel = status & 0x0F;
            if data2 == 0 {
                MidiMessage::NoteOff { channel, note: data1, velocity: 0 }
            } else {
                MidiMessage::NoteOn { channel, note: data1, velocity: data2 }
            }
        } else if status & 0xF0 == 0x80 {
            MidiMessage::NoteOff { channel: status & 0x0F, note: data1, velocity: data2 }
        } else if status & 0xF0 == 0xB0 {
            MidiMessage::Control { channel: status & 0x0F, cc: data1, value: data2 }
        } else {
            MidiMessage::Other { status, data1, data2 }
        }
    }
}


/// The channel messages decode by their status's high nibble, with the low
/// nibble as the channel: a note-on at velocity 0 is the same message as a
/// note-off at velocity 0, a note-on at any other velocity keeps its note
/// and velocity, and so do a note-off and a control change.
pub proof fn lemma_channel_messages(channel: u8, data1: u8, data2: u8)
    requires
        channel < 16,
    ensures
        decode((0x90 + channel) as u8, data1, 0) == decode((0x80 + channel) as u8, data1, 0),
        data2 != 0 ==> decode((0x90 + channel) as u8, data1, data2) == (MidiMessage::NoteOn {
            channel,
            note: data1,
            velocity: data2,
        }),
        decode((0x80 + channel) as u8, data1, data2) == (MidiMessage::NoteOff {
            channel,
            note: data1,
            velocity: data2,
        }),
        decode((0xB0 + channel) as u8, data1, data2) == (MidiMessage::Control {
            channel,
            cc: data1,
            value: data2,
        }),
{
}

} // verus!
