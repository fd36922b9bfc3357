//! A MIDI byte-stream parser.
//!
//! System Real-Time messages are one byte and may appear between the bytes of
//! another message; Program Change and Channel Pressure carry one data byte;
//! running status omits repeated status bytes. The parser takes all three
//! into account, one byte at a time.
//!
//! State is per packet, not per connection: a packet holds complete messages
//! (SysEx excepted, and skipped here).

use vstd::prelude::*;
use crate::message::{decode, MidiMessage, TimedMidi};

verus! {

/// MIDI clock, 24 per quarter note.
pub const CLOCK: u8 = 0xF8;
/// Start playback from the beginning.
pub const START: u8 = 0xFA;
/// Resume playback from the current position.
pub const CONTINUE: u8 = 0xFB;
/// Stop playback.
pub const STOP: u8 = 0xFC;
/// Song Position Pointer: 14-bit count of sixteenth notes, LSB first.
pub const SONG_POSITION: u8 = 0xF2;

/// How many data bytes a status byte expects.
pub open spec fn spec_data_len(status: u8) -> nat {
    let high = status / 16;
    if high == 8 || high == 9 || high == 10 || high == 11 || high == 14 {
        2
    } else if high == 12 || high == 13 {
        1
    } else if high == 15 {
        if status == 0xF1 || status == 0xF3 {
            1
        } else if status == SONG_POSITION {
            2
        } else {
            0
        }
    } else {
        0
    }
}

/// How many data bytes a status byte expects.
pub fn data_len(status: u8) -> (r: usize)
    ensures
        r == spec_data_len(status),
{
    proof {
        assert(status & 0xF0 == (status / 16) * 16) by (bit_vector);
    }
    let high = status & 0xF0;
    if high == 0x80 || high == 0x90 || high == 0xA0 || high == 0xB0 || high == 0xE0 {
        2
    } else if high == 0xC0 || high == 0xD0 {
        1
    } else if high == 0xF0 {
        if status == 0xF1 || status == 0xF3 {
            1
        } else if status == SONG_POSITION {
            2
        } else {
            0
        }
    } else {
        0
    }
}

/// What a parser holds between two bytes.
pub struct ParserView {
    /// The status whose data bytes are being collected.
    pub current: Option<u8>,
    /// The last channel status, reused when a data byte arrives with no
    /// status of its own.
    pub running: Option<u8>,
    /// The data bytes collected so far for `current`.
    pub data: Seq<u8>,
    /// Whether the parser is inside a SysEx block.
    pub in_sysex: bool,
}

/// The parser a packet starts from.
pub open spec fn initial() -> ParserView {
    ParserView { current: None, running: None, data: Seq::empty(), in_sysex: false }
}

/// One byte fed to a parser in state `v`: the next state, and the message
/// `(status, data1, data2)` that the byte completes, if any. `data2` is 0 for
/// a message with fewer than two data bytes.
pub open spec fn step(v: ParserView, byte: u8) -> (ParserView, Option<(u8, u8, u8)>) {
    if byte >= 0xF8 {
        // System Real-Time: one byte, may appear anywhere, changes nothing.
        (v, Some((byte, 0u8, 0u8)))
    } else if byte >= 0x80 {
        if byte == 0xF0 {
            (ParserView { current: None, running: None, data: Seq::empty(), in_sysex: true }, None)
        } else if byte == 0xF7 {
            (ParserView { current: None, running: v.running, data: Seq::empty(), in_sysex: false }, None)
        } else {
            // System Common clears running status; a channel status sets it.
            let running = if byte < 0xF0 { Some(byte) } else { None };
            if spec_data_len(byte) == 0 {
                (ParserView { current: None, running, data: Seq::empty(), in_sysex: false }, Some((byte, 0u8, 0u8)))
            } else {
                (ParserView { current: Some(byte), running, data: Seq::empty(), in_sysex: false }, None)
            }
        }
    } else if v.in_sysex {
        (v, None)
    } else {
        let status = if v.current is Some { v.current } else { v.running };
        match status {
            None => (v, None),
            Some(s) => {
                let data = v.data.push(byte);
                if data.len() < spec_data_len(s) {
                    (ParserView { current: Some(s), running: v.running, data, in_sysex: v.in_sysex }, None)
                } else {
                    let message = (s, data[0], if spec_data_len(s) == 2 { data[1] } else { 0u8 });
                    // A channel status stays current; System Common does not repeat.
                    let current = if s >= 0xF0 { None } else { Some(s) };
                    (
                        ParserView { current, running: v.running, data: Seq::empty(), in_sysex: v.in_sysex },
                        Some(message),
                    )
                }
            },
        }
    }
}

/// `bytes` fed one by one to a parser in state `v`: the final state and
/// every message completed, in order.
pub open spec fn run(v: ParserView, bytes: Seq<u8>) -> (ParserView, Seq<(u8, u8, u8)>)
    decreases bytes.len(),
{
    if bytes.len() == 0 {
        (v, Seq::empty())
    } else {
        let (before, messages) = run(v, bytes.drop_last());
        let (after, out) = step(before, bytes.last());
        (after, match out {
            Some(m) => messages.push(m),
            None => messages,
        })
    }
}

/// Parses a MIDI byte stream one byte at a time.
#[derive(Debug)]
pub struct StreamParser {
    current: Option<u8>,
    running: Option<u8>,
    data0: u8,
    data1: u8,
    have: usize,
    in_sysex: bool,
}

impl StreamParser {
    /// What the parser holds.
    pub closed spec fn view(&self) -> ParserView {
        ParserView {
            current: self.current,
            running: self.running,
            data: if self.have == 0 {
                Seq::empty()
            } else if self.have == 1 {
                seq![self.data0]
            } else {
                seq![self.data0, self.data1]
            },
            in_sysex: self.in_sysex,
        }
    }

    /// The parser's invariant: a pending status always expects more data
    /// than it has, and running status is always a channel status.
    pub closed spec fn wf(&self) -> bool {
        &&& self.have < 2
        &&& self.current matches Some(s) ==> self.have < spec_data_len(s)
        &&& self.current is None ==> self.have == 0
        &&& self.running matches Some(s) ==> 0x80 <= s < 0xF0
    }

    /// A parser at the start of a packet.
    pub fn new() -> (p: StreamParser)
        ensures
            p.wf(),
            p.view() == initial(),
    {
        StreamParser { current: None, running: None, data0: 0, data1: 0, have: 0, in_sysex: false }
    }

    /// Feeds one byte. Returns `Some((status, data1, data2))` when a message
    /// completes; `data2` is 0 for messages carrying one data byte.
    pub fn push(&mut self, byte: u8) -> (r: Option<(u8, u8, u8)>)
        requires
            old(self).wf(),
        ensures
            final(self).wf(),
            (final(self).view(), r) == step(old(self).view(), byte),
    {
        if byte >= 0xF8 {
            return Some((byte, 0, 0));
        }
        if byte >= 0x80 {
            self.have = 0;
            if byte == 0xF0 {
                self.in_sysex = true;
                self.current = None;
                self.running = None;
                return None;
            }
            if byte == 0xF7 {
                self.in_sysex = false;
                self.current = None;
                return None;
            }
            self.in_sysex = false;
            self.running = if byte < 0xF0 {
                Some(byte)
            } else {
                None
            };
            if data_len(byte) == 0 {
                self.current = None;
                return Some((byte, 0, 0));
            }
            self.current = Some(byte);
            return None;
        }
        if self.in_sysex {
            return None;
        }
        let status = match self.current {
            Some(s) => s,
            None => match self.running {
                Some(s) => s,
                None => return None,
            },
        };
        proof {
            assert(status / 16 >= 8 ==> spec_data_len(status) > 0 || status >= 0xF0);
        }
        self.current = Some(status);
        if self.have == 0 {
            self.data0 = byte;
        } else {
            self.data1 = byte;
        }
        self.have = self.have + 1;
        let expected = data_len(status);
        if self.have < expected {
            return None;
        }
        let message = (status, self.data0, if expected == 2 {
            self.data1
        } else {
            0
        });
        self.have = 0;
        if status >= 0xF0 {
            self.current = None;
        }
        Some(message)
    }
}

impl Default for StreamParser {
    /// A parser at the start of a packet.
    fn default() -> (p: StreamParser)
        ensures
            p.wf(),
            p.view() == initial(),
    {
        StreamParser::new()
    }
}

/// Every message of one packet, in order, stamped with the packet's host
/// time: the packet's bytes fed to a fresh parser.
pub fn parse_packet(data: &[u8], host_time: u64) -> (r: Vec<TimedMidi>)
    ensures
        r@ == run(initial(), data@).1.map_values(
            |m: (u8, u8, u8)| TimedMidi { host_time, message: decode(m.0, m.1, m.2) },
        ),
{
    let mut parser = StreamParser::new();
    let mut out: Vec<TimedMidi> = Vec::new();
    let ghost mut raw: Seq<(u8, u8, u8)> = Seq::empty();
    let mut i: usize = 0;
    while i < data.len()
        invariant
            i <= data@.len(),
            parser.wf(),
            (parser.view(), raw) == run(initial(), data@.subrange(0, i as int)),
            out@ == raw.map_values(|m: (u8, u8, u8)| TimedMidi { host_time, message: decode(m.0, m.1, m.2) }),
        decreases data@.len() - i,
    {
        proof {
            assert(data@.subrange(0, i + 1).drop_last() =~= data@.subrange(0, i as int));
        }
        let pushed = parser.push(data[i]);
        match pushed {
            Some((status, data1, data2)) => {
                out.push(TimedMidi { host_time, message: MidiMessage::from_bytes(status, data1, data2) });
                proof {
                    raw = raw.push((status, data1, data2));
                    assert(out@ =~= raw.map_values(
                        |m: (u8, u8, u8)| TimedMidi { host_time, message: decode(m.0, m.1, m.2) },
                    ));
                }
            },
            None => {},
        }
        i = i + 1;
    }
    proof {
        assert(data@.subrange(0, data@.len() as int) =~= data@);
    }
    out
}

/// Feeding `a` and then `b` is feeding `a + b`.
pub proof fn lemma_run_concat(v: ParserView, a: Seq<u8>, b: Seq<u8>)
    ensures
        run(v, a + b) == (run(run(v, a).0, b).0, run(v, a).1 + run(run(v, a).0, b).1),
    decreases b.len(),
{
    if b.len() == 0 {
        assert(a + b =~= a);
        assert(run(v, a).1 + Seq::<(u8, u8, u8)>::empty() =~= run(v, a).1);
    } else {
        assert((a + b).drop_last() =~= a + b.drop_last());
        assert((a + b).last() == b.last());
        lemma_run_concat(v, a, b.drop_last());
        let mid = run(v, a).0;
        let (s, ms) = run(mid, b.drop_last());
        match step(s, b.last()).1 {
            Some(m) => {
                assert(run(v, a).1 + ms.push(m) =~= (run(v, a).1 + ms).push(m));
            },
            None => {},
        }
    }
}

/// A System Real-Time byte anywhere in the stream is delivered at once and
/// disturbs nothing: the state it leaves is the state it found, so the bytes
/// around it parse exactly as they would without it.
pub proof fn lemma_real_time_passes_through(v: ParserView, a: Seq<u8>, byte: u8, b: Seq<u8>)
    requires
        byte >= 0xF8,
    ensures
        run(v, a.push(byte) + b).0 == run(v, a + b).0,
        run(v, a.push(byte) + b).1 == run(v, a).1.push((byte, 0u8, 0u8)) + run(run(v, a).0, b).1,
        run(v, a + b).1 == run(v, a).1 + run(run(v, a).0, b).1,
{
    lemma_run_concat(v, a.push(byte), b);
    lemma_run_concat(v, a, b);
    assert(a.push(byte).drop_last() =~= a);
}


/// A fresh parser fed a channel status that takes two data bytes (note off,
/// note on, poly pressure, control change, pitch bend), then those two
/// bytes, yields exactly one message: that status with those bytes. Further
/// pairs of data bytes repeat the status (running status).
pub proof fn lemma_two_data_byte_message(s: u8, a: u8, b: u8, c: u8, d: u8)
    requires
        0x80 <= s < 0xC0 || 0xE0 <= s < 0xF0,
        a < 0x80,
        b < 0x80,
        c < 0x80,
        d < 0x80,
    ensures
        run(initial(), seq![s, a]).1 == Seq::<(u8, u8, u8)>::empty(),
        run(initial(), seq![s, a, b]).1 == seq![(s, a, b)],
        run(initial(), seq![s, a, b, c, d]).1 == seq![(s, a, b), (s, c, d)],
{
    assert(spec_data_len(s) == 2);
    assert(seq![s].drop_last() =~= Seq::<u8>::empty());
    assert(seq![s, a].drop_last() =~= seq![s]);
    assert(seq![s, a, b].drop_last() =~= seq![s, a]);
    assert(seq![s, a, b, c].drop_last() =~= seq![s, a, b]);
    assert(seq![s, a, b, c, d].drop_last() =~= seq![s, a, b, c]);
    assert(run(initial(), Seq::<u8>::empty()) == (initial(), Seq::<(u8, u8, u8)>::empty()));
    let v1 = run(initial(), seq![s]).0;
    assert(run(initial(), seq![s]).1 =~= Seq::<(u8, u8, u8)>::empty());
    assert(v1.current == Some(s) && v1.data.len() == 0 && !v1.in_sysex);
    let v2 = run(initial(), seq![s, a]).0;
    assert(seq![s, a].last() == a);
    assert(v2.current == Some(s) && v2.data =~= seq![a] && !v2.in_sysex);
    assert(run(initial(), seq![s, a]).1 =~= Seq::<(u8, u8, u8)>::empty());
    assert(seq![s, a, b].last() == b);
    let v3 = run(initial(), seq![s, a, b]).0;
    assert(v3.current == Some(s) && v3.data.len() == 0 && !v3.in_sysex);
    assert(run(initial(), seq![s, a, b]).1 =~= seq![(s, a, b)]);
    let v4 = run(initial(), seq![s, a, b, c]).0;
    assert(v4.current == Some(s) && v4.data =~= seq![c] && !v4.in_sysex);
    assert(run(initial(), seq![s, a, b, c, d]).1 =~= seq![(s, a, b), (s, c, d)]);
}

/// A fresh parser fed a channel status that takes one data byte (program
/// change, channel pressure), then that byte, yields exactly one message:
/// that status with that byte and a zero second byte.
pub proof fn lemma_one_data_byte_message(s: u8, a: u8, b: u8)
    requires
        0xC0 <= s < 0xE0,
        a < 0x80,
        b < 0x80,
    ensures
        run(initial(), seq![s, a]).1 == seq![(s, a, 0u8)],
        run(initial(), seq![s, a, b]).1 == seq![(s, a, 0u8), (s, b, 0u8)],
{
    assert(spec_data_len(s) == 1);
    assert(seq![s].drop_last() =~= Seq::<u8>::empty());
    assert(seq![s, a].drop_last() =~= seq![s]);
    assert(seq![s, a, b].drop_last() =~= seq![s, a]);
    assert(run(initial(), Seq::<u8>::empty()) == (initial(), Seq::<(u8, u8, u8)>::empty()));
    let v1 = run(initial(), seq![s]).0;
    assert(run(initial(), seq![s]).1 =~= Seq::<(u8, u8, u8)>::empty());
    assert(v1.current == Some(s) && v1.data.len() == 0 && !v1.in_sysex);
    assert(seq![s, a].last() == a);
    assert(run(initial(), seq![s, a]).1 =~= seq![(s, a, 0u8)]);
    assert(seq![s, a, b].last() == b);
    let v2 = run(initial(), seq![s, a]).0;
    assert(v2.current == Some(s) && v2.data.len() == 0 && !v2.in_sysex);
    assert(run(initial(), seq![s, a, b]).1 =~= seq![(s, a, 0u8), (s, b, 0u8)]);
}

/// A packet holding one Control Change parses to exactly that Control
/// Change: its channel is the status's low nibble, its controller and value
/// the two data bytes.
pub proof fn lemma_control_change_parses(channel: u8, cc: u8, value: u8, host_time: u64)
    requires
        channel < 16,
        cc < 0x80,
        value < 0x80,
    ensures
        run(initial(), seq![(0xB0 + channel) as u8, cc, value]).1.map_values(
            |m: (u8, u8, u8)| TimedMidi { host_time, message: decode(m.0, m.1, m.2) },
        ) == seq![TimedMidi { host_time, message: MidiMessage::Control { channel, cc, value } }],
{
    let s = (0xB0 + channel) as u8;
    lemma_two_data_byte_message(s, cc, value, 0, 0);
    assert(s / 16 == 11 && s % 16 == channel);
    let f = |m: (u8, u8, u8)| TimedMidi { host_time, message: decode(m.0, m.1, m.2) };
    assert(seq![(s, cc, value)].map_values(f) =~= seq![f((s, cc, value))]);
}

} // verus!
