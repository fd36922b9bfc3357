//! The last raw Control Change value seen on every channel/controller pair.
//!
//! The snapshot outlives a project: controller position is live hardware
//! state, not a document field, so opening another project does not clear it.

use vstd::prelude::*;
use crate::message::MidiMessage;

verus! {

/// MIDI channels, in the protocol's own 0–15 numbering.
pub const CHANNELS: usize = 16;
/// Controller numbers, 0–127.
pub const CONTROLLERS: usize = 128;

/// The table cell of a channel/controller pair.
pub open spec fn cell(channel: int, cc: int) -> int {
    channel * 128 + cc
}

/// `x` clamped into `0..=high`.
pub open spec fn clamp(x: int, high: int) -> int {
    if x < 0 {
        0
    } else if x > high {
        high
    } else {
        x
    }
}

/// The last raw value on every channel/controller pair, 0 until a matching
/// Control Change has arrived.
#[derive(Debug, Clone, PartialEq, Eq)]
pub struct MidiControls {
    values: Vec<u8>,
}

impl MidiControls {
    /// The value of every cell, channel-major.
    pub closed spec fn spec_values(&self) -> Seq<u8> {
        self.values@
    }

    /// The value on `channel` / `cc`, both in range.
    pub open spec fn value(&self, channel: int, cc: int) -> u8 {
        self.spec_values()[cell(channel, cc)]
    }

    /// One cell per channel/controller pair.
    pub open spec fn wf(&self) -> bool {
        self.spec_values().len() == 2048
    }

    /// The last raw value on `channel` / `cc`, 0 until a matching Control
    /// Change has arrived. An address out of range is clamped into it.
    pub fn get(&self, channel: i32, cc: i32) -> (r: u8)
        requires
            self.wf(),
        ensures
            r == self.value(clamp(channel as int, 15), clamp(cc as int, 127)),
    {
        let channel: usize = if channel < 0 {
            0
        } else if channel > 15 {
            15
        } else {
            channel as usize
        };
        let cc: usize = if cc < 0 {
            0
        } else if cc > 127 {
            127
        } else {
            cc as usize
        };
        self.values[channel * 128 + cc]
    }

    /// Records a Control Change. Last write wins. Clamping keeps a malformed
    /// data byte from addressing outside the table.
    pub fn set(&mut self, channel: u8, cc: u8, value: u8)
        requires
            old(self).wf(),
        ensures
            final(self).wf(),
            final(self).spec_values() == old(self).spec_values().update(
                cell(clamp(channel as int, 15), clamp(cc as int, 127)),
                value,
            ),
    {
        let channel: usize = if channel > 15 {
            15
        } else {
            channel as usize
        };
        let cc: usize = if cc > 127 {
            127
        } else {
            cc as usize
        };
        self.values.set(channel * 128 + cc, value);
    }
}

impl Default for MidiControls {
    /// Every cell at 0.
    fn default() -> (r: MidiControls)
        ensures
            r.wf(),
            forall|i: int| 0 <= i < 2048 ==> r.spec_values()[i] == 0,
    {
        let mut values: Vec<u8> = Vec::new();
        let mut i: usize = 0;
        while i < 2048
            invariant
                i <= 2048,
                values@.len() == i,
                forall|k: int| 0 <= k < i ==> values@[k] == 0,
            decreases 2048 - i,
        {
            values.push(0);
            i = i + 1;
        }
        MidiControls { values }
    }
}

/// The Control Changes among `messages`, in arrival order, as
/// `(channel, cc, value)`.
pub open spec fn control_changes(messages: Seq<MidiMessage>) -> Seq<(u8, u8, u8)>
    decreases messages.len(),
{
    if messages.len() == 0 {
        Seq::empty()
    } else {
        let rest = control_changes(messages.drop_last());
        match messages.last() {
            MidiMessage::Control { channel, cc, value } => rest.push((channel, cc, value)),
            _ => rest,
        }
    }
}

/// `values` with every change of `changes` written in turn.
pub open spec fn written(values: Seq<u8>, changes: Seq<(u8, u8, u8)>) -> Seq<u8>
    decreases changes.len(),
{
    if changes.len() == 0 {
        values
    } else {
        let c = changes.last();
        written(values, changes.drop_last()).update(cell(clamp(c.0 as int, 15), clamp(c.1 as int, 127)), c.2)
    }
}

/// Folds a tick's Control Changes into the snapshot, in arrival order, so the
/// last matching message of a burst is the value every reader sees.
pub fn apply_controls(controls: &mut MidiControls, messages: &[MidiMessage])
    requires
        old(controls).wf(),
    ensures
        final(controls).wf(),
        final(controls).spec_values() == written(old(controls).spec_values(), control_changes(messages@)),
{
    let mut i: usize = 0;
    while i < messages.len()
        invariant
            i <= messages@.len(),
            controls.wf(),
            controls.spec_values() == written(
                old(controls).spec_values(),
                control_changes(messages@.subrange(0, i as int)),
            ),
        decreases messages@.len() - i,
    {
        let ghost next = messages@.subrange(0, i + 1);
        proof {
            assert(next.drop_last() =~= messages@.subrange(0, i as int));
            assert(next.last() == messages@[i as int]);
        }
        match messages[i] {
            MidiMessage::Control { channel, cc, value } => {
                controls.set(channel, cc, value);
                proof {
                    let rest = control_changes(next.drop_last());
                    assert(control_changes(next) == rest.push((channel, cc, value)));
                    assert(rest.push((channel, cc, value)).drop_last() =~= rest);
                }
            },
            _ => {},
        }
        i = i + 1;
    }
    proof {
        assert(messages@.subrange(0, messages@.len() as int) =~= messages@);
    }
}

/// A written cell reads back what was written, and no other cell changes:
/// `get` after `set` on the same in-range address gives the value set.
pub proof fn lemma_set_then_get(before: Seq<u8>, channel: u8, cc: u8, value: u8, ch2: int, cc2: int)
    requires
        before.len() == 2048,
        0 <= ch2 < 16,
        0 <= cc2 < 128,
    ensures
        ({
            let after = before.update(cell(clamp(channel as int, 15), clamp(cc as int, 127)), value);
            &&& (ch2 == clamp(channel as int, 15) && cc2 == clamp(cc as int, 127)) ==> after[cell(ch2, cc2)] == value
            &&& !(ch2 == clamp(channel as int, 15) && cc2 == clamp(cc as int, 127)) ==> after[cell(ch2, cc2)]
                == before[cell(ch2, cc2)]
        }),
{
}

} // verus!
