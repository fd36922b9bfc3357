use sway::controls::{apply_controls, MidiControls};
use sway::message::{MidiMessage, TimedMidi};
use sway::note::{count_matching, note_of, notes_of, parse_note_name, Note};
use sway::parser::{data_len, parse_packet, StreamParser, CLOCK, CONTINUE, SONG_POSITION, START, STOP};
use sway::stride::{stride_events, MidiEvent};

/// Feeds a byte slice and collects every completed message.
fn parse(bytes: &[u8]) -> Vec<(u8, u8, u8)> {
    let mut parser = StreamParser::new();
    bytes.iter().filter_map(|&b| parser.push(b)).collect()
}

// --- messages ------------------------------------------------------------------

#[test]
fn zero_velocity_note_on_is_note_off() {
    assert_eq!(MidiMessage::from_bytes(0x90, 60, 0), MidiMessage::NoteOff { channel: 0, note: 60, velocity: 0 });
}

#[test]
fn note_on_carries_channel() {
    assert_eq!(MidiMessage::from_bytes(0x91, 64, 100), MidiMessage::NoteOn { channel: 1, note: 64, velocity: 100 });
}

#[test]
fn clock_start_stop_continue_and_spp() {
    assert_eq!(MidiMessage::from_bytes(0xF8, 0, 0), MidiMessage::Clock);
    assert_eq!(MidiMessage::from_bytes(0xFA, 0, 0), MidiMessage::Start);
    assert_eq!(MidiMessage::from_bytes(0xFB, 0, 0), MidiMessage::Continue);
    assert_eq!(MidiMessage::from_bytes(0xFC, 0, 0), MidiMessage::Stop);
    assert_eq!(MidiMessage::from_bytes(0xF2, 8, 0), MidiMessage::SongPosition { sixteenths: 8 });
}

#[test]
fn a_song_position_is_fourteen_bits_lsb_first() {
    assert_eq!(MidiMessage::from_bytes(0xF2, 0x7F, 0x7F), MidiMessage::SongPosition { sixteenths: 16383 });
    assert_eq!(MidiMessage::from_bytes(0xF2, 1, 2), MidiMessage::SongPosition { sixteenths: 257 });
}

#[test]
fn note_off_control_and_other_messages_decode() {
    assert_eq!(MidiMessage::from_bytes(0x8F, 61, 40), MidiMessage::NoteOff { channel: 15, note: 61, velocity: 40 });
    assert_eq!(MidiMessage::from_bytes(0xB3, 74, 99), MidiMessage::Control { channel: 3, cc: 74, value: 99 });
    assert_eq!(MidiMessage::from_bytes(0xE0, 1, 2), MidiMessage::Other { status: 0xE0, data1: 1, data2: 2 });
}

#[test]
fn a_timed_message_keeps_its_host_time() {
    let timed = TimedMidi { host_time: 12, message: MidiMessage::Start };
    assert_eq!(timed.clone(), timed);
}

// --- the byte-stream parser -----------------------------------------------------

#[test]
fn data_lengths_follow_the_status_byte() {
    assert_eq!(data_len(0x90), 2);
    assert_eq!(data_len(0xC5), 1);
    assert_eq!(data_len(0xD0), 1);
    assert_eq!(data_len(0xF1), 1);
    assert_eq!(data_len(0xF2), 2);
    assert_eq!(data_len(0xF6), 0);
    assert_eq!(data_len(0x40), 0);
}

#[test]
fn a_lone_clock_byte_is_a_message() {
    assert_eq!(parse(&[CLOCK]), vec![(CLOCK, 0, 0)]);
}

#[test]
fn real_time_bytes_interrupt_a_message_without_corrupting_it() {
    assert_eq!(parse(&[0x90, 60, CLOCK, 100]), vec![(CLOCK, 0, 0), (0x90, 60, 100)]);
}

#[test]
fn running_status_repeats_the_previous_status() {
    assert_eq!(parse(&[0x90, 60, 100, 62, 90]), vec![(0x90, 60, 100), (0x90, 62, 90)]);
}

#[test]
fn two_byte_messages_complete_after_one_data_byte() {
    assert_eq!(parse(&[0xC0, 5, 0xD0, 64]), vec![(0xC0, 5, 0), (0xD0, 64, 0)]);
}

#[test]
fn a_song_position_pointer_carries_both_data_bytes() {
    assert_eq!(parse(&[SONG_POSITION, 8, 0]), vec![(SONG_POSITION, 8, 0)]);
}

#[test]
fn system_common_clears_running_status() {
    assert_eq!(parse(&[0x90, 60, 100, 0xF3, 2, 62, 90]), vec![(0x90, 60, 100), (0xF3, 2, 0)]);
}

#[test]
fn sysex_is_skipped_and_does_not_swallow_what_follows() {
    assert_eq!(parse(&[0xF0, 1, 2, 3, 0xF7, 0x90, 60, 100]), vec![(0x90, 60, 100)]);
}

#[test]
fn real_time_bytes_pass_through_a_sysex_block() {
    assert_eq!(parse(&[0xF0, 1, CLOCK, 2, 0xF7]), vec![(CLOCK, 0, 0)]);
}

#[test]
fn transport_commands_are_one_byte_messages() {
    assert_eq!(parse(&[START, STOP, CONTINUE]), vec![(START, 0, 0), (STOP, 0, 0), (CONTINUE, 0, 0)]);
}

#[test]
fn a_stray_data_byte_before_any_status_is_dropped() {
    assert_eq!(parse(&[60, 100]), Vec::new());
}

#[test]
fn a_packet_decodes_to_timed_messages() {
    let timed = parse_packet(&[0x90, 60, 100, CLOCK, 62, 0], 77);
    assert_eq!(timed, vec![
        TimedMidi { host_time: 77, message: MidiMessage::NoteOn { channel: 0, note: 60, velocity: 100 } },
        TimedMidi { host_time: 77, message: MidiMessage::Clock },
        TimedMidi { host_time: 77, message: MidiMessage::NoteOff { channel: 0, note: 62, velocity: 0 } },
    ]);
    assert!(parse_packet(&[], 1).is_empty());
}

#[test]
fn a_real_time_byte_anywhere_leaves_the_rest_unchanged() {
    let without = parse(&[0x90, 60, 100, 62, 90]);
    let with = parse(&[0x90, 60, CLOCK, 100, 62, 90]);
    assert_eq!(with[0], (CLOCK, 0, 0));
    assert_eq!(with[1..].to_vec(), without);
}

// --- the three-byte stride reader --------------------------------------------------

#[test]
fn the_stride_reader_takes_three_bytes_at_a_time() {
    let events = stride_events(&[0x90, 60, 100, 1, 2, 3, 0xB0, 7, 9, CLOCK], 5);
    assert_eq!(events, vec![
        MidiEvent { status: 0x90, data1: 60, data2: 100, host_time: 5 },
        MidiEvent { status: 0xB0, data1: 7, data2: 9, host_time: 5 },
    ]);
    assert!(stride_events(&[CLOCK], 5).is_empty(), "a lone clock byte never fills a window");
}

// --- the controller snapshot --------------------------------------------------------

#[test]
fn every_cell_starts_at_zero() {
    let controls = MidiControls::default();
    assert_eq!(controls.get(0.0_f32 as i32, 0.0_f32 as i32), 0);
    assert_eq!(controls.get(15.0_f32 as i32, 127.0_f32 as i32), 0);
}

#[test]
fn a_written_cell_reads_back() {
    let mut controls = MidiControls::default();
    controls.set(3, 74, 99);
    assert_eq!(controls.get(3.0_f32 as i32, 74.0_f32 as i32), 99);
}

#[test]
fn the_last_write_wins() {
    let mut controls = MidiControls::default();
    controls.set(0, 1, 10);
    controls.set(0, 1, 20);
    assert_eq!(controls.get(0.0_f32 as i32, 1.0_f32 as i32), 20);
}

#[test]
fn an_address_is_truncated_toward_zero_then_clamped() {
    let mut controls = MidiControls::default();
    controls.set(0, 0, 3);
    controls.set(0, 1, 42);
    controls.set(15, 127, 7);

    assert_eq!(controls.get(0.9_f32 as i32, 1.9_f32 as i32), 42, "truncated, not rounded");
    assert_eq!(controls.get(20.0_f32 as i32, 200.0_f32 as i32), 7, "clamped to 15 / 127");
    assert_eq!(controls.get(-3.0_f32 as i32, -3.0_f32 as i32), 3, "clamped to 0 / 0");
}

#[test]
fn a_nan_address_reads_channel_zero_controller_zero() {
    let mut controls = MidiControls::default();
    controls.set(0, 0, 55);
    assert_eq!(controls.get(f32::NAN as i32, f32::NAN as i32), 55);
}

#[test]
fn a_malformed_data_byte_clamps_instead_of_panicking() {
    let mut controls = MidiControls::default();
    controls.set(200, 200, 5);
    assert_eq!(controls.get(15.0_f32 as i32, 127.0_f32 as i32), 5);
}

#[test]
fn a_later_control_overwrites_the_same_cell() {
    let mut controls = MidiControls::default();
    apply_controls(&mut controls, &[
        MidiMessage::Control { channel: 2, cc: 7, value: 10 },
        MidiMessage::Clock,
        MidiMessage::Control { channel: 2, cc: 7, value: 90 },
        MidiMessage::Control { channel: 2, cc: 8, value: 1 },
    ]);
    assert_eq!(controls.get(2, 7), 90);
    assert_eq!(controls.get(2, 8), 1);
    assert_eq!(controls.get(2, 9), 0, "a cell nobody wrote stays at zero");
}

// --- notes ----------------------------------------------------------------------

#[test]
fn parse_note_name_covers_the_specified_cases() {
    assert_eq!(parse_note_name("C4"), Some(60));
    assert_eq!(parse_note_name("c4"), Some(60));
    assert_eq!(parse_note_name("  C4  "), Some(60));
    assert_eq!(parse_note_name("D#1"), parse_note_name("Eb1"));
    assert_eq!(parse_note_name("D#1"), Some(27));
    assert_eq!(parse_note_name("C-1"), Some(0));
    assert_eq!(parse_note_name("not-a-note"), None);
    assert_eq!(parse_note_name("G#9"), None, "MIDI 128 is out of range");
}

#[test]
fn note_names_at_the_edges_of_the_range() {
    assert_eq!(parse_note_name("G9"), Some(127));
    assert_eq!(parse_note_name("Cb-1"), None, "one below 0");
    assert_eq!(parse_note_name("B+3"), Some(59));
    assert_eq!(parse_note_name(""), None);
    assert_eq!(parse_note_name("   "), None);
    assert_eq!(parse_note_name("C"), None, "an octave is required");
    assert_eq!(parse_note_name("C#"), None);
    assert_eq!(parse_note_name("C99999999999"), None, "an octave outside i32 does not parse");
    assert_eq!(parse_note_name("\tA4\n"), Some(69));
    assert_eq!(parse_note_name("H4"), None);
}

#[test]
fn a_sharp_name_matches_that_pitch() {
    let midi = parse_note_name("D#1").expect("D#1");
    let notes = notes_of(&[MidiMessage::NoteOn { channel: 0, note: midi, velocity: 100 }]);
    assert_eq!(count_matching(&notes, midi, true), 1);
}

#[test]
fn two_matching_note_ons_both_fire() {
    let notes = notes_of(&[
        MidiMessage::NoteOn { channel: 0, note: 60, velocity: 100 },
        MidiMessage::NoteOn { channel: 0, note: 60, velocity: 100 },
    ]);
    assert_eq!(count_matching(&notes, 60, true), 2);
    assert_eq!(count_matching(&notes, 60, false), 0);
}

#[test]
fn a_note_on_then_a_note_off_publish_two_occurrences_in_that_order() {
    let notes = notes_of(&[
        MidiMessage::NoteOn { channel: 0, note: 60, velocity: 100 },
        MidiMessage::NoteOff { channel: 0, note: 60, velocity: 40 },
    ]);
    assert_eq!(notes, vec![
        Note { channel: 0, note: 60, velocity: 100, on: true },
        Note { channel: 0, note: 60, velocity: 40, on: false },
    ]);
}

#[test]
fn a_zero_velocity_note_on_publishes_as_a_note_off() {
    assert_eq!(
        note_of(MidiMessage::NoteOn { channel: 2, note: 64, velocity: 0 }),
        Some(Note { channel: 2, note: 64, velocity: 0, on: false })
    );
}

#[test]
fn every_channel_is_published() {
    let notes = notes_of(&[
        MidiMessage::NoteOn { channel: 0, note: 60, velocity: 1 },
        MidiMessage::NoteOn { channel: 9, note: 60, velocity: 1 },
        MidiMessage::NoteOn { channel: 15, note: 60, velocity: 1 },
    ]);
    let channels: Vec<u8> = notes.iter().map(|n| n.channel).collect();
    assert_eq!(channels, vec![0, 9, 15]);
}

#[test]
fn only_note_messages_are_notes() {
    assert!(notes_of(&[
        MidiMessage::Control { channel: 0, cc: 1, value: 2 },
        MidiMessage::Clock,
        MidiMessage::SongPosition { sixteenths: 4 },
    ])
    .is_empty());
}
