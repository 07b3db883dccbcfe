use synth_host::constants::{BUFFER_LEN, SAMPLE_RATE, SIGNAL_UNIT};
use synth_host::host::Host;
use synth_host::midi::{MidiEvent, MidiSliderSettings};
use synth_host::modules::{EnvelopeSettings, ModuleKind, ModuleSettings};
use synth_host::ports::{Block, BufferDirEnum, BufferElemEnum};

fn midi_out_block(host: &Host, idx: usize) -> Vec<Vec<MidiEvent>> {
    match &host.modules[idx] {
        Some(m) => match &m.buf_out.ports.buffers[0].buffer {
            Block::Midi(v) => v.iter().map(|s| s.clone()).collect(),
            Block::Signal(_) => panic!("expected a MIDI block"),
        },
        None => panic!("module not live"),
    }
}

fn signal_out_block(host: &Host, idx: usize) -> Vec<i64> {
    match &host.modules[idx] {
        Some(m) => match &m.buf_out.ports.buffers[0].buffer {
            Block::Signal(v) => v.clone(),
            Block::Midi(_) => panic!("expected a signal block"),
        },
        None => panic!("module not live"),
    }
}

/// The arrival time (microseconds after the block start) of sample slot `i`.
fn slot_time(i: u64) -> u64 {
    // the inverse of floor((t * SAMPLE_RATE) / 1_000_000) at slot boundaries
    (i * 1_000_000).div_ceil(SAMPLE_RATE)
}

#[test]
fn staged_events_partition_into_block_and_remainder() {
    let mut host = Host::new().unwrap();
    let midi = host.create_module("midi", ModuleSettings::MidiInput).unwrap();
    // one event at slot 0, one at slot 3, one beyond this block
    host.stage_midi(midi, 0, vec![0x90, 69, 100]).unwrap();
    host.stage_midi(midi, slot_time(3), vec![0x80, 69, 64]).unwrap();
    let late = slot_time(BUFFER_LEN as u64 + 5);
    host.stage_midi(midi, late, vec![0x90, 70, 99]).unwrap();
    host.process_block(slot_time(BUFFER_LEN as u64));
    let block = midi_out_block(&host, midi.idx);
    assert_eq!(block.len(), BUFFER_LEN);
    assert_eq!(block[0], vec![MidiEvent::NoteOn { key: 69, vel: 100 }]);
    assert_eq!(block[3], vec![MidiEvent::NoteOff { key: 69, vel: 64 }]);
    for (i, slot) in block.iter().enumerate() {
        if i != 0 && i != 3 {
            assert!(slot.is_empty());
        }
    }
    // the late event stays staged, in order
    match &host.modules[midi.idx].as_ref().unwrap().kind {
        ModuleKind::MidiInput(m) => {
            assert_eq!(m.event_queue.len(), 1);
            assert_eq!(m.event_queue[0].time_micros, late);
            assert_eq!(m.event_queue[0].bytes, vec![0x90, 70, 99]);
        },
        _ => panic!("wrong kind"),
    }
}

#[test]
fn raw_bytes_decode_through_the_midi_parser() {
    let mut host = Host::new().unwrap();
    let midi = host.create_module("midi", ModuleSettings::MidiInput).unwrap();
    host.stage_midi(midi, 0, vec![0xB0, 7, 64]).unwrap();
    host.stage_midi(midi, 0, vec![0xE0, 0x00, 0x40]).unwrap();
    // garbage bytes decode to nothing and are dropped
    host.stage_midi(midi, 0, vec![0x01]).unwrap();
    host.process_block(1_000_000);
    let block = midi_out_block(&host, midi.idx);
    assert_eq!(
        block[0],
        vec![
            MidiEvent::Controller { controller: 7, value: 64 },
            MidiEvent::PitchBend { bend: 0x2000 },
        ],
    );
}

#[test]
fn slider_follows_its_controller_and_holds_between_events() {
    let mut host = Host::new().unwrap();
    let midi = host.create_module("midi", ModuleSettings::MidiInput).unwrap();
    let slider = host
        .create_module(
            "slider",
            ModuleSettings::MidiSlider(
                MidiSliderSettings { controller: 7, default: 0, min: 0, max: SIGNAL_UNIT },
            ),
        )
        .unwrap();
    let midi_out = host.buf(midi, BufferDirEnum::Out, BufferElemEnum::Midi, "out").unwrap();
    let slider_in = host.buf(slider, BufferDirEnum::In, BufferElemEnum::Midi, "in").unwrap();
    host.link(midi_out, slider_in).unwrap();
    // CC 7 = 64 at slot 0: half scale (64 * SIGNAL_UNIT / 128)
    host.stage_midi(midi, 0, vec![0xB0, 7, 64]).unwrap();
    // another controller is ignored
    host.stage_midi(midi, slot_time(9), vec![0xB0, 8, 127]).unwrap();
    host.process_block(1_000_000);
    let out = signal_out_block(&host, slider.idx);
    let expected = 64 * SIGNAL_UNIT / 128;
    for &s in &out {
        assert_eq!(s, expected);
    }
}

#[test]
fn slider_keeps_its_value_across_blocks() {
    let mut host = Host::new().unwrap();
    let midi = host.create_module("midi", ModuleSettings::MidiInput).unwrap();
    let slider = host
        .create_module(
            "slider",
            ModuleSettings::MidiSlider(
                MidiSliderSettings {
                    controller: 1,
                    default: 42,
                    min: -SIGNAL_UNIT,
                    max: SIGNAL_UNIT,
                },
            ),
        )
        .unwrap();
    let midi_out = host.buf(midi, BufferDirEnum::Out, BufferElemEnum::Midi, "out").unwrap();
    let slider_in = host.buf(slider, BufferDirEnum::In, BufferElemEnum::Midi, "in").unwrap();
    host.link(midi_out, slider_in).unwrap();
    // no events: the default value fills the block
    host.process_block(1_000_000);
    let out = signal_out_block(&host, slider.idx);
    for &s in &out {
        assert_eq!(s, 42);
    }
    // CC 1 = 127 in the next block: 127/128 of the full range above min
    host.stage_midi(midi, 1_000_000, vec![0xB1, 1, 127]).unwrap();
    host.process_block(2_000_000);
    let out2 = signal_out_block(&host, slider.idx);
    let scaled = 127 * SIGNAL_UNIT / 128;
    // value = scaled * range / SIGNAL_UNIT + min, with range = max - min
    let expected = scaled * 2 - SIGNAL_UNIT;
    for &s in &out2 {
        assert_eq!(s, expected);
    }
}

#[test]
fn envelope_gates_a_sustained_signal() {
    let mut host = Host::new().unwrap();
    let midi = host.create_module("midi", ModuleSettings::MidiInput).unwrap();
    let env = host
        .create_module(
            "env",
            ModuleSettings::Envelope(
                EnvelopeSettings { attack: 0, decay: 0, sustain: SIGNAL_UNIT, release: 0 },
            ),
        )
        .unwrap();
    let midi_out = host.buf(midi, BufferDirEnum::Out, BufferElemEnum::Midi, "out").unwrap();
    let gate_in = host.buf(env, BufferDirEnum::In, BufferElemEnum::Midi, "in").unwrap();
    let sig_in = host.buf(env, BufferDirEnum::In, BufferElemEnum::Signal, "in").unwrap();
    host.link(midi_out, gate_in).unwrap();
    host.link_value(synth_host::ports::ElemValue::Signal(SIGNAL_UNIT), sig_in).unwrap();
    // note held through the first block: full-scale output everywhere
    host.stage_midi(midi, 0, vec![0x90, 60, 100]).unwrap();
    host.process_block(1_000_000);
    let out = signal_out_block(&host, env.idx);
    for &s in &out {
        assert_eq!(s, SIGNAL_UNIT);
    }
    // the note released at the start of the next block: silence from then on
    host.stage_midi(midi, 1_000_000, vec![0x80, 60, 0]).unwrap();
    host.process_block(2_000_000);
    let out2 = signal_out_block(&host, env.idx);
    for &s in &out2 {
        assert_eq!(s, 0);
    }
}
