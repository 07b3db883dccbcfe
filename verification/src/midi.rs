//! MIDI events as the host's modules read them.
//!
//! A raw MIDI message arriving from a device is decoded by the outside
//! `midly` crate; the host keeps only the fields its modules act on.

use vstd::prelude::*;

use crate::constants::{BUFFER_LEN, SAMPLE_RATE, SIGNAL_UNIT};
use crate::ports::{
    Block, BlockView, BufferElemEnum, BufferHandle, BuiltModuleDescriptor, InDeclView,
    ModuleBuffersIn, ModuleBuffersOut, ModuleDescriptor, OutDeclView,
};
use crate::sample::{mul_unit, mul_unit_spec, sat_add, sat_add_spec, sat_sub, sat_sub_spec};

verus! {

/// One decoded MIDI message.  Messages the host's modules do not act on are
/// collapsed into [`MidiEvent::Other`]; they still occupy their sample slot
/// and are broadcast by modules that forward unrecognized events.
#[derive(Clone, Copy, Debug, PartialEq, Eq, Structural)]
pub enum MidiEvent {
    /// Start playing a key (MIDI note-on).
    NoteOn { key: u8, vel: u8 },
    /// Stop playing a key (MIDI note-off).
    NoteOff { key: u8, vel: u8 },
    /// A controller (CC) change.
    Controller { controller: u8, value: u8 },
    /// A pitch-bend change; `bend` is the raw 14-bit value, centered at
    /// `0x2000`.
    PitchBend { bend: u16 },
    /// Any other well-formed MIDI message.
    Other,
}

impl DeepView for MidiEvent {
    type V = MidiEvent;

    open spec fn deep_view(&self) -> MidiEvent {
        *self
    }
}

/// The ordered list of events that arrived in one sample slot.
pub type MidiEvents = Vec<MidiEvent>;

/// The event that the `midly` crate decodes from one complete raw MIDI
/// message, reduced to the fields the host reads; `None` where the bytes are
/// not a well-formed message.
pub uninterp spec fn parsed_event_of(bytes: Seq<u8>) -> Option<MidiEvent>;

/// Relies on `midly::live::LiveEvent::parse`: decodes one complete live MIDI
/// message (status byte then data bytes); the result depends on the bytes
/// alone.
#[verifier::external_body]
pub(crate) fn parse_live_event(bytes: &Vec<u8>) -> (r: Option<MidiEvent>)
    ensures
        r == parsed_event_of(bytes@),
{
    match midly::live::LiveEvent::parse(bytes) {
        Ok(midly::live::LiveEvent::Midi { message, .. }) => Some(match message {
            midly::MidiMessage::NoteOn { key, vel } => MidiEvent::NoteOn { key: key.as_int(), vel: vel.as_int() },
            midly::MidiMessage::NoteOff { key, vel } => MidiEvent::NoteOff { key: key.as_int(), vel: vel.as_int() },
            midly::MidiMessage::Controller { controller, value } => MidiEvent::Controller { controller: controller.as_int(), value: value.as_int() },
            midly::MidiMessage::PitchBend { bend } => MidiEvent::PitchBend { bend: bend.0.as_int() },
            _ => MidiEvent::Other,
        }),
        Ok(_) => Some(MidiEvent::Other),
        Err(_) => None,
    }
}

/// Settings of a [`MidiSlider`]: the controller it listens to and the
/// fixed-point output range it maps the controller value into.
#[derive(Clone, Copy, Debug, PartialEq, Eq, Structural)]
pub struct MidiSliderSettings {
    pub controller: u8,
    pub default: i64,
    pub min: i64,
    pub max: i64,
}

/// A module mapping a MIDI CC stream into a stepped control signal.
#[derive(Clone, Copy, Debug)]
pub struct MidiSlider {
    pub midi_in: BufferHandle,
    pub signal_out: BufferHandle,
    pub settings: MidiSliderSettings,
    pub range: i64,
    pub current_val: i64,
}

/// The in-port declarations of a slider.
pub open spec fn slider_ins() -> Seq<InDeclView> {
    seq![
        InDeclView {
            arity: crate::ports::BufferArity::Single,
            name: "in"@,
            default: crate::ports::ElemValueView::Midi(Seq::empty()),
        },
    ]
}

/// The out-port declarations of a slider.
pub open spec fn slider_outs() -> Seq<OutDeclView> {
    seq![
        OutDeclView {
            arity: crate::ports::BufferArity::Single,
            name: "out"@,
            elem: BufferElemEnum::Signal,
        },
    ]
}

/// The value of the last matching controller event in one sample slot.
pub open spec fn slider_pick(events: Seq<MidiEvent>, controller: u8) -> Option<u8>
    decreases events.len(),
{
    if events.len() == 0 {
        None
    } else {
        match events.last() {
            MidiEvent::Controller { controller: c, value } => if c == controller {
                Some(value)
            } else {
                slider_pick(events.drop_last(), controller)
            },
            _ => slider_pick(events.drop_last(), controller),
        }
    }
}

/// The control value a controller byte maps to: the byte scaled into the
/// range above the minimum.
pub open spec fn slider_value(v: u8, range: int, min: int) -> int {
    sat_add_spec(mul_unit_spec(((v as int) * SIGNAL_UNIT) / 128, range), min)
}

/// The slider's value after one sample slot.
pub open spec fn slider_step(cur: int, events: Seq<MidiEvent>, s: MidiSliderSettings, range: int) -> int {
    match slider_pick(events, s.controller) {
        Some(v) => slider_value(v, range, s.min as int),
        None => cur,
    }
}

/// The slider's value at the end of slot `j - 1`, starting from `cur`.
pub open spec fn slider_at(
    cur: int,
    midi: Seq<Seq<MidiEvent>>,
    s: MidiSliderSettings,
    range: int,
    j: int,
) -> int
    decreases j,
{
    if j <= 0 {
        cur
    } else {
        slider_step(slider_at(cur, midi, s, range, j - 1), midi[j - 1], s, range)
    }
}

/// The block a slider writes: its value after each slot.
pub open spec fn slider_block(
    cur: int,
    midi: Seq<Seq<MidiEvent>>,
    s: MidiSliderSettings,
    range: int,
) -> Seq<i64> {
    Seq::new(BUFFER_LEN as nat, |j: int| slider_at(cur, midi, s, range, j + 1) as i64)
}

impl MidiSlider {
    /// The module's stored handles point at its declared ports.
    pub open spec fn wf(self) -> bool {
        &&& self.midi_in == (BufferHandle { idx: 0 })
        &&& self.signal_out == (BufferHandle { idx: 0 })
        &&& self.range as int == sat_sub_spec(self.settings.max as int, self.settings.min as int)
    }

    /// Declare one MIDI in-port and one signal out-port.
    pub fn init(mut desc: ModuleDescriptor, settings: MidiSliderSettings) -> (r:
        BuiltModuleDescriptor<MidiSlider>)
        requires
            desc.wf(),
            desc@.ins == Seq::<InDeclView>::empty(),
            desc@.outs == Seq::<OutDeclView>::empty(),
            desc@.num_args <= usize::MAX - 1,
        ensures
            r.buffers_descriptors.wf(),
            r.buffers_descriptors@.num_args == desc@.num_args,
            r.buffers_descriptors@.ins == slider_ins(),
            r.buffers_descriptors@.outs == slider_outs(),
            r.initial_data.wf(),
            r.initial_data.settings == settings,
            r.initial_data.current_val == settings.default,
    {
        let midi_in = desc.with_buf_in("in", BufferElemEnum::Midi);
        let signal_out = desc.with_buf_out("out", BufferElemEnum::Signal);
        let module = MidiSlider {
            midi_in,
            signal_out,
            current_val: settings.default,
            range: sat_sub(settings.max, settings.min),
            settings,
        };
        proof {
            assert(desc@.ins =~= slider_ins());
            assert(desc@.outs =~= slider_outs());
        }
        desc.build(module)
    }

    /// Track the controller through the block, emitting the value after
    /// each slot.
    pub fn fill_buffers(
        &mut self,
        buffers_in: &ModuleBuffersIn,
        buffers_out: &mut ModuleBuffersOut,
    )
        requires
            old(self).wf(),
            buffers_in@.len() == 1,
            buffers_in@[0] is Midi,
            buffers_in@[0].wf(),
            old(buffers_out)@.len() == 1,
        ensures
            final(self).wf(),
            final(self).settings == old(self).settings,
            final(self).range == old(self).range,
            final(self).current_val as int == slider_at(
                old(self).current_val as int,
                crate::modules::midi_of(buffers_in@[0]),
                old(self).settings,
                old(self).range as int,
                BUFFER_LEN as int,
            ),
            final(buffers_out)@ == old(buffers_out)@.update(
                0,
                BlockView::Signal(
                    slider_block(
                        old(self).current_val as int,
                        crate::modules::midi_of(buffers_in@[0]),
                        old(self).settings,
                        old(self).range as int,
                    ),
                ),
            ),
    {
        let ghost midi = crate::modules::midi_of(buffers_in@[0]);
        let ghost cur0 = self.current_val as int;
        let events_block = buffers_in.get(self.midi_in);
        let slots: &Vec<MidiEvents> = match events_block {
            Block::Midi(v) => v,
            Block::Signal(_) => {
                proof {
                    assert(false);
                }
                return ;
            },
        };
        let mut out: Vec<i64> = Vec::new();
        let mut j: usize = 0;
        while j < BUFFER_LEN
            invariant
                j <= BUFFER_LEN,
                self.wf(),
                self.settings == old(self).settings,
                self.range == old(self).range,
                slots@.len() == BUFFER_LEN,
                midi.len() == BUFFER_LEN,
                forall|l: int| 0 <= l < BUFFER_LEN ==> midi[l] == (#[trigger] slots@[l])@,
                out@.len() == j,
                self.current_val as int == slider_at(
                    cur0,
                    midi,
                    old(self).settings,
                    old(self).range as int,
                    j as int,
                ),
                forall|l: int|
                    0 <= l < j ==> (#[trigger] out@[l]) as int == slider_at(
                        cur0,
                        midi,
                        old(self).settings,
                        old(self).range as int,
                        l + 1,
                    ),
            decreases BUFFER_LEN - j,
        {
            let events = &slots[j];
            let mut picked: Option<u8> = None;
            let mut e: usize = 0;
            while e < events.len()
                invariant
                    e <= events@.len(),
                    picked == slider_pick(events@.subrange(0, e as int), self.settings.controller),
                    self.wf(),
                    self.settings == old(self).settings,
                decreases events@.len() - e,
            {
                proof {
                    assert(events@.subrange(0, e + 1).drop_last() =~= events@.subrange(
                        0,
                        e as int,
                    ));
                    assert(events@.subrange(0, e + 1).last() == events@[e as int]);
                }
                match events[e] {
                    MidiEvent::Controller { controller, value } => {
                        if controller == self.settings.controller {
                            picked = Some(value);
                        }
                    },
                    _ => {},
                }
                e = e + 1;
            }
            proof {
                assert(events@.subrange(0, events@.len() as int) =~= events@);
                assert(events@ == midi[j as int]);
            }
            match picked {
                Some(v) => {
                    let scaled = (v as i64) * SIGNAL_UNIT / 128;
                    self.current_val = sat_add(mul_unit(scaled, self.range), self.settings.min);
                },
                None => {},
            }
            out.push(self.current_val);
            j = j + 1;
        }
        proof {
            assert(out@ =~= slider_block(cur0, midi, old(self).settings, old(self).range as int));
        }
        buffers_out.set(self.signal_out, Block::Signal(out));
    }
}

/// One raw MIDI message waiting to be placed into a block, with its wall
/// clock arrival time in microseconds.
pub struct StagedEvent {
    pub time_micros: u64,
    pub bytes: Vec<u8>,
}

/// The mathematical value of a staged event.
#[verifier::ext_equal]
pub struct StagedEventView {
    pub time_micros: u64,
    pub bytes: Seq<u8>,
}

impl View for StagedEvent {
    type V = StagedEventView;

    open spec fn view(&self) -> StagedEventView {
        StagedEventView { time_micros: self.time_micros, bytes: self.bytes@ }
    }
}

/// A module that drains staged MIDI messages into per-sample event lists.
/// The messages themselves arrive from outside the library between passes.
pub struct MidiInput {
    pub buf_out: BufferHandle,
    pub start_time_micros: u64,
    pub event_queue: Vec<StagedEvent>,
}

/// The mathematical value of a MIDI input module.
#[verifier::ext_equal]
pub struct MidiInputView {
    pub buf_out: BufferHandle,
    pub start_time_micros: u64,
    pub event_queue: Seq<StagedEventView>,
}

impl View for MidiInput {
    type V = MidiInputView;

    open spec fn view(&self) -> MidiInputView {
        MidiInputView {
            buf_out: self.buf_out,
            start_time_micros: self.start_time_micros,
            event_queue: Seq::new(self.event_queue@.len(), |i: int| self.event_queue@[i]@),
        }
    }
}

/// The out-port declarations of a MIDI input module.
pub open spec fn midi_input_outs() -> Seq<OutDeclView> {
    seq![
        OutDeclView {
            arity: crate::ports::BufferArity::Single,
            name: "out"@,
            elem: BufferElemEnum::Midi,
        },
    ]
}

/// The sample slot an arrival time falls into, relative to the block start:
/// early arrivals clamp to slot zero.
pub open spec fn event_slot(t: u64, t0: u64) -> int {
    if t < t0 {
        0
    } else {
        ((t - t0) * SAMPLE_RATE) / 1000000
    }
}

/// The first queue position whose event falls beyond this block, scanning
/// from `i`.
pub open spec fn midi_cutoff_from(q: Seq<StagedEventView>, t0: u64, i: int) -> int
    decreases q.len() - i,
{
    if i < 0 || i >= q.len() {
        q.len() as int
    } else if event_slot(q[i].time_micros, t0) >= BUFFER_LEN {
        i
    } else {
        midi_cutoff_from(q, t0, i + 1)
    }
}

/// An empty MIDI block: one empty event list per sample slot.
pub open spec fn empty_midi_block() -> Seq<Seq<MidiEvent>> {
    Seq::new(BUFFER_LEN as nat, |i: int| Seq::<MidiEvent>::empty())
}

/// The block the first `upto` staged events build: each event that decodes
/// is appended to the list of its slot, in queue order.
pub open spec fn midi_block_of(q: Seq<StagedEventView>, t0: u64, upto: int) -> Seq<Seq<MidiEvent>>
    decreases upto,
{
    if upto <= 0 {
        empty_midi_block()
    } else {
        let b = midi_block_of(q, t0, upto - 1);
        let s = event_slot(q[upto - 1].time_micros, t0);
        match parsed_event_of(q[upto - 1].bytes) {
            Some(ev) => b.update(s, b[s].push(ev)),
            None => b,
        }
    }
}

impl MidiInput {
    /// The module's stored handle points at its declared port.
    pub open spec fn wf(self) -> bool {
        self.buf_out == (BufferHandle { idx: 0 })
    }

    /// Declare the single MIDI out-port.
    pub fn init(mut desc: ModuleDescriptor) -> (r: BuiltModuleDescriptor<MidiInput>)
        requires
            desc.wf(),
            desc@.ins == Seq::<InDeclView>::empty(),
            desc@.outs == Seq::<OutDeclView>::empty(),
            desc@.num_args <= usize::MAX - 1,
        ensures
            r.buffers_descriptors.wf(),
            r.buffers_descriptors@.num_args == desc@.num_args,
            r.buffers_descriptors@.ins == Seq::<InDeclView>::empty(),
            r.buffers_descriptors@.outs == midi_input_outs(),
            r.initial_data.wf(),
            r.initial_data@.event_queue == Seq::<StagedEventView>::empty(),
            r.initial_data@.start_time_micros == 0,
    {
        let buf_out = desc.with_buf_out("out", BufferElemEnum::Midi);
        let module = MidiInput { buf_out, start_time_micros: 0, event_queue: Vec::new() };
        proof {
            assert(desc@.outs =~= midi_input_outs());
            assert(module@.event_queue =~= Seq::<StagedEventView>::empty());
        }
        desc.build(module)
    }

    /// Drain the staged events that fall inside this block into the output
    /// block, keep later events staged, and start the next block at `now`.
    pub fn fill_buffers(&mut self, buffers_out: &mut ModuleBuffersOut, now: u64)
        requires
            old(self).wf(),
            old(buffers_out)@.len() == 1,
        ensures
            final(self).wf(),
            ({
                let q = old(self)@.event_queue;
                let t0 = old(self)@.start_time_micros;
                let cut = midi_cutoff_from(q, t0, 0);
                &&& final(self)@.event_queue == q.subrange(cut, q.len() as int)
                &&& final(self)@.start_time_micros == now
                &&& final(buffers_out)@ == old(buffers_out)@.update(
                    0,
                    BlockView::Midi(midi_block_of(q, t0, cut)),
                )
            }),
    {
        let ghost q = self@.event_queue;
        let t0 = self.start_time_micros;
        let mut slots: Vec<MidiEvents> = Vec::new();
        while slots.len() < BUFFER_LEN
            invariant
                slots@.len() <= BUFFER_LEN,
                forall|l: int| 0 <= l < slots@.len() ==> (#[trigger] slots@[l])@ == Seq::<
                    MidiEvent,
                >::empty(),
            decreases BUFFER_LEN - slots@.len(),
        {
            let empty: MidiEvents = Vec::new();
            slots.push(empty);
        }
        proof {
            assert(crate::ports::midi_views(slots@) =~= empty_midi_block());
            assert(crate::ports::midi_views(slots@) =~= midi_block_of(q, t0, 0));
        }
        let n = self.event_queue.len();
        let mut i: usize = 0;
        let mut stopped = false;
        while i < n && !stopped
            invariant
                i <= n,
                self.wf(),
                t0 == self.start_time_micros,
                n == self.event_queue@.len(),
                q == self@.event_queue,
                q.len() == n,
                slots@.len() == BUFFER_LEN,
                !stopped ==> midi_cutoff_from(q, t0, i as int) == midi_cutoff_from(q, t0, 0),
                !stopped ==> (forall|l: int|
                    0 <= l < i ==> event_slot((#[trigger] q[l]).time_micros, t0) < BUFFER_LEN),
                stopped ==> i < n && midi_cutoff_from(q, t0, 0) == i as int,
                crate::ports::midi_views(slots@) == midi_block_of(q, t0, i as int),
            decreases n - i, (if stopped {
                0int
            } else {
                1int
            }),
        {
            let ev = &self.event_queue[i];
            proof {
                assert(ev@ == q[i as int]);
            }
            let idx_wide: u128 = if ev.time_micros < t0 {
                0
            } else {
                ((ev.time_micros - t0) as u128) * (SAMPLE_RATE as u128) / 1000000
            };
            proof {
                assert(idx_wide == event_slot(ev.time_micros, t0));
            }
            if idx_wide >= BUFFER_LEN as u128 {
                stopped = true;
                proof {
                    assert(midi_cutoff_from(q, t0, i as int) == i as int);
                }
            } else {
                let idx: usize = idx_wide as usize;
                let ghost slots0 = slots@;
                match parse_live_event(&ev.bytes) {
                    Some(event) => {
                        let mut slot_events: MidiEvents = Vec::new();
                        slots.set_and_swap(idx, &mut slot_events);
                        slot_events.push(event);
                        slots.set(idx, slot_events);
                        proof {
                            assert(crate::ports::midi_views(slots@) =~= crate::ports::midi_views(
                                slots0,
                            ).update(
                                idx as int,
                                crate::ports::midi_views(slots0)[idx as int].push(event),
                            ));
                        }
                    },
                    None => {},
                }
                proof {
                    assert(crate::ports::midi_views(slots@) =~= midi_block_of(q, t0, i + 1));
                    assert(midi_cutoff_from(q, t0, i as int) == midi_cutoff_from(q, t0, i + 1));
                }
                i = i + 1;
            }
        }
        proof {
            if !stopped {
                assert(i == n);
                assert(midi_cutoff_from(q, t0, n as int) == n as int);
            }
            assert(midi_cutoff_from(q, t0, 0) == i as int);
            assert(crate::ports::midi_views(slots@) == midi_block_of(
                q,
                t0,
                midi_cutoff_from(q, t0, 0),
            ));
        }
        // keep the events of later blocks, in order
        let mut rest: Vec<StagedEvent> = Vec::new();
        let mut j: usize = i;
        while j < n
            invariant
                i <= j <= n,
                n == self.event_queue@.len(),
                q == self@.event_queue,
                rest@.len() == j - i,
                forall|l: int| 0 <= l < j - i ==> (#[trigger] rest@[l])@ == q[i + l],
            decreases n - j,
        {
            let ev = &self.event_queue[j];
            let mut bytes: Vec<u8> = Vec::new();
            let mut b: usize = 0;
            while b < ev.bytes.len()
                invariant
                    b <= ev.bytes@.len(),
                    bytes@ == ev.bytes@.subrange(0, b as int),
                decreases ev.bytes@.len() - b,
            {
                bytes.push(ev.bytes[b]);
                proof {
                    assert(bytes@ =~= ev.bytes@.subrange(0, b + 1));
                }
                b = b + 1;
            }
            proof {
                assert(bytes@ =~= ev.bytes@);
            }
            rest.push(StagedEvent { time_micros: ev.time_micros, bytes });
            j = j + 1;
        }
        self.event_queue = rest;
        self.start_time_micros = now;
        proof {
            assert(self@.event_queue =~= q.subrange(
                midi_cutoff_from(q, t0, 0),
                q.len() as int,
            ));
        }
        buffers_out.set(self.buf_out, Block::Midi(slots));
    }
}

/// On a queue with nondecreasing arrival times, the cutoff splits the queue
/// exactly: every event before it falls inside this block (and is placed at
/// its slot by `midi_block_of`), every event from it on falls beyond the
/// block and stays staged in order.
pub proof fn lemma_midi_partition(q: Seq<StagedEventView>, t0: u64, i: int)
    requires
        0 <= i <= q.len(),
        forall|a: int, b: int|
            0 <= a < b < q.len() ==> (#[trigger] q[a]).time_micros <= (#[trigger] q[b]).time_micros,
    ensures
        i <= midi_cutoff_from(q, t0, i) <= q.len(),
        forall|l: int|
            i <= l < midi_cutoff_from(q, t0, i) ==> event_slot((#[trigger] q[l]).time_micros, t0)
                < BUFFER_LEN,
        forall|l: int|
            midi_cutoff_from(q, t0, i) <= l < q.len() ==> event_slot(
                (#[trigger] q[l]).time_micros,
                t0,
            ) >= BUFFER_LEN,
    decreases q.len() - i,
{
    if i < q.len() {
        if event_slot(q[i].time_micros, t0) >= BUFFER_LEN {
            assert forall|l: int|
                midi_cutoff_from(q, t0, i) <= l < q.len() implies event_slot(
                (#[trigger] q[l]).time_micros,
                t0,
            ) >= BUFFER_LEN by {
                if l > i {
                    assert(q[i].time_micros <= q[l].time_micros);
                    lemma_event_slot_monotone(q[i].time_micros, q[l].time_micros, t0);
                }
            }
        } else {
            lemma_midi_partition(q, t0, i + 1);
        }
    }
}

/// A later arrival never lands in an earlier slot.
pub proof fn lemma_event_slot_monotone(t1: u64, t2: u64, t0: u64)
    requires
        t1 <= t2,
    ensures
        event_slot(t1, t0) <= event_slot(t2, t0),
{
    if t0 <= t1 {
        assert(((t1 - t0) * SAMPLE_RATE) / 1000000 <= ((t2 - t0) * SAMPLE_RATE) / 1000000)
            by (nonlinear_arith)
            requires
                0 <= t1 - t0 <= t2 - t0,
                SAMPLE_RATE > 0,
        ;
    }
}

} // verus!
