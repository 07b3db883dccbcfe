//! The DSP modules the host can run, and the dispatch the scheduler uses.
//!
//! Modules form a closed set: each kind owns its port handles and internal
//! state, declares its ports through a [`ModuleDescriptor`], and fills its
//! output blocks once per pass from its input blocks.

use vstd::prelude::*;

use crate::constants::{BUFFER_LEN, SIGNAL_UNIT};
use crate::midi::{
    midi_block_of, midi_cutoff_from, slider_at, slider_block, MidiEvent, MidiEvents, MidiInput,
    MidiInputView, MidiSlider, MidiSliderSettings,
};
use crate::ports::{
    in_slots_of, BufferArity, BufferElemEnum, BufferHandle, Block, BlockView,
    BuiltModuleDescriptor, ElemValue, InDeclView, ModuleBuffersIn, ModuleBuffersOut,
    ModuleDescriptor, OutDeclView, VariadicBufferHandle,
};
use crate::sample::{mul_unit, mul_unit_spec, sat_add, sat_add_spec, sat_sub, sat_sub_spec};

verus! {

/// The sample sequence of a signal block value.
pub open spec fn signal_of(b: BlockView) -> Seq<i64> {
    b->Signal_0
}

/// The per-slot event lists of a MIDI block value.
pub open spec fn midi_of(b: BlockView) -> Seq<Seq<crate::midi::MidiEvent>> {
    b->Midi_0
}

/// The arithmetic operation an [`Op`] module applies across its inputs.
#[derive(Clone, Copy, Debug, PartialEq, Eq, Structural)]
pub enum OpType {
    Add,
    Multiply,
    Negate,
}

/// The fold seed of an operation: the value of an output sample with no
/// inputs.
pub open spec fn op_seed(op: OpType) -> int {
    match op {
        OpType::Add => 0,
        OpType::Multiply => SIGNAL_UNIT as int,
        OpType::Negate => 0,
    }
}

/// One fold step of an operation.
pub open spec fn op_combine(op: OpType, acc: int, v: int) -> int {
    match op {
        OpType::Add => sat_add_spec(acc, v),
        OpType::Multiply => mul_unit_spec(acc, v),
        OpType::Negate => sat_sub_spec(acc, v),
    }
}

/// Output sample `j` of an operation folded left over the input blocks.
pub open spec fn op_sample(op: OpType, inputs: Seq<Seq<i64>>, j: int) -> int
    decreases inputs.len(),
{
    if inputs.len() == 0 {
        op_seed(op)
    } else {
        op_combine(op, op_sample(op, inputs.drop_last(), j), inputs.last()[j] as int)
    }
}

/// The whole output block of an operation.
pub open spec fn op_block(op: OpType, inputs: Seq<Seq<i64>>) -> Seq<i64> {
    Seq::new(BUFFER_LEN as nat, |j: int| op_sample(op, inputs, j) as i64)
}

/// The signal views of a variadic run of input blocks.
pub open spec fn variadic_signals(bufs: Seq<BlockView>, base: int, k: nat) -> Seq<Seq<i64>> {
    Seq::new(k, |i: int| signal_of(bufs[base + i]))
}

/// A module that folds an arithmetic operation across a variadic run of
/// signal inputs.
#[derive(Clone, Copy, Debug)]
pub struct Op {
    pub signal_in: VariadicBufferHandle,
    pub signal_out: BufferHandle,
    pub op: OpType,
}

/// The in-port declarations of an [`Op`] module.
pub open spec fn op_ins(op: OpType) -> Seq<InDeclView> {
    seq![
        InDeclView {
            arity: BufferArity::Variadic,
            name: "in"@,
            default: crate::ports::ElemValueView::Signal(
                match op {
                    OpType::Multiply => SIGNAL_UNIT,
                    _ => 0,
                },
            ),
        },
    ]
}

/// The out-port declarations of an [`Op`] module.
pub open spec fn op_outs() -> Seq<OutDeclView> {
    seq![
        OutDeclView { arity: BufferArity::Single, name: "out"@, elem: BufferElemEnum::Signal },
    ]
}

impl Op {
    /// The module's stored handles point at its declared ports.
    pub open spec fn wf(self, num_args: usize) -> bool {
        &&& self.signal_in == (VariadicBufferHandle {
            num_args,
            buffer: BufferHandle { idx: 0 },
        })
        &&& self.signal_out == (BufferHandle { idx: 0 })
    }

    /// Declare one variadic signal in-port (defaulting to the operation's
    /// neutral value) and one signal out-port.
    pub fn init(mut desc: ModuleDescriptor, operation: OpType) -> (r: BuiltModuleDescriptor<Op>)
        requires
            desc.wf(),
            desc@.ins == Seq::<InDeclView>::empty(),
            desc@.outs == Seq::<OutDeclView>::empty(),
            desc@.num_args <= usize::MAX - 1,
        ensures
            r.buffers_descriptors.wf(),
            r.buffers_descriptors@.num_args == desc@.num_args,
            r.buffers_descriptors@.ins == op_ins(operation),
            r.buffers_descriptors@.outs == op_outs(),
            r.initial_data.wf(desc@.num_args),
            r.initial_data.op == operation,
    {
        let default = match operation {
            OpType::Multiply => SIGNAL_UNIT,
            _ => 0i64,
        };
        let signal_in = desc.with_variadic_buf_in_default("in", ElemValue::Signal(default));
        let signal_out = desc.with_buf_out("out", BufferElemEnum::Signal);
        let module = Op { op: operation, signal_in, signal_out };
        proof {
            assert(desc@.ins =~= op_ins(operation));
            assert(desc@.outs =~= op_outs());
        }
        desc.build(module)
    }

    /// Fold the operation across the input blocks, sample by sample.
    pub fn fill_buffers(
        &self,
        num_args: usize,
        buffers_in: &ModuleBuffersIn,
        buffers_out: &mut ModuleBuffersOut,
    )
        requires
            self.wf(num_args),
            buffers_in@.len() == num_args,
            forall|k: int| 0 <= k < num_args ==> (#[trigger] buffers_in@[k]) is Signal,
            forall|k: int| 0 <= k < num_args ==> (#[trigger] buffers_in@[k]).wf(),
            old(buffers_out)@.len() == 1,
        ensures
            final(buffers_out)@ == old(buffers_out)@.update(
                0,
                BlockView::Signal(op_block(self.op, variadic_signals(buffers_in@, 0, num_args as nat))),
            ),
    {
        let ghost all_inputs = variadic_signals(buffers_in@, 0, num_args as nat);
        let mut out: Vec<i64> = Vec::new();
        let seed: i64 = match self.op {
            OpType::Add => 0,
            OpType::Multiply => SIGNAL_UNIT,
            OpType::Negate => 0,
        };
        while out.len() < BUFFER_LEN
            invariant
                out@.len() <= BUFFER_LEN,
                seed as int == op_seed(self.op),
                forall|j: int| 0 <= j < out@.len() ==> out@[j] as int == op_seed(self.op),
            decreases BUFFER_LEN - out@.len(),
        {
            out.push(seed);
        }
        proof {
            assert(variadic_signals(buffers_in@, 0, 0nat) =~= Seq::<Seq<i64>>::empty());
            assert forall|j: int| 0 <= j < out@.len() implies out@[j] as int == op_sample(
                self.op,
                variadic_signals(buffers_in@, 0, 0nat),
                j,
            ) by {}
        }
        let mut k: usize = 0;
        while k < num_args
            invariant
                k <= num_args,
                self.wf(num_args),
                buffers_in@.len() == num_args,
                forall|i: int| 0 <= i < num_args ==> (#[trigger] buffers_in@[i]) is Signal,
                forall|i: int| 0 <= i < num_args ==> (#[trigger] buffers_in@[i]).wf(),
                out@.len() == BUFFER_LEN,
                forall|j: int|
                    0 <= j < BUFFER_LEN ==> (#[trigger] out@[j]) as int == op_sample(
                        self.op,
                        variadic_signals(buffers_in@, 0, k as nat),
                        j,
                    ),
            decreases num_args - k,
        {
            let block = buffers_in.get_variadic(self.signal_in, k);
            let samples: &Vec<i64> = match block {
                Block::Signal(v) => v,
                Block::Midi(_) => {
                    proof {
                        assert(false);
                    }
                    return ;
                },
            };
            let ghost prev = variadic_signals(buffers_in@, 0, k as nat);
            let ghost cur = variadic_signals(buffers_in@, 0, (k + 1) as nat);
            proof {
                assert(cur.drop_last() =~= prev);
                assert(cur.last() == signal_of(buffers_in@[k as int]));
                assert(samples@ == signal_of(buffers_in@[k as int]));
            }
            let mut j: usize = 0;
            while j < BUFFER_LEN
                invariant
                    j <= BUFFER_LEN,
                    out@.len() == BUFFER_LEN,
                    samples@.len() == BUFFER_LEN,
                    samples@ == cur.last(),
                    cur.len() == k + 1,
                    cur.drop_last() == prev,
                    forall|l: int|
                        0 <= l < j ==> (#[trigger] out@[l]) as int == op_sample(self.op, cur, l),
                    forall|l: int|
                        j <= l < BUFFER_LEN ==> (#[trigger] out@[l]) as int == op_sample(
                            self.op,
                            prev,
                            l,
                        ),
                decreases BUFFER_LEN - j,
            {
                let acc = out[j];
                let v = samples[j];
                let next = match self.op {
                    OpType::Add => sat_add(acc, v),
                    OpType::Multiply => mul_unit(acc, v),
                    OpType::Negate => sat_sub(acc, v),
                };
                out.set(j, next);
                proof {
                    assert(cur.len() == k + 1);
                    assert(op_sample(self.op, cur, j as int) == op_combine(
                        self.op,
                        op_sample(self.op, cur.drop_last(), j as int),
                        cur.last()[j as int] as int,
                    ));
                }
                j = j + 1;
            }
            k = k + 1;
        }
        proof {
            assert(out@ =~= op_block(self.op, all_inputs));
        }
        buffers_out.set(self.signal_out, Block::Signal(out));
    }
}

/// The phase an envelope is in.
#[derive(Clone, Copy, Debug, PartialEq, Eq, Structural)]
pub enum EnvelopeStage {
    Silence,
    Attack,
    Decay,
    Sustain,
    Release,
}

/// Envelope timing, in samples, and the sustain level in signal units.
#[derive(Clone, Copy, Debug, PartialEq, Eq, Structural)]
pub struct EnvelopeSettings {
    pub attack: u32,
    pub decay: u32,
    pub sustain: i64,
    pub release: u32,
}

/// The envelope's mutable state.
#[derive(Clone, Copy, Debug, PartialEq, Eq, Structural)]
pub struct EnvState {
    pub stage: EnvelopeStage,
    pub time_elapsed: u64,
    pub num_notes: i64,
    pub release_amplitude: i64,
}

/// An attack–decay–sustain–release envelope gated by note events, scaling
/// its signal input.
#[derive(Clone, Copy, Debug)]
pub struct Envelope {
    pub midi_in: BufferHandle,
    pub signal_in: BufferHandle,
    pub signal_out: BufferHandle,
    pub settings: EnvelopeSettings,
    pub state: EnvState,
}

/// The in-port declarations of an envelope: a MIDI gate and a signal input,
/// each under the name `in` of its own element namespace.
pub open spec fn envelope_ins() -> Seq<InDeclView> {
    seq![
        InDeclView {
            arity: BufferArity::Single,
            name: "in"@,
            default: crate::ports::ElemValueView::Midi(Seq::empty()),
        },
        InDeclView {
            arity: BufferArity::Single,
            name: "in"@,
            default: crate::ports::ElemValueView::Signal(0),
        },
    ]
}

/// The out-port declarations of an envelope.
pub open spec fn envelope_outs() -> Seq<OutDeclView> {
    seq![
        OutDeclView { arity: BufferArity::Single, name: "out"@, elem: BufferElemEnum::Signal },
    ]
}

/// The envelope state after one note event.
pub open spec fn env_apply_event(st: EnvState, e: crate::midi::MidiEvent) -> EnvState {
    match e {
        crate::midi::MidiEvent::NoteOn { .. } => EnvState {
            stage: EnvelopeStage::Attack,
            time_elapsed: 0,
            num_notes: sat_add_spec(st.num_notes as int, 1) as i64,
            release_amplitude: 0,
        },
        crate::midi::MidiEvent::NoteOff { .. } => {
            let n = sat_sub_spec(st.num_notes as int, 1) as i64;
            if n == 0 {
                match st.stage {
                    EnvelopeStage::Release => EnvState { num_notes: n, ..st },
                    EnvelopeStage::Silence => EnvState { num_notes: n, ..st },
                    _ => EnvState {
                        stage: EnvelopeStage::Release,
                        time_elapsed: 0,
                        num_notes: n,
                        ..st
                    },
                }
            } else {
                EnvState { stage: EnvelopeStage::Sustain, num_notes: n, ..st }
            }
        },
        _ => st,
    }
}

/// The envelope state after the events of one sample slot.
pub open spec fn env_apply_events(st: EnvState, events: Seq<crate::midi::MidiEvent>) -> EnvState
    decreases events.len(),
{
    if events.len() == 0 {
        st
    } else {
        env_apply_event(env_apply_events(st, events.drop_last()), events.last())
    }
}

/// One sample of elapsed time, saturating.
pub open spec fn env_tick(st: EnvState) -> EnvState {
    EnvState {
        time_elapsed: if st.time_elapsed < u64::MAX {
            (st.time_elapsed + 1) as u64
        } else {
            st.time_elapsed
        },
        ..st
    }
}

/// The envelope's stage walk and output for one sample: phases fall through
/// when their time is up, and the output scales the signal input by the
/// amplitude of the current phase.
pub open spec fn env_out(st0: EnvState, s: EnvelopeSettings, sig: i64) -> (EnvState, i64) {
    let st1 = if st0.stage is Attack && st0.time_elapsed >= s.attack {
        EnvState {
            stage: EnvelopeStage::Decay,
            time_elapsed: (st0.time_elapsed - s.attack) as u64,
            ..st0
        }
    } else {
        st0
    };
    if st1.stage is Attack {
        let rel = ((st1.time_elapsed * SIGNAL_UNIT) / s.attack as int) as i64;
        (
            EnvState { release_amplitude: rel, ..st1 },
            mul_unit_spec(sig as int, rel as int) as i64,
        )
    } else {
        let st2 = if st1.stage is Decay && st1.time_elapsed >= s.decay {
            EnvState { stage: EnvelopeStage::Sustain, ..st1 }
        } else {
            st1
        };
        if st2.stage is Decay {
            let rel = sat_add_spec(
                mul_unit_spec(
                    sat_sub_spec(SIGNAL_UNIT as int, s.sustain as int),
                    sat_sub_spec(
                        SIGNAL_UNIT as int,
                        (st2.time_elapsed * SIGNAL_UNIT) / s.decay as int,
                    ),
                ),
                s.sustain as int,
            ) as i64;
            (
                EnvState { release_amplitude: rel, ..st2 },
                mul_unit_spec(sig as int, rel as int) as i64,
            )
        } else if st2.stage is Sustain {
            (
                EnvState { release_amplitude: s.sustain, ..st2 },
                mul_unit_spec(sig as int, s.sustain as int) as i64,
            )
        } else {
            let st3 = if st2.stage is Release && st2.time_elapsed >= s.release {
                EnvState { stage: EnvelopeStage::Silence, ..st2 }
            } else {
                st2
            };
            if st3.stage is Release {
                (
                    st3,
                    mul_unit_spec(
                        mul_unit_spec(sig as int, st3.release_amplitude as int),
                        sat_sub_spec(
                            SIGNAL_UNIT as int,
                            (st3.time_elapsed * SIGNAL_UNIT) / s.release as int,
                        ),
                    ) as i64,
                )
            } else {
                (st3, 0)
            }
        }
    }
}

/// The envelope state at the start of sample slot `j`.
pub open spec fn env_pre(
    st: EnvState,
    s: EnvelopeSettings,
    midi: Seq<Seq<crate::midi::MidiEvent>>,
    j: int,
) -> EnvState
    decreases j,
{
    if j <= 0 {
        st
    } else {
        env_out(env_tick(env_apply_events(env_pre(st, s, midi, j - 1), midi[j - 1])), s, 0).0
    }
}

/// The block an envelope writes.
pub open spec fn env_block(
    st: EnvState,
    s: EnvelopeSettings,
    midi: Seq<Seq<crate::midi::MidiEvent>>,
    sig: Seq<i64>,
) -> Seq<i64> {
    Seq::new(
        BUFFER_LEN as nat,
        |j: int|
            env_out(env_tick(env_apply_events(env_pre(st, s, midi, j), midi[j])), s, sig[j]).1,
    )
}

impl Envelope {
    /// The module's stored handles point at its declared ports.
    pub open spec fn wf(self) -> bool {
        &&& self.midi_in == (BufferHandle { idx: 0 })
        &&& self.signal_in == (BufferHandle { idx: 1 })
        &&& self.signal_out == (BufferHandle { idx: 0 })
    }

    /// Declare the MIDI gate, the signal input, and the signal output.
    pub fn init(mut desc: ModuleDescriptor, settings: EnvelopeSettings) -> (r:
        BuiltModuleDescriptor<Envelope>)
        requires
            desc.wf(),
            desc@.ins == Seq::<InDeclView>::empty(),
            desc@.outs == Seq::<OutDeclView>::empty(),
            desc@.num_args <= usize::MAX - 2,
        ensures
            r.buffers_descriptors.wf(),
            r.buffers_descriptors@.num_args == desc@.num_args,
            r.buffers_descriptors@.ins == envelope_ins(),
            r.buffers_descriptors@.outs == envelope_outs(),
            r.initial_data.wf(),
            r.initial_data.settings == settings,
            r.initial_data.state == (EnvState {
                stage: EnvelopeStage::Silence,
                time_elapsed: 0,
                num_notes: 0,
                release_amplitude: 0,
            }),
    {
        let midi_in = desc.with_buf_in("in", BufferElemEnum::Midi);
        proof {
            assert(desc@.ins.drop_last() =~= Seq::<InDeclView>::empty());
            assert(in_slots_of(desc@.ins, desc@.num_args).len() == 1);
        }
        let signal_in = desc.with_buf_in("in", BufferElemEnum::Signal);
        let signal_out = desc.with_buf_out("out", BufferElemEnum::Signal);
        let module = Envelope {
            midi_in,
            signal_in,
            signal_out,
            settings,
            state: EnvState {
                stage: EnvelopeStage::Silence,
                time_elapsed: 0,
                num_notes: 0,
                release_amplitude: 0,
            },
        };
        proof {
            assert(desc@.ins =~= envelope_ins());
            assert(desc@.outs =~= envelope_outs());
        }
        desc.build(module)
    }

    /// Walk the envelope through the block, scaling the signal input.
    pub fn fill_buffers(
        &mut self,
        buffers_in: &ModuleBuffersIn,
        buffers_out: &mut ModuleBuffersOut,
    )
        requires
            old(self).wf(),
            buffers_in@.len() == 2,
            buffers_in@[0] is Midi,
            buffers_in@[0].wf(),
            buffers_in@[1] is Signal,
            buffers_in@[1].wf(),
            old(buffers_out)@.len() == 1,
        ensures
            final(self).wf(),
            final(self).settings == old(self).settings,
            final(self).state == env_pre(
                old(self).state,
                old(self).settings,
                midi_of(buffers_in@[0]),
                BUFFER_LEN as int,
            ),
            final(buffers_out)@ == old(buffers_out)@.update(
                0,
                BlockView::Signal(
                    env_block(
                        old(self).state,
                        old(self).settings,
                        midi_of(buffers_in@[0]),
                        signal_of(buffers_in@[1]),
                    ),
                ),
            ),
    {
        let ghost midi = midi_of(buffers_in@[0]);
        let ghost sig = signal_of(buffers_in@[1]);
        let ghost st0 = self.state;
        let slots: &Vec<crate::midi::MidiEvents> = match buffers_in.get(self.midi_in) {
            Block::Midi(v) => v,
            Block::Signal(_) => {
                proof {
                    assert(false);
                }
                return ;
            },
        };
        let samples: &Vec<i64> = match buffers_in.get(self.signal_in) {
            Block::Signal(v) => v,
            Block::Midi(_) => {
                proof {
                    assert(false);
                }
                return ;
            },
        };
        let s = self.settings;
        let mut out: Vec<i64> = Vec::new();
        let mut j: usize = 0;
        while j < BUFFER_LEN
            invariant
                j <= BUFFER_LEN,
                self.wf(),
                self.settings == s,
                s == old(self).settings,
                self.midi_in == old(self).midi_in,
                self.signal_in == old(self).signal_in,
                self.signal_out == old(self).signal_out,
                slots@.len() == BUFFER_LEN,
                samples@.len() == BUFFER_LEN,
                midi.len() == BUFFER_LEN,
                sig.len() == BUFFER_LEN,
                forall|l: int| 0 <= l < BUFFER_LEN ==> midi[l] == (#[trigger] slots@[l])@,
                forall|l: int| 0 <= l < BUFFER_LEN ==> sig[l] == #[trigger] samples@[l],
                out@.len() == j,
                self.state == env_pre(st0, s, midi, j as int),
                forall|l: int|
                    0 <= l < j ==> (#[trigger] out@[l]) == env_out(
                        env_tick(env_apply_events(env_pre(st0, s, midi, l), midi[l])),
                        s,
                        sig[l],
                    ).1,
            decreases BUFFER_LEN - j,
        {
            let events = &slots[j];
            let mut e: usize = 0;
            while e < events.len()
                invariant
                    e <= events@.len(),
                    self.wf(),
                    self.settings == s,
                    self.midi_in == old(self).midi_in,
                    self.signal_in == old(self).signal_in,
                    self.signal_out == old(self).signal_out,
                    self.state == env_apply_events(
                        env_pre(st0, s, midi, j as int),
                        events@.subrange(0, e as int),
                    ),
            decreases events@.len() - e,
            {
                proof {
                    assert(events@.subrange(0, e + 1).drop_last() =~= events@.subrange(
                        0,
                        e as int,
                    ));
                    assert(events@.subrange(0, e + 1).last() == events@[e as int]);
                }
                match events[e] {
                    crate::midi::MidiEvent::NoteOn { .. } => {
                        self.state = EnvState {
                            stage: EnvelopeStage::Attack,
                            time_elapsed: 0,
                            num_notes: sat_add(self.state.num_notes, 1),
                            release_amplitude: 0,
                        };
                    },
                    crate::midi::MidiEvent::NoteOff { .. } => {
                        let n = sat_sub(self.state.num_notes, 1);
                        if n == 0 {
                            match self.state.stage {
                                EnvelopeStage::Release => {
                                    self.state = EnvState { num_notes: n, ..self.state };
                                },
                                EnvelopeStage::Silence => {
                                    self.state = EnvState { num_notes: n, ..self.state };
                                },
                                _ => {
                                    self.state = EnvState {
                                        stage: EnvelopeStage::Release,
                                        time_elapsed: 0,
                                        num_notes: n,
                                        ..self.state
                                    };
                                },
                            }
                        } else {
                            self.state = EnvState {
                                stage: EnvelopeStage::Sustain,
                                num_notes: n,
                                ..self.state
                            };
                        }
                    },
                    _ => {},
                }
                e = e + 1;
            }
            proof {
                assert(events@.subrange(0, events@.len() as int) =~= events@);
                assert(events@ == midi[j as int]);
            }
            // one sample of elapsed time
            if self.state.time_elapsed < u64::MAX {
                self.state = EnvState { time_elapsed: self.state.time_elapsed + 1, ..self.state };
            }
            let ghost ticked = self.state;
            let sig_in = samples[j];
            // walk the stage chain and emit one sample
            let mut emitted = false;
            let mut out_s: i64 = 0;
            if matches!(self.state.stage, EnvelopeStage::Attack) {
                if self.state.time_elapsed >= s.attack as u64 {
                    self.state = EnvState {
                        stage: EnvelopeStage::Decay,
                        time_elapsed: self.state.time_elapsed - s.attack as u64,
                        ..self.state
                    };
                } else {
                    let rel = ((self.state.time_elapsed * SIGNAL_UNIT as u64) / s.attack as u64)
                        as i64;
                    self.state = EnvState { release_amplitude: rel, ..self.state };
                    out_s = mul_unit(sig_in, rel);
                    emitted = true;
                }
            }
            if !emitted && matches!(self.state.stage, EnvelopeStage::Decay) {
                if self.state.time_elapsed >= s.decay as u64 {
                    self.state = EnvState { stage: EnvelopeStage::Sustain, ..self.state };
                } else {
                    let frac = ((self.state.time_elapsed * SIGNAL_UNIT as u64) / s.decay as u64)
                        as i64;
                    let rel = sat_add(
                        mul_unit(sat_sub(SIGNAL_UNIT, s.sustain), sat_sub(SIGNAL_UNIT, frac)),
                        s.sustain,
                    );
                    self.state = EnvState { release_amplitude: rel, ..self.state };
                    out_s = mul_unit(sig_in, rel);
                    emitted = true;
                }
            }
            if !emitted && matches!(self.state.stage, EnvelopeStage::Sustain) {
                self.state = EnvState { release_amplitude: s.sustain, ..self.state };
                out_s = mul_unit(sig_in, s.sustain);
                emitted = true;
            }
            if !emitted && matches!(self.state.stage, EnvelopeStage::Release) {
                if self.state.time_elapsed >= s.release as u64 {
                    self.state = EnvState { stage: EnvelopeStage::Silence, ..self.state };
                } else {
                    let frac = ((self.state.time_elapsed * SIGNAL_UNIT as u64) / s.release as u64)
                        as i64;
                    out_s = mul_unit(mul_unit(sig_in, self.state.release_amplitude), sat_sub(
                        SIGNAL_UNIT,
                        frac,
                    ));
                    emitted = true;
                }
            }
            proof {
                assert((self.state, out_s) == env_out(ticked, s, sig[j as int]));
            }
            out.push(out_s);
            j = j + 1;
        }
        proof {
            assert(out@ =~= env_block(st0, s, midi, sig));
        }
        buffers_out.set(self.signal_out, Block::Signal(out));
    }
}

/// The polyphony splitter: one MIDI in-port fanned out over a variadic run
/// of K MIDI out-ports, one voice per port.
pub struct MidiPoly {
    /// The sounding keys with their note-on events, most recent first.
    pub notes: Vec<(u8, MidiEvent)>,
    /// The voice owners: which out-port slot owns which voice, most
    /// recently used first — a permutation of the K slot indices.
    pub port_order: Vec<usize>,
    pub midi_in: BufferHandle,
    pub midi_out: VariadicBufferHandle,
}

/// The mathematical value of a polyphony splitter.
#[verifier::ext_equal]
pub struct MidiPolyView {
    pub notes: Seq<(u8, MidiEvent)>,
    pub port_order: Seq<usize>,
    pub midi_in: BufferHandle,
    pub midi_out: VariadicBufferHandle,
}

impl View for MidiPoly {
    type V = MidiPolyView;

    open spec fn view(&self) -> MidiPolyView {
        MidiPolyView {
            notes: self.notes@,
            port_order: self.port_order@,
            midi_in: self.midi_in,
            midi_out: self.midi_out,
        }
    }
}

/// The in-port declarations of a polyphony splitter.
pub open spec fn poly_ins() -> Seq<InDeclView> {
    seq![
        InDeclView {
            arity: BufferArity::Single,
            name: "in"@,
            default: crate::ports::ElemValueView::Midi(Seq::empty()),
        },
    ]
}

/// The out-port declarations of a polyphony splitter.
pub open spec fn poly_outs() -> Seq<OutDeclView> {
    seq![
        OutDeclView { arity: BufferArity::Variadic, name: "out"@, elem: BufferElemEnum::Midi },
    ]
}

/// The first position of a key in the sounding-note list, scanning from
/// `j`; the list length when the key is not sounding.
pub open spec fn poly_find_from(notes: Seq<(u8, MidiEvent)>, key: u8, j: int) -> int
    decreases notes.len() - j,
{
    if j < 0 || j >= notes.len() {
        notes.len() as int
    } else if notes[j].0 == key {
        j
    } else {
        poly_find_from(notes, key, j + 1)
    }
}

/// A key search starting at `j` lands between `j` and the list length.
proof fn lemma_poly_find_range(notes: Seq<(u8, MidiEvent)>, key: u8, j: int)
    requires
        0 <= j <= notes.len(),
    ensures
        j <= poly_find_from(notes, key, j) <= notes.len(),
    decreases notes.len() - j,
{
    if j < notes.len() && notes[j].0 != key {
        lemma_poly_find_range(notes, key, j + 1);
    }
}

/// The K output blocks as event lists, one block per voice port.
pub open spec fn poly_outs_view(o: Seq<Vec<MidiEvents>>) -> Seq<Seq<Seq<MidiEvent>>> {
    Seq::new(o.len(), |p: int| crate::ports::midi_views(o[p]@))
}

/// One event of sample slot `i` routed through the splitter: a note-on for
/// a new key goes to the least-recently-used voice port (stealing when all
/// K are active) and is recorded most-recent-first; a note-off frees the
/// key's voice and re-emits the (K+1)th-most-recent held note-on on it;
/// every other event is broadcast to all K ports.
pub open spec fn poly_event(
    notes: Seq<(u8, MidiEvent)>,
    order: Seq<usize>,
    outs: Seq<Seq<Seq<MidiEvent>>>,
    k: int,
    e: MidiEvent,
    i: int,
) -> (Seq<(u8, MidiEvent)>, Seq<usize>, Seq<Seq<Seq<MidiEvent>>>) {
    match e {
        MidiEvent::NoteOn { key, vel } => {
            if poly_find_from(notes, key, 0) < notes.len() {
                (notes, order, outs)
            } else {
                let pos = if notes.len() < k - 1 {
                    notes.len() as int
                } else {
                    k - 1
                };
                let free = order[pos] as int;
                (
                    notes.insert(0, (key, e)),
                    order.remove(pos).insert(0, order[pos]),
                    outs.update(free, outs[free].update(i, outs[free][i].push(e))),
                )
            }
        },
        MidiEvent::NoteOff { key, vel } => {
            let idx = poly_find_from(notes, key, 0);
            if idx >= notes.len() {
                (notes, order, outs)
            } else {
                let notes2 = notes.remove(idx);
                if idx < k {
                    let freed = order[idx] as int;
                    let replay = if notes2.len() >= k {
                        notes2[k - 1].1
                    } else {
                        e
                    };
                    (
                        notes2,
                        order.remove(idx).push(order[idx]),
                        outs.update(freed, outs[freed].update(i, outs[freed][i].push(replay))),
                    )
                } else {
                    (notes2, order, outs)
                }
            }
        },
        _ => (notes, order, Seq::new(outs.len(), |p: int| outs[p].update(i, outs[p][i].push(e)))),
    }
}

/// The events of one sample slot, folded left.
pub open spec fn poly_events(
    notes: Seq<(u8, MidiEvent)>,
    order: Seq<usize>,
    outs: Seq<Seq<Seq<MidiEvent>>>,
    k: int,
    events: Seq<MidiEvent>,
    i: int,
) -> (Seq<(u8, MidiEvent)>, Seq<usize>, Seq<Seq<Seq<MidiEvent>>>)
    decreases events.len(),
{
    if events.len() == 0 {
        (notes, order, outs)
    } else {
        let (n1, o1, b1) = poly_events(notes, order, outs, k, events.drop_last(), i);
        poly_event(n1, o1, b1, k, events.last(), i)
    }
}

/// The first `upto` sample slots of a block, folded left.
pub open spec fn poly_slots(
    notes: Seq<(u8, MidiEvent)>,
    order: Seq<usize>,
    outs: Seq<Seq<Seq<MidiEvent>>>,
    k: int,
    midi: Seq<Seq<MidiEvent>>,
    upto: int,
) -> (Seq<(u8, MidiEvent)>, Seq<usize>, Seq<Seq<Seq<MidiEvent>>>)
    decreases upto,
{
    if upto <= 0 {
        (notes, order, outs)
    } else {
        let (n1, o1, b1) = poly_slots(notes, order, outs, k, midi, upto - 1);
        poly_events(n1, o1, b1, k, midi[upto - 1], upto - 1)
    }
}

/// K cleared output blocks: one empty event list per voice port and slot.
pub open spec fn poly_empty_outs(k: int) -> Seq<Seq<Seq<MidiEvent>>> {
    Seq::new(k as nat, |p: int| crate::midi::empty_midi_block())
}

/// A voice-owner list is a permutation-shaped index list: K entries, each a
/// distinct slot index below K.
#[verifier::opaque]
pub open spec fn poly_order_wf(order: Seq<usize>, k: int) -> bool {
    &&& order.len() == k
    &&& (forall|i: int| 0 <= i < order.len() ==> (#[trigger] order[i]) < k)
    &&& (forall|i: int, j: int| 0 <= i < j < order.len() ==> order[i] != order[j])
}

/// Moving one entry of a duplicate-free index list to the front keeps the
/// list duplicate-free, with the same entries.
proof fn lemma_order_rotate(order: Seq<usize>, pos: int, k: int)
    requires
        poly_order_wf(order, k),
        0 <= pos < order.len(),
    ensures
        poly_order_wf(order.remove(pos).insert(0, order[pos]), k),
{
    reveal(poly_order_wf);
    let r = order.remove(pos).insert(0, order[pos]);
    assert(r.len() == order.len());
    assert forall|i: int| 0 <= i < r.len() implies (#[trigger] r[i]) < k by {
        if i > 0 {
            let j = if i - 1 < pos {
                i - 1
            } else {
                i
            };
            assert(r[i] == order[j]);
        }
    }
    assert forall|i: int, j: int| 0 <= i < j < r.len() implies r[i] != r[j] by {
        let oi = if i == 0 {
            pos
        } else if i - 1 < pos {
            i - 1
        } else {
            i
        };
        let oj = if j - 1 < pos {
            j - 1
        } else {
            j
        };
        assert(r[i] == order[oi]);
        assert(r[j] == order[oj]);
        assert(oi != oj);
    }
}

/// Moving one entry of a duplicate-free index list to the back keeps the
/// list duplicate-free, with the same entries.
proof fn lemma_order_cycle(order: Seq<usize>, pos: int, k: int)
    requires
        poly_order_wf(order, k),
        0 <= pos < order.len(),
    ensures
        poly_order_wf(order.remove(pos).push(order[pos]), k),
{
    reveal(poly_order_wf);
    let r = order.remove(pos).push(order[pos]);
    assert(r.len() == order.len());
    assert forall|i: int| 0 <= i < r.len() implies (#[trigger] r[i]) < k by {
        if i < r.len() - 1 {
            let j = if i < pos {
                i
            } else {
                i + 1
            };
            assert(r[i] == order[j]);
        }
    }
    assert forall|i: int, j: int| 0 <= i < j < r.len() implies r[i] != r[j] by {
        let oi = if i < pos {
            i
        } else {
            i + 1
        };
        let oj = if j == r.len() - 1 {
            pos
        } else if j < pos {
            j
        } else {
            j + 1
        };
        assert(r[i] == order[oi]);
        assert(r[j] == order[oj]);
        assert(oi != oj);
    }
}

/// Routing one event preserves the voice-owner shape and the output shape.
proof fn lemma_poly_event_wf(
    notes: Seq<(u8, MidiEvent)>,
    order: Seq<usize>,
    outs: Seq<Seq<Seq<MidiEvent>>>,
    k: int,
    e: MidiEvent,
    i: int,
)
    requires
        k >= 1,
        poly_order_wf(order, k),
        outs.len() == k,
        forall|p: int| 0 <= p < k ==> (#[trigger] outs[p]).len() == BUFFER_LEN,
        0 <= i < BUFFER_LEN,
    ensures
        ({
            let (n2, o2, b2) = poly_event(notes, order, outs, k, e, i);
            &&& poly_order_wf(o2, k)
            &&& b2.len() == k
            &&& (forall|p: int| 0 <= p < k ==> (#[trigger] b2[p]).len() == BUFFER_LEN)
        }),
{
    reveal(poly_order_wf);
    let (n2, o2, b2) = poly_event(notes, order, outs, k, e, i);
    match e {
        MidiEvent::NoteOn { key, vel } => {
            if poly_find_from(notes, key, 0) < notes.len() {
            } else {
                let pos = if notes.len() < k - 1 {
                    notes.len() as int
                } else {
                    k - 1
                };
                lemma_order_rotate(order, pos, k);
                let free = order[pos] as int;
                assert forall|p: int| 0 <= p < k implies (#[trigger] b2[p]).len()
                    == BUFFER_LEN by {
                    if p != free {
                        assert(b2[p] == outs[p]);
                    }
                }
            }
        },
        MidiEvent::NoteOff { key, vel } => {
            lemma_poly_find_range(notes, key, 0);
            let idx = poly_find_from(notes, key, 0);
            if idx < notes.len() && idx < k {
                lemma_order_cycle(order, idx, k);
                let freed = order[idx] as int;
                assert forall|p: int| 0 <= p < k implies (#[trigger] b2[p]).len()
                    == BUFFER_LEN by {
                    if p != freed {
                        assert(b2[p] == outs[p]);
                    }
                }
            }
        },
        _ => {
            assert forall|p: int| 0 <= p < k implies (#[trigger] b2[p]).len() == BUFFER_LEN by {
                assert(b2[p] == outs[p].update(i, outs[p][i].push(e)));
            }
        },
    }
}

/// The events of a slot preserve the voice-owner shape and the output
/// shape.
proof fn lemma_poly_events_wf(
    notes: Seq<(u8, MidiEvent)>,
    order: Seq<usize>,
    outs: Seq<Seq<Seq<MidiEvent>>>,
    k: int,
    events: Seq<MidiEvent>,
    i: int,
)
    requires
        k >= 1,
        poly_order_wf(order, k),
        outs.len() == k,
        forall|p: int| 0 <= p < k ==> (#[trigger] outs[p]).len() == BUFFER_LEN,
        0 <= i < BUFFER_LEN,
    ensures
        ({
            let (n2, o2, b2) = poly_events(notes, order, outs, k, events, i);
            &&& poly_order_wf(o2, k)
            &&& b2.len() == k
            &&& (forall|p: int| 0 <= p < k ==> (#[trigger] b2[p]).len() == BUFFER_LEN)
        }),
    decreases events.len(),
{
    if events.len() > 0 {
        lemma_poly_events_wf(notes, order, outs, k, events.drop_last(), i);
        let (n1, o1, b1) = poly_events(notes, order, outs, k, events.drop_last(), i);
        lemma_poly_event_wf(n1, o1, b1, k, events.last(), i);
    }
}

impl MidiPoly {
    /// The module's stored handles point at its declared ports, and the
    /// voice-owner list is a permutation of the K slots.
    pub open spec fn wf(self, num_args: usize) -> bool {
        &&& self.midi_in == (BufferHandle { idx: 0 })
        &&& self.midi_out == (VariadicBufferHandle {
            num_args,
            buffer: BufferHandle { idx: 0 },
        })
        &&& poly_order_wf(self.port_order@, num_args as int)
    }
}

impl MidiPolyView {
    /// The view-level well-formedness, identical in shape.
    pub open spec fn wf(self, num_args: usize) -> bool {
        &&& self.midi_in == (BufferHandle { idx: 0 })
        &&& self.midi_out == (VariadicBufferHandle {
            num_args,
            buffer: BufferHandle { idx: 0 },
        })
        &&& poly_order_wf(self.port_order, num_args as int)
    }
}

/// The slots of a block preserve the voice-owner shape and the output
/// shape.
proof fn lemma_poly_slots_wf(
    notes: Seq<(u8, MidiEvent)>,
    order: Seq<usize>,
    outs: Seq<Seq<Seq<MidiEvent>>>,
    k: int,
    midi: Seq<Seq<MidiEvent>>,
    upto: int,
)
    requires
        k >= 1,
        poly_order_wf(order, k),
        outs.len() == k,
        forall|p: int| 0 <= p < k ==> (#[trigger] outs[p]).len() == BUFFER_LEN,
        upto <= BUFFER_LEN,
    ensures
        ({
            let (n2, o2, b2) = poly_slots(notes, order, outs, k, midi, upto);
            &&& poly_order_wf(o2, k)
            &&& b2.len() == k
            &&& (forall|p: int| 0 <= p < k ==> (#[trigger] b2[p]).len() == BUFFER_LEN)
        }),
    decreases upto,
{
    if upto > 0 {
        lemma_poly_slots_wf(notes, order, outs, k, midi, upto - 1);
        let (n1, o1, b1) = poly_slots(notes, order, outs, k, midi, upto - 1);
        lemma_poly_events_wf(n1, o1, b1, k, midi[upto - 1], upto - 1);
    }
}

/// Append one event to output slot `i` of voice port `p`.
fn poly_push(outs: &mut Vec<Vec<MidiEvents>>, p: usize, i: usize, e: MidiEvent)
    requires
        p < old(outs)@.len(),
        i < old(outs)@[p as int]@.len(),
    ensures
        final(outs)@.len() == old(outs)@.len(),
        forall|q: int|
            0 <= q < old(outs)@.len() ==> (#[trigger] final(outs)@[q])@.len() == old(
                outs,
            )@[q]@.len(),
        poly_outs_view(final(outs)@) == poly_outs_view(old(outs)@).update(
            p as int,
            poly_outs_view(old(outs)@)[p as int].update(
                i as int,
                poly_outs_view(old(outs)@)[p as int][i as int].push(e),
            ),
        ),
{
    let ghost before = poly_outs_view(outs@);
    let mut row: Vec<MidiEvents> = Vec::new();
    outs.set_and_swap(p, &mut row);
    let ghost row0 = row@;
    let mut slot: MidiEvents = Vec::new();
    row.set_and_swap(i, &mut slot);
    slot.push(e);
    row.set(i, slot);
    proof {
        assert(crate::ports::midi_views(row@) =~= crate::ports::midi_views(row0).update(
            i as int,
            crate::ports::midi_views(row0)[i as int].push(e),
        ));
    }
    outs.set(p, row);
    proof {
        assert(poly_outs_view(outs@) =~= before.update(
            p as int,
            before[p as int].update(i as int, before[p as int][i as int].push(e)),
        ));
    }
}

impl MidiPoly {
    /// Declare one MIDI in-port and the variadic MIDI out-port; the voices
    /// start owned in slot order.
    pub fn init(mut desc: ModuleDescriptor) -> (r: BuiltModuleDescriptor<MidiPoly>)
        requires
            desc.wf(),
            desc@.ins == Seq::<InDeclView>::empty(),
            desc@.outs == Seq::<OutDeclView>::empty(),
            desc@.num_args <= usize::MAX - 1,
        ensures
            r.buffers_descriptors.wf(),
            r.buffers_descriptors@.num_args == desc@.num_args,
            r.buffers_descriptors@.ins == poly_ins(),
            r.buffers_descriptors@.outs == poly_outs(),
            r.initial_data.wf(desc@.num_args),
            r.initial_data@.notes == Seq::<(u8, MidiEvent)>::empty(),
            r.initial_data@.port_order == Seq::new(desc@.num_args as nat, |i: int| i as usize),
    {
        let midi_in = desc.with_buf_in("in", BufferElemEnum::Midi);
        let midi_out = desc.with_variadic_buf_out("out", BufferElemEnum::Midi);
        let k = desc.num_args;
        let mut port_order: Vec<usize> = Vec::new();
        while port_order.len() < k
            invariant
                port_order@.len() <= k,
                forall|j: int| 0 <= j < port_order@.len() ==> (#[trigger] port_order@[j]) == j,
            decreases k - port_order@.len(),
        {
            let n = port_order.len();
            port_order.push(n);
        }
        let module = MidiPoly { notes: Vec::new(), port_order, midi_in, midi_out };
        proof {
            reveal(poly_order_wf);
            assert(desc@.ins =~= poly_ins());
            assert(desc@.outs =~= poly_outs());
            assert(module@.notes =~= Seq::<(u8, MidiEvent)>::empty());
            assert(module@.port_order =~= Seq::new(desc@.num_args as nat, |i: int| i as usize));
        }
        desc.build(module)
    }

    /// The first position of a key in the sounding-note list, or its
    /// length.
    fn find_note(&self, key: u8) -> (r: usize)
        ensures
            r == poly_find_from(self@.notes, key, 0),
            r <= self@.notes.len(),
    {
        let mut i: usize = 0;
        let n = self.notes.len();
        while i < n
            invariant
                i <= n,
                n == self@.notes.len(),
                poly_find_from(self@.notes, key, 0) == poly_find_from(self@.notes, key, i as int),
            decreases n - i,
        {
            let e = &self.notes[i];
            if e.0 == key {
                return i;
            }
            i = i + 1;
        }
        n
    }

    /// Route the block's events through the splitter: each voice port
    /// receives the events of the voice it owns, and unrecognized events
    /// are broadcast.
    #[verifier::rlimit(100)]
    #[verifier::spinoff_prover]
    pub fn fill_buffers(
        &mut self,
        num_args: usize,
        buffers_in: &ModuleBuffersIn,
        buffers_out: &mut ModuleBuffersOut,
    )
        requires
            old(self).wf(num_args),
            buffers_in@.len() == 1,
            buffers_in@[0] is Midi,
            buffers_in@[0].wf(),
            old(buffers_out)@.len() == num_args,
        ensures
            final(self).wf(num_args),
            final(self).midi_in == old(self).midi_in,
            final(self).midi_out == old(self).midi_out,
            ({
                let (n2, o2, b2) = poly_slots(
                    old(self)@.notes,
                    old(self)@.port_order,
                    poly_empty_outs(num_args as int),
                    num_args as int,
                    midi_of(buffers_in@[0]),
                    BUFFER_LEN as int,
                );
                if num_args == 0 {
                    final(self)@ == old(self)@ && final(buffers_out)@ == old(buffers_out)@
                } else {
                    &&& final(self)@.notes == n2
                    &&& final(self)@.port_order == o2
                    &&& final(buffers_out)@ == Seq::new(
                        num_args as nat,
                        |p: int| BlockView::Midi(b2[p]),
                    )
                }
            }),
    {
        proof {
            reveal(poly_order_wf);
        }
        if num_args == 0 {
            return ;
        }
        let ghost midi = midi_of(buffers_in@[0]);
        let ghost notes0 = self@.notes;
        let ghost order0 = self@.port_order;
        let k = num_args;
        let slots_in: &Vec<MidiEvents> = match buffers_in.get(self.midi_in) {
            Block::Midi(v) => v,
            Block::Signal(_) => {
                proof {
                    assert(false);
                }
                return ;
            },
        };
        // cleared output blocks, one per voice port
        let mut outs: Vec<Vec<MidiEvents>> = Vec::new();
        while outs.len() < k
            invariant
                outs@.len() <= k,
                forall|p: int|
                    0 <= p < outs@.len() ==> crate::ports::midi_views((#[trigger] outs@[p])@)
                        == crate::midi::empty_midi_block(),
                forall|p: int| 0 <= p < outs@.len() ==> (#[trigger] outs@[p])@.len() == BUFFER_LEN,
            decreases k - outs@.len(),
        {
            let mut row: Vec<MidiEvents> = Vec::new();
            while row.len() < BUFFER_LEN
                invariant
                    row@.len() <= BUFFER_LEN,
                    forall|l: int| 0 <= l < row@.len() ==> (#[trigger] row@[l])@ == Seq::<
                        MidiEvent,
                    >::empty(),
                decreases BUFFER_LEN - row@.len(),
            {
                let empty: MidiEvents = Vec::new();
                row.push(empty);
            }
            proof {
                assert(crate::ports::midi_views(row@) =~= crate::midi::empty_midi_block());
            }
            outs.push(row);
        }
        proof {
            assert(poly_outs_view(outs@) =~= poly_empty_outs(k as int));
        }
        let mut j: usize = 0;
        while j < BUFFER_LEN
            invariant
                j <= BUFFER_LEN,
                1 <= k == num_args,
                self.wf(num_args),
                self.midi_in == old(self).midi_in,
                self.midi_out == old(self).midi_out,
                slots_in@.len() == BUFFER_LEN,
                midi.len() == BUFFER_LEN,
                forall|l: int| 0 <= l < BUFFER_LEN ==> midi[l] == (#[trigger] slots_in@[l])@,
                outs@.len() == k,
                forall|p: int| 0 <= p < k ==> (#[trigger] outs@[p])@.len() == BUFFER_LEN,
                (self@.notes, self@.port_order, poly_outs_view(outs@)) == poly_slots(
                    notes0,
                    order0,
                    poly_empty_outs(k as int),
                    k as int,
                    midi,
                    j as int,
                ),
            decreases BUFFER_LEN - j,
        {
            proof {
                reveal(poly_order_wf);
            }
            let events = &slots_in[j];
            let ghost sn = self@.notes;
            let ghost so = self@.port_order;
            let ghost sb = poly_outs_view(outs@);
            let mut e: usize = 0;
            while e < events.len()
                invariant
                    e <= events@.len(),
                    1 <= k == num_args,
                    j < BUFFER_LEN,
                    self.wf(num_args),
                    self.midi_in == old(self).midi_in,
                    self.midi_out == old(self).midi_out,
                    outs@.len() == k,
                    forall|p: int| 0 <= p < k ==> (#[trigger] outs@[p])@.len() == BUFFER_LEN,
                    (self@.notes, self@.port_order, poly_outs_view(outs@)) == poly_events(
                        sn,
                        so,
                        sb,
                        k as int,
                        events@.subrange(0, e as int),
                        j as int,
                    ),
                decreases events@.len() - e,
            {
                proof {
                    reveal(poly_order_wf);
                    assert(events@.subrange(0, e + 1).drop_last() =~= events@.subrange(
                        0,
                        e as int,
                    ));
                    assert(events@.subrange(0, e + 1).last() == events@[e as int]);
                }
                let ghost pn = self@.notes;
                let ghost po = self@.port_order;
                let ghost pb = poly_outs_view(outs@);
                let ev = events[e];
                match ev {
                    MidiEvent::NoteOn { key, .. } => {
                        let idx = self.find_note(key);
                        if idx == self.notes.len() {
                            let pos = if self.notes.len() < k - 1 {
                                self.notes.len()
                            } else {
                                k - 1
                            };
                            let free = self.port_order[pos];
                            proof {
                                assert(free < k);
                            }
                            poly_push(&mut outs, free, j, ev);
                            let moved = self.port_order.remove(pos);
                            self.port_order.insert(0, moved);
                            self.notes.insert(0, (key, ev));
                            proof {
                                lemma_order_rotate(po, pos as int, k as int);
                            }
                        }
                    },
                    MidiEvent::NoteOff { key, .. } => {
                        let idx = self.find_note(key);
                        if idx < self.notes.len() {
                            self.notes.remove(idx);
                            if idx < k {
                                let freed = self.port_order.remove(idx);
                                self.port_order.push(freed);
                                proof {
                                    assert(freed < k);
                                }
                                let replay = if self.notes.len() >= k {
                                    self.notes[k - 1].1
                                } else {
                                    ev
                                };
                                poly_push(&mut outs, freed, j, replay);
                                proof {
                                    lemma_order_cycle(po, idx as int, k as int);
                                }
                            }
                        }
                    },
                    _ => {
                        let mut p: usize = 0;
                        while p < k
                            invariant
                                p <= k,
                                j < BUFFER_LEN,
                                outs@.len() == k,
                                pb.len() == k,
                                forall|q: int| 0 <= q < k ==> (#[trigger] pb[q]).len() == BUFFER_LEN,
                                forall|q: int|
                                    0 <= q < k ==> (#[trigger] outs@[q])@.len() == BUFFER_LEN,
                                forall|q: int|
                                    0 <= q < k ==> #[trigger] poly_outs_view(outs@)[q] == (if q < p {
                                        pb[q].update(j as int, pb[q][j as int].push(ev))
                                    } else {
                                        pb[q]
                                    }),
                            decreases k - p,
                        {
                            poly_push(&mut outs, p, j, ev);
                            p = p + 1;
                        }
                        proof {
                            assert(poly_outs_view(outs@) =~= Seq::new(
                                pb.len(),
                                |q: int| pb[q].update(j as int, pb[q][j as int].push(ev)),
                            ));
                        }
                    },
                }
                proof {
                    assert((self@.notes, self@.port_order, poly_outs_view(outs@)) == poly_event(
                        pn,
                        po,
                        pb,
                        k as int,
                        ev,
                        j as int,
                    ));
                }
                e = e + 1;
            }
            proof {
                assert(events@.subrange(0, events@.len() as int) =~= events@);
                assert(events@ == midi[j as int]);
            }
            j = j + 1;
        }
        // hand each voice port its block
        let ghost bfinal = poly_outs_view(outs@);
        let mut p: usize = 0;
        while p < k
            invariant
                p <= k,
                1 <= k == num_args,
                self.midi_out == old(self).midi_out,
                self.wf(num_args),
                outs@.len() == k,
                bfinal.len() == k,
                buffers_out@.len() == num_args,
                forall|q: int|
                    p <= q < k ==> crate::ports::midi_views((#[trigger] outs@[q])@) == bfinal[q],
                forall|q: int|
                    0 <= q < p ==> (#[trigger] buffers_out@[q]) == BlockView::Midi(bfinal[q]),
                forall|q: int|
                    p <= q < num_args ==> (#[trigger] buffers_out@[q]) == old(buffers_out)@[q],
            decreases k - p,
        {
            proof {
                reveal(poly_order_wf);
            }
            let mut row: Vec<MidiEvents> = Vec::new();
            outs.set_and_swap(p, &mut row);
            buffers_out.set_variadic(self.midi_out, p, Block::Midi(row));
            p = p + 1;
        }
        proof {
            assert(buffers_out@ =~= Seq::new(
                num_args as nat,
                |q: int| BlockView::Midi(bfinal[q]),
            ));
        }
    }
}

/// The sink module: one signal in-port.  After each pass the host's caller
/// fetches the block this port received (`Host::sink_block`) and hands it
/// to the audio output.
#[derive(Clone, Copy, Debug)]
pub struct AudioOutputModule {
    pub signal_in: BufferHandle,
}

/// The in-port declarations of the sink module.
pub open spec fn audio_out_ins() -> Seq<InDeclView> {
    seq![
        InDeclView {
            arity: BufferArity::Single,
            name: "in"@,
            default: crate::ports::ElemValueView::Signal(0),
        },
    ]
}

impl AudioOutputModule {
    /// The module's stored handle points at its declared port.
    pub open spec fn wf(self) -> bool {
        self.signal_in == (BufferHandle { idx: 0 })
    }

    /// Declare the single signal in-port.
    pub fn init(mut desc: ModuleDescriptor) -> (r: BuiltModuleDescriptor<AudioOutputModule>)
        requires
            desc.wf(),
            desc@.ins == Seq::<InDeclView>::empty(),
            desc@.outs == Seq::<OutDeclView>::empty(),
        ensures
            r.buffers_descriptors.wf(),
            r.buffers_descriptors@.num_args == desc@.num_args,
            r.buffers_descriptors@.ins == audio_out_ins(),
            r.buffers_descriptors@.outs == Seq::<OutDeclView>::empty(),
            r.initial_data.wf(),
    {
        let signal_in = desc.with_buf_in("in", BufferElemEnum::Signal);
        let module = AudioOutputModule { signal_in };
        proof {
            assert(desc@.ins =~= audio_out_ins());
        }
        desc.build(module)
    }
}

/// A module's kind together with its internal state.
pub enum ModuleKind {
    AudioOut(AudioOutputModule),
    Op(Op),
    Envelope(Envelope),
    MidiSlider(MidiSlider),
    MidiPoly(MidiPoly),
    MidiInput(MidiInput),
}

/// The mathematical value of a module's kind and state.
#[verifier::ext_equal]
pub enum ModuleKindView {
    AudioOut(AudioOutputModule),
    Op(Op),
    Envelope(Envelope),
    MidiSlider(MidiSlider),
    MidiPoly(MidiPolyView),
    MidiInput(MidiInputView),
}

impl View for ModuleKind {
    type V = ModuleKindView;

    open spec fn view(&self) -> ModuleKindView {
        match self {
            ModuleKind::AudioOut(m) => ModuleKindView::AudioOut(*m),
            ModuleKind::Op(m) => ModuleKindView::Op(*m),
            ModuleKind::Envelope(m) => ModuleKindView::Envelope(*m),
            ModuleKind::MidiSlider(m) => ModuleKindView::MidiSlider(*m),
            ModuleKind::MidiPoly(m) => ModuleKindView::MidiPoly(m@),
            ModuleKind::MidiInput(m) => ModuleKindView::MidiInput(m@),
        }
    }
}

/// The settings a caller supplies to create a module.
#[derive(Clone, Debug)]
pub enum ModuleSettings {
    Op(OpType),
    Envelope(EnvelopeSettings),
    MidiSlider(MidiSliderSettings),
    MidiPoly,
    MidiInput,
}

/// The mathematical value of module settings.
#[verifier::ext_equal]
pub enum ModuleSettingsView {
    Op(OpType),
    Envelope(EnvelopeSettings),
    MidiSlider(MidiSliderSettings),
    MidiPoly,
    MidiInput,
}

impl View for ModuleSettings {
    type V = ModuleSettingsView;

    open spec fn view(&self) -> ModuleSettingsView {
        match self {
            ModuleSettings::Op(op) => ModuleSettingsView::Op(*op),
            ModuleSettings::Envelope(st) => ModuleSettingsView::Envelope(*st),
            ModuleSettings::MidiSlider(st) => ModuleSettingsView::MidiSlider(*st),
            ModuleSettings::MidiPoly => ModuleSettingsView::MidiPoly,
            ModuleSettings::MidiInput => ModuleSettingsView::MidiInput,
        }
    }
}

impl ModuleKindView {
    /// The element kinds of a kind's in-port slots, given its variadic
    /// arity.
    pub open spec fn in_elems(self, num_args: usize) -> Seq<BufferElemEnum> {
        match self {
            ModuleKindView::AudioOut(_) => seq![BufferElemEnum::Signal],
            ModuleKindView::Op(_) => Seq::new(num_args as nat, |i: int| BufferElemEnum::Signal),
            ModuleKindView::Envelope(_) => seq![BufferElemEnum::Midi, BufferElemEnum::Signal],
            ModuleKindView::MidiSlider(_) => seq![BufferElemEnum::Midi],
            ModuleKindView::MidiPoly(_) => seq![BufferElemEnum::Midi],
            ModuleKindView::MidiInput(_) => Seq::empty(),
        }
    }

    /// The element kinds of a kind's out-port slots.
    pub open spec fn out_elems(self, num_args: usize) -> Seq<BufferElemEnum> {
        match self {
            ModuleKindView::AudioOut(_) => Seq::empty(),
            ModuleKindView::Op(_) => seq![BufferElemEnum::Signal],
            ModuleKindView::Envelope(_) => seq![BufferElemEnum::Signal],
            ModuleKindView::MidiSlider(_) => seq![BufferElemEnum::Signal],
            ModuleKindView::MidiPoly(_) => Seq::new(num_args as nat, |i: int| BufferElemEnum::Midi),
            ModuleKindView::MidiInput(_) => seq![BufferElemEnum::Midi],
        }
    }

    /// The kind's stored handles agree with its port layout.
    pub open spec fn wf(self, num_args: usize) -> bool {
        match self {
            ModuleKindView::AudioOut(m) => m.wf(),
            ModuleKindView::Op(m) => m.wf(num_args),
            ModuleKindView::Envelope(m) => m.wf(),
            ModuleKindView::MidiSlider(m) => m.wf(),
            ModuleKindView::MidiPoly(m) => m.wf(num_args),
            ModuleKindView::MidiInput(m) => m.buf_out == (crate::ports::BufferHandle { idx: 0 }),
        }
    }
}

/// What one fill step leaves behind: the kind's next state and the views of
/// its output blocks.
pub open spec fn kind_fill_spec(
    kind: ModuleKindView,
    num_args: usize,
    inputs: Seq<BlockView>,
    outputs: Seq<BlockView>,
    now: u64,
) -> (ModuleKindView, Seq<BlockView>) {
    match kind {
        ModuleKindView::AudioOut(m) => (kind, outputs),
        ModuleKindView::Op(m) => (
            kind,
            outputs.update(
                0,
                BlockView::Signal(op_block(m.op, variadic_signals(inputs, 0, num_args as nat))),
            ),
        ),
        ModuleKindView::Envelope(m) => (
            ModuleKindView::Envelope(
                Envelope {
                    state: env_pre(m.state, m.settings, midi_of(inputs[0]), BUFFER_LEN as int),
                    ..m
                },
            ),
            outputs.update(
                0,
                BlockView::Signal(
                    env_block(m.state, m.settings, midi_of(inputs[0]), signal_of(inputs[1])),
                ),
            ),
        ),
        ModuleKindView::MidiSlider(m) => (
            ModuleKindView::MidiSlider(
                MidiSlider {
                    current_val: slider_at(
                        m.current_val as int,
                        midi_of(inputs[0]),
                        m.settings,
                        m.range as int,
                        BUFFER_LEN as int,
                    ) as i64,
                    ..m
                },
            ),
            outputs.update(
                0,
                BlockView::Signal(
                    slider_block(m.current_val as int, midi_of(inputs[0]), m.settings, m.range as int),
                ),
            ),
        ),
        ModuleKindView::MidiPoly(m) => if num_args == 0 {
            (kind, outputs)
        } else {
            let (n2, o2, b2) = poly_slots(
                m.notes,
                m.port_order,
                poly_empty_outs(num_args as int),
                num_args as int,
                midi_of(inputs[0]),
                BUFFER_LEN as int,
            );
            (
                ModuleKindView::MidiPoly(MidiPolyView { notes: n2, port_order: o2, ..m }),
                Seq::new(num_args as nat, |p: int| BlockView::Midi(b2[p])),
            )
        },
        ModuleKindView::MidiInput(m) => (
            ModuleKindView::MidiInput(
                MidiInputView {
                    event_queue: m.event_queue.subrange(
                        midi_cutoff_from(m.event_queue, m.start_time_micros, 0),
                        m.event_queue.len() as int,
                    ),
                    start_time_micros: now,
                    ..m
                },
            ),
            outputs.update(
                0,
                BlockView::Midi(
                    midi_block_of(
                        m.event_queue,
                        m.start_time_micros,
                        midi_cutoff_from(m.event_queue, m.start_time_micros, 0),
                    ),
                ),
            ),
        ),
    }
}

/// Every staged event before the cutoff falls inside the block.
pub proof fn lemma_midi_cutoff_lt(q: Seq<crate::midi::StagedEventView>, t0: u64, i: int)
    requires
        0 <= i <= q.len(),
    ensures
        i <= midi_cutoff_from(q, t0, i) <= q.len(),
        forall|l: int|
            i <= l < midi_cutoff_from(q, t0, i) ==> crate::midi::event_slot(
                (#[trigger] q[l]).time_micros,
                t0,
            ) < BUFFER_LEN,
    decreases q.len() - i,
{
    if i < q.len() {
        if crate::midi::event_slot(q[i].time_micros, t0) >= BUFFER_LEN {
        } else {
            lemma_midi_cutoff_lt(q, t0, i + 1);
        }
    }
}

/// A block built from in-range staged events holds one slot per sample.
pub proof fn lemma_midi_block_len(q: Seq<crate::midi::StagedEventView>, t0: u64, upto: int)
    requires
        upto <= q.len(),
        forall|l: int|
            0 <= l < upto ==> crate::midi::event_slot((#[trigger] q[l]).time_micros, t0)
                < BUFFER_LEN,
    ensures
        midi_block_of(q, t0, upto).len() == BUFFER_LEN,
    decreases upto,
{
    if upto > 0 {
        lemma_midi_block_len(q, t0, upto - 1);
    }
}

/// A kind's fill step keeps the kind's port layout and produces well-formed
/// blocks of the declared element kinds.
pub proof fn lemma_kind_fill_preserves(
    kind: ModuleKindView,
    num_args: usize,
    inputs: Seq<BlockView>,
    outputs: Seq<BlockView>,
    now: u64,
)
    requires
        kind.wf(num_args),
        outputs.len() == kind.out_elems(num_args).len(),
        forall|k: int|
            0 <= k < outputs.len() ==> (#[trigger] outputs[k]).elem() == kind.out_elems(
                num_args,
            )[k],
        forall|k: int| 0 <= k < outputs.len() ==> (#[trigger] outputs[k]).wf(),
    ensures
        ({
            let (k2, outs2) = kind_fill_spec(kind, num_args, inputs, outputs, now);
            &&& k2.wf(num_args)
            &&& k2.in_elems(num_args) == kind.in_elems(num_args)
            &&& k2.out_elems(num_args) == kind.out_elems(num_args)
            &&& outs2.len() == outputs.len()
            &&& (forall|k: int|
                0 <= k < outs2.len() ==> (#[trigger] outs2[k]).elem() == kind.out_elems(
                    num_args,
                )[k])
            &&& (forall|k: int| 0 <= k < outs2.len() ==> (#[trigger] outs2[k]).wf())
        }),
{
    let (k2, outs2) = kind_fill_spec(kind, num_args, inputs, outputs, now);
    match kind {
        ModuleKindView::AudioOut(_) => {},
        ModuleKindView::Op(m) => {
            assert forall|k: int| 0 <= k < outs2.len() implies (#[trigger] outs2[k]).elem()
                == kind.out_elems(num_args)[k] && outs2[k].wf() by {
                if k != 0 {
                    assert(outs2[k] == outputs[k]);
                }
            }
        },
        ModuleKindView::Envelope(m) => {
            assert forall|k: int| 0 <= k < outs2.len() implies (#[trigger] outs2[k]).elem()
                == kind.out_elems(num_args)[k] && outs2[k].wf() by {
                if k != 0 {
                    assert(outs2[k] == outputs[k]);
                }
            }
        },
        ModuleKindView::MidiSlider(m) => {
            assert forall|k: int| 0 <= k < outs2.len() implies (#[trigger] outs2[k]).elem()
                == kind.out_elems(num_args)[k] && outs2[k].wf() by {
                if k != 0 {
                    assert(outs2[k] == outputs[k]);
                }
            }
        },
        ModuleKindView::MidiPoly(m) => {
            if num_args > 0 {
                assert(poly_empty_outs(num_args as int).len() == num_args);
                assert(forall|p: int|
                    0 <= p < num_args ==> (#[trigger] poly_empty_outs(num_args as int)[p]).len()
                        == BUFFER_LEN);
                lemma_poly_slots_wf(
                    m.notes,
                    m.port_order,
                    poly_empty_outs(num_args as int),
                    num_args as int,
                    midi_of(inputs[0]),
                    BUFFER_LEN as int,
                );
            }
        },
        ModuleKindView::MidiInput(m) => {
            lemma_midi_cutoff_lt(m.event_queue, m.start_time_micros, 0);
            lemma_midi_block_len(
                m.event_queue,
                m.start_time_micros,
                midi_cutoff_from(m.event_queue, m.start_time_micros, 0),
            );
            assert forall|k: int| 0 <= k < outs2.len() implies (#[trigger] outs2[k]).elem()
                == kind.out_elems(num_args)[k] && outs2[k].wf() by {
                if k != 0 {
                    assert(outs2[k] == outputs[k]);
                }
            }
        },
    }
}

/// Run one module's fill step: read the input blocks, write the output
/// blocks, update the module's state.
#[verifier::rlimit(100)]
#[verifier::spinoff_prover]
pub fn fill_module(
    kind: &mut ModuleKind,
    num_args: usize,
    buffers_in: &ModuleBuffersIn,
    buffers_out: &mut ModuleBuffersOut,
    now: u64,
)
    requires
        old(kind)@.wf(num_args),
        buffers_in@.len() == old(kind)@.in_elems(num_args).len(),
        forall|k: int|
            0 <= k < buffers_in@.len() ==> (#[trigger] buffers_in@[k]).elem() == old(
                kind,
            )@.in_elems(num_args)[k],
        forall|k: int| 0 <= k < buffers_in@.len() ==> (#[trigger] buffers_in@[k]).wf(),
        old(buffers_out)@.len() == old(kind)@.out_elems(num_args).len(),
        forall|k: int|
            0 <= k < old(buffers_out)@.len() ==> (#[trigger] old(buffers_out)@[k]).elem() == old(
                kind,
            )@.out_elems(num_args)[k],
        forall|k: int|
            0 <= k < old(buffers_out)@.len() ==> (#[trigger] old(buffers_out)@[k]).wf(),
    ensures
        (final(kind)@, final(buffers_out)@) == kind_fill_spec(
            old(kind)@,
            num_args,
            buffers_in@,
            old(buffers_out)@,
            now,
        ),
        final(kind)@.wf(num_args),
        final(kind)@.in_elems(num_args) == old(kind)@.in_elems(num_args),
        final(kind)@.out_elems(num_args) == old(kind)@.out_elems(num_args),
        final(buffers_out)@.len() == old(buffers_out)@.len(),
        forall|k: int|
            0 <= k < final(buffers_out)@.len() ==> (#[trigger] final(buffers_out)@[k]).elem()
                == old(buffers_out)@[k].elem(),
        forall|k: int|
            0 <= k < final(buffers_out)@.len() ==> (#[trigger] final(buffers_out)@[k]).wf(),
{
    match kind {
        ModuleKind::AudioOut(_) => {},
        ModuleKind::Op(m) => {
            proof {
                assert(forall|k: int|
                    0 <= k < num_args ==> (#[trigger] buffers_in@[k]).elem()
                        == BufferElemEnum::Signal);
                assert(forall|k: int|
                    0 <= k < num_args ==> (#[trigger] buffers_in@[k]) is Signal);
            }
            m.fill_buffers(num_args, buffers_in, buffers_out);
        },
        ModuleKind::Envelope(m) => {
            proof {
                assert(buffers_in@[0].elem() == BufferElemEnum::Midi);
                assert(buffers_in@[0] is Midi);
                assert(buffers_in@[1].elem() == BufferElemEnum::Signal);
                assert(buffers_in@[1] is Signal);
            }
            m.fill_buffers(buffers_in, buffers_out);
        },
        ModuleKind::MidiSlider(m) => {
            proof {
                assert(buffers_in@[0].elem() == BufferElemEnum::Midi);
                assert(buffers_in@[0] is Midi);
            }
            m.fill_buffers(buffers_in, buffers_out);
        },
        ModuleKind::MidiPoly(m) => {
            proof {
                assert(buffers_in@[0].elem() == BufferElemEnum::Midi);
                assert(buffers_in@[0] is Midi);
            }
            m.fill_buffers(num_args, buffers_in, buffers_out);
            proof {
                let mq = old(kind)@->MidiPoly_0;
                if num_args > 0 {
                    assert(poly_empty_outs(num_args as int).len() == num_args);
                    assert(forall|p: int|
                        0 <= p < num_args ==> (#[trigger] poly_empty_outs(
                            num_args as int,
                        )[p]).len() == BUFFER_LEN);
                    lemma_poly_slots_wf(
                        mq.notes,
                        mq.port_order,
                        poly_empty_outs(num_args as int),
                        num_args as int,
                        midi_of(buffers_in@[0]),
                        BUFFER_LEN as int,
                    );
                }
            }
        },
        ModuleKind::MidiInput(m) => {
            proof {
                lemma_midi_cutoff_lt(
                    old(kind)@->MidiInput_0.event_queue,
                    old(kind)@->MidiInput_0.start_time_micros,
                    0,
                );
            }
            m.fill_buffers(buffers_out, now);
            proof {
                lemma_midi_block_len(
                    old(kind)@->MidiInput_0.event_queue,
                    old(kind)@->MidiInput_0.start_time_micros,
                    midi_cutoff_from(
                        old(kind)@->MidiInput_0.event_queue,
                        old(kind)@->MidiInput_0.start_time_micros,
                        0,
                    ),
                );
            }
        },
    }
}

} // verus!
