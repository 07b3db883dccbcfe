//! The audio sink's double buffer.
//!
//! One buffer is read by the audio device one sample at a time while the
//! other is free for the scheduler to overwrite.  The state machine here is
//! sequential; the threaded shell around it (a mutex for the state, a
//! condition variable signalled when `can_write` turns true) lives outside
//! the library and calls one step at a time.

use vstd::prelude::*;

use crate::constants::BUFFER_LEN;

verus! {

/// Which of the two buffers a state refers to.
#[derive(Clone, Copy, Debug, PartialEq, Eq, Structural)]
pub enum DoubleBufferName {
    BufferA,
    BufferB,
}

impl DoubleBufferName {
    /// The other buffer.
    pub fn next(&self) -> (r: DoubleBufferName)
        ensures
            r == self.spec_next(),
    {
        match self {
            DoubleBufferName::BufferA => DoubleBufferName::BufferB,
            DoubleBufferName::BufferB => DoubleBufferName::BufferA,
        }
    }

    /// The other buffer.
    pub open spec fn spec_next(self) -> DoubleBufferName {
        match self {
            DoubleBufferName::BufferA => DoubleBufferName::BufferB,
            DoubleBufferName::BufferB => DoubleBufferName::BufferA,
        }
    }
}

/// The double-buffered handoff between the scheduler and the audio device.
pub struct AudioOutput {
    pub index: usize,
    pub now_reading: DoubleBufferName,
    pub can_write: bool,
    pub out_of_samples: bool,
    pub buffer_a: Vec<i64>,
    pub buffer_b: Vec<i64>,
}

/// The mathematical value of the handoff state.
#[verifier::ext_equal]
pub struct AudioOutputView {
    pub index: usize,
    pub now_reading: DoubleBufferName,
    pub can_write: bool,
    pub out_of_samples: bool,
    pub buffer_a: Seq<i64>,
    pub buffer_b: Seq<i64>,
}

impl View for AudioOutput {
    type V = AudioOutputView;

    open spec fn view(&self) -> AudioOutputView {
        AudioOutputView {
            index: self.index,
            now_reading: self.now_reading,
            can_write: self.can_write,
            out_of_samples: self.out_of_samples,
            buffer_a: self.buffer_a@,
            buffer_b: self.buffer_b@,
        }
    }
}

impl AudioOutputView {
    /// The contents of the named buffer.
    pub open spec fn buf(self, name: DoubleBufferName) -> Seq<i64> {
        match name {
            DoubleBufferName::BufferA => self.buffer_a,
            DoubleBufferName::BufferB => self.buffer_b,
        }
    }

    /// The buffer the device is reading.
    pub open spec fn reading(self) -> Seq<i64> {
        self.buf(self.now_reading)
    }

    /// Both buffers hold one block and the read index is inside it.
    pub open spec fn wf(self) -> bool {
        &&& self.buffer_a.len() == BUFFER_LEN
        &&& self.buffer_b.len() == BUFFER_LEN
        &&& self.index < BUFFER_LEN
    }

    /// The state after a writer handed over `data`: the buffer the reader is
    /// not holding is overwritten, and the handoff is marked full.
    pub open spec fn written(self, data: Seq<i64>) -> AudioOutputView {
        let target = self.now_reading.spec_next();
        AudioOutputView {
            out_of_samples: false,
            can_write: false,
            buffer_a: if target is BufferA {
                data
            } else {
                self.buffer_a
            },
            buffer_b: if target is BufferB {
                data
            } else {
                self.buffer_b
            },
            ..self
        }
    }

    /// One reader step: the sample it returns and the state it leaves.
    pub open spec fn read_step(self) -> (AudioOutputView, i64) {
        if self.out_of_samples {
            (self, 0)
        } else {
            let s = self.reading()[self.index as int];
            if self.index + 1 < BUFFER_LEN {
                (AudioOutputView { index: (self.index + 1) as usize, ..self }, s)
            } else {
                if self.can_write {
                    (AudioOutputView { index: 0, out_of_samples: true, ..self }, s)
                } else {
                    (
                        AudioOutputView {
                            index: 0,
                            now_reading: self.now_reading.spec_next(),
                            can_write: true,
                            ..self
                        },
                        s,
                    )
                }
            }
        }
    }
}

/// The state and samples after `k` reader steps.
pub open spec fn run_reads(v: AudioOutputView, k: nat) -> (AudioOutputView, Seq<i64>)
    decreases k,
{
    if k == 0 {
        (v, Seq::empty())
    } else {
        let (v1, s) = v.read_step();
        let (v2, rest) = run_reads(v1, (k - 1) as nat);
        (v2, seq![s] + rest)
    }
}

impl AudioOutput {
    /// A fresh handoff: silent buffers, nothing to read, ready for a writer.
    pub fn new() -> (r: AudioOutput)
        ensures
            r@.index == 0,
            r@.now_reading == DoubleBufferName::BufferB,
            r@.can_write,
            r@.out_of_samples,
            r@.buffer_a == Seq::new(BUFFER_LEN as nat, |i: int| 0i64),
            r@.buffer_b == Seq::new(BUFFER_LEN as nat, |i: int| 0i64),
            r@.wf(),
    {
        let mut a: Vec<i64> = Vec::new();
        while a.len() < BUFFER_LEN
            invariant
                a@.len() <= BUFFER_LEN,
                forall|i: int| 0 <= i < a@.len() ==> a@[i] == 0i64,
            decreases BUFFER_LEN - a@.len(),
        {
            a.push(0);
        }
        let mut b: Vec<i64> = Vec::new();
        while b.len() < BUFFER_LEN
            invariant
                b@.len() <= BUFFER_LEN,
                forall|i: int| 0 <= i < b@.len() ==> b@[i] == 0i64,
            decreases BUFFER_LEN - b@.len(),
        {
            b.push(0);
        }
        proof {
            assert(a@ =~= Seq::new(BUFFER_LEN as nat, |i: int| 0i64));
            assert(b@ =~= Seq::new(BUFFER_LEN as nat, |i: int| 0i64));
        }
        AudioOutput {
            index: 0,
            now_reading: DoubleBufferName::BufferB,
            can_write: true,
            out_of_samples: true,
            buffer_a: a,
            buffer_b: b,
        }
    }

    /// Whether the writer may hand over a block now.  The threaded shell
    /// waits on this before calling [`AudioOutput::write`].
    pub fn can_write(&self) -> (r: bool)
        ensures
            r == self@.can_write,
    {
        self.can_write
    }

    /// Hand a freshly produced block to the reader side: overwrite the
    /// buffer the reader is not holding and mark the handoff full.
    pub fn write(&mut self, data: &Vec<i64>)
        requires
            old(self)@.can_write,
            data@.len() == BUFFER_LEN,
        ensures
            final(self)@ == old(self)@.written(data@),
    {
        let target = self.now_reading.next();
        self.out_of_samples = false;
        self.can_write = false;
        let mut copy: Vec<i64> = Vec::new();
        let mut i: usize = 0;
        while i < data.len()
            invariant
                i <= data@.len(),
                copy@ == data@.subrange(0, i as int),
            decreases data@.len() - i,
        {
            copy.push(data[i]);
            proof {
                assert(copy@ =~= data@.subrange(0, i + 1));
            }
            i = i + 1;
        }
        proof {
            assert(copy@ =~= data@);
        }
        match target {
            DoubleBufferName::BufferA => {
                self.buffer_a = copy;
            },
            DoubleBufferName::BufferB => {
                self.buffer_b = copy;
            },
        }
        proof {
            assert(self@ =~= old(self)@.written(data@));
        }
    }

    /// One reader step: the next sample of the block being read, or silence
    /// while the handoff is empty.  Crossing the end of the block either
    /// swaps to the freshly written buffer or, if the writer has not caught
    /// up, marks the handoff empty.
    pub fn next_sample(&mut self) -> (s: i64)
        requires
            old(self)@.wf(),
        ensures
            final(self)@.wf(),
            (final(self)@, s) == old(self)@.read_step(),
    {
        if self.out_of_samples {
            return 0;
        }
        let s = match self.now_reading {
            DoubleBufferName::BufferA => self.buffer_a[self.index],
            DoubleBufferName::BufferB => self.buffer_b[self.index],
        };
        self.index = self.index + 1;
        if self.index >= BUFFER_LEN {
            self.index = 0;
            if self.can_write {
                self.out_of_samples = true;
            } else {
                self.now_reading = self.now_reading.next();
                self.can_write = true;
            }
        }
        s
    }
}

/// While a block is being read, the reader walks it in order without
/// repeating a slot: reading to the end of the current block yields exactly
/// its remaining samples, and leaves the reader at the start of the next
/// block — swapped to the writer's buffer if one was handed over, and empty
/// otherwise.
pub proof fn lemma_reader_drains_block(v: AudioOutputView)
    requires
        v.wf(),
        !v.out_of_samples,
    ensures
        ({
            let (w, samples) = run_reads(v, (BUFFER_LEN - v.index) as nat);
            &&& samples == v.reading().subrange(v.index as int, BUFFER_LEN as int)
            &&& w.index == 0
            &&& w.buffer_a == v.buffer_a
            &&& w.buffer_b == v.buffer_b
            &&& (if v.can_write {
                w.now_reading == v.now_reading && w.can_write && w.out_of_samples
            } else {
                w.now_reading == v.now_reading.spec_next() && w.can_write && !w.out_of_samples
            })
        }),
    decreases BUFFER_LEN - v.index,
{
    let (v1, s) = v.read_step();
    if v.index + 1 < BUFFER_LEN {
        lemma_reader_drains_block(v1);
        let (w, rest) = run_reads(v1, (BUFFER_LEN - v1.index) as nat);
        assert(seq![s] + rest =~= v.reading().subrange(v.index as int, BUFFER_LEN as int));
    } else {
        let (w, rest) = run_reads(v1, 0);
        assert(rest =~= Seq::<i64>::empty());
        assert(seq![s] + rest =~= v.reading().subrange(v.index as int, BUFFER_LEN as int));
    }
}

/// The full handoff round: from a drained, writable state, handing over a
/// block and letting the reader walk one block forward plays that block
/// exactly once, sample by sample in order; a further block of reads without
/// another write plays silence.
pub proof fn lemma_write_then_read_block(v: AudioOutputView, data: Seq<i64>)
    requires
        v.wf(),
        v.can_write,
        v.index == 0,
        !v.out_of_samples,
        data.len() == BUFFER_LEN,
    ensures
        ({
            let w = v.written(data);
            let (after_old, first) = run_reads(w, BUFFER_LEN as nat);
            let (after_new, second) = run_reads(after_old, BUFFER_LEN as nat);
            let (after_dry, third) = run_reads(after_new, 1);
            &&& first == v.reading()
            &&& second == data
            &&& after_new.can_write
            &&& after_new.out_of_samples
            &&& third == seq![0i64]
            &&& after_dry == after_new
        }),
{
    let w = v.written(data);
    lemma_reader_drains_block(w);
    let (after_old, first) = run_reads(w, BUFFER_LEN as nat);
    assert(first =~= w.reading().subrange(0, BUFFER_LEN as int));
    assert(first =~= v.reading());
    lemma_reader_drains_block(after_old);
    let (after_new, second) = run_reads(after_old, BUFFER_LEN as nat);
    assert(after_old.reading() =~= data);
    assert(second =~= data);
    let (step_state, step_sample) = after_new.read_step();
    assert(step_state == after_new && step_sample == 0i64);
    assert(run_reads(step_state, 0) == (step_state, Seq::<i64>::empty()));
    let (after_dry, third) = run_reads(after_new, 1);
    assert(third =~= seq![0i64]);
}

} // verus!
