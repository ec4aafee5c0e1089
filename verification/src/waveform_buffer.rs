//! The waveform downsampler: converts a sample stream into one
//! `(local minimum, local maximum)` pair per fixed-duration time slice,
//! stored in a circular buffer. Each committed pair reflects the true
//! minimum and maximum of all raw samples seen during that slice.

use vstd::prelude::*;
use crate::ring_buffer::{RingBuffer, ring_push};
use crate::samples::{
    acc_min, acc_max, block_ok, lemma_acc_constant, lemma_acc_min_range, lemma_acc_max_range,
    lemma_acc_push, sample_in_range, selected, slice_in_range, downmix_frame, frame_count,
    AMP_LIMIT, DEN_LIMIT, DURATION_LIMIT, RATE_LIMIT, SIZE_LIMIT, TIMER_LIMIT,
};

verus! {

/// The abstract state of a waveform downsampler: the committed slices
/// (chronological, each a `(min, max)` pair), the buffer capacity, the
/// samples of the slice in flight, and the slice timing. The timer `t`
/// counts down in units of `1/den` samples; a slice spans `num/den`
/// samples (`sample rate * duration / capacity`, held exactly as a
/// rational).
pub struct WaveAbs {
    pub slices: Seq<(i64, i64)>,
    pub cap: nat,
    pub pending: Seq<i64>,
    pub t: int,
    pub num: int,
    pub den: int,
    pub rate: int,
    pub duration: int,
}

/// A well-formed abstract state: timing within machine bounds and the
/// pending slice made of in-range samples.
pub open spec fn wave_abs_wf(s: WaveAbs) -> bool {
    &&& 1 <= s.cap <= SIZE_LIMIT
    &&& slice_in_range(s.pending)
    &&& 1 <= s.den <= DEN_LIMIT
    &&& s.den <= s.num <= TIMER_LIMIT
    &&& 0 <= s.t <= TIMER_LIMIT
    &&& 0 <= s.rate <= RATE_LIMIT
    &&& 1 <= s.duration <= DURATION_LIMIT
    &&& s.rate >= 1 ==> s.num == s.rate * s.duration && s.den == 1000 * s.cap
}

/// Ingesting one sample: the timer steps down by one sample (`den`
/// units); when it would cross below zero the accumulated
/// `(min, max)` pair of the in-flight slice is committed, the timer is
/// re-armed by one slice length (`num` units), and a fresh slice
/// starts. The sample itself is then folded into the in-flight slice.
pub open spec fn wave_step(s: WaveAbs, v: i64) -> WaveAbs {
    if s.t >= s.den {
        WaveAbs { pending: s.pending.push(v), t: s.t - s.den, ..s }
    } else {
        WaveAbs {
            slices: ring_push(
                s.slices,
                s.cap,
                (acc_min(s.pending) as i64, acc_max(s.pending) as i64),
            ),
            pending: seq![v],
            t: s.t - s.den + s.num,
            ..s
        }
    }
}

/// Ingesting a whole sequence of samples, oldest first.
pub open spec fn wave_steps(s: WaveAbs, vs: Seq<i64>) -> WaveAbs
    decreases vs.len(),
{
    if vs.len() == 0 {
        s
    } else {
        wave_step(wave_steps(s, vs.drop_last()), vs.last())
    }
}

/// The state after a resize: the slices are dropped — also when the
/// capacity already matches, a resize clears the summarized data —
/// and the slice length is derived anew from the stored rate and
/// duration.
pub open spec fn wave_resized(s: WaveAbs, m: nat) -> WaveAbs {
    WaveAbs {
        slices: Seq::<(i64, i64)>::empty(),
        cap: m,
        num: if s.rate >= 1 {
            s.rate * s.duration
        } else {
            s.num
        },
        den: if s.rate >= 1 {
            1000 * (m as int)
        } else {
            s.den
        },
        ..s
    }
}

/// Ingesting one sample preserves well-formedness of the abstract state.
pub proof fn lemma_wave_step_wf(s: WaveAbs, v: i64)
    requires
        wave_abs_wf(s),
        sample_in_range(v),
    ensures
        wave_abs_wf(wave_step(s, v)),
{
    if s.t >= s.den {
        assert forall|i: int| 0 <= i < s.pending.push(v).len() implies sample_in_range(
            #[trigger] s.pending.push(v)[i],
        ) by {
            if i < s.pending.len() {
                assert(s.pending.push(v)[i] == s.pending[i]);
            }
        }
    } else {
        assert(seq![v].len() == 1 && seq![v][0] == v);
    }
}

/// A constant input signal sustained for a whole slice commits the
/// pair `(v, v)`: when the sample `x` closes a slice whose samples all
/// equal `v`, the newest committed slice is `(v, v)`.
pub proof fn lemma_constant_slice_commit(s: WaveAbs, x: i64, v: i64)
    requires
        wave_abs_wf(s),
        s.t < s.den,
        s.pending.len() > 0,
        sample_in_range(v),
        forall|i: int| 0 <= i < s.pending.len() ==> s.pending[i] == v,
    ensures
        wave_step(s, x).slices.len() > 0,
        wave_step(s, x).slices.last() == (v, v),
{
    lemma_acc_constant(s.pending, v);
}

/// Resizing to `m` and then resizing to the same `m` again leaves an
/// empty buffer of capacity `m`, exactly as a freshly constructed
/// downsampler of capacity `m` holds (`WaveformBuffer::new` ensures
/// the same empty contents) — for any starting state and any `m`.
pub proof fn lemma_wave_resize_idempotent(s: WaveAbs, m: nat)
    ensures
        wave_resized(wave_resized(s, m), m) == wave_resized(s, m),
        wave_resized(s, m).slices == Seq::<(i64, i64)>::empty(),
        wave_resized(s, m).cap == m,
{
}

/// Streaming waveform summary: a circular buffer of `(min, max)`
/// pairs, one per time slice, fed one sample or one block at a time.
pub struct WaveformBuffer {
    buffer: RingBuffer<(i64, i64)>,
    min_acc: i64,
    max_acc: i64,
    delta_num: i64,
    delta_den: i64,
    t: i64,
    sample_rate: i64,
    duration_ms: i64,
    pending: Ghost<Seq<i64>>,
}

impl View for WaveformBuffer {
    type V = WaveAbs;

    closed spec fn view(&self) -> WaveAbs {
        WaveAbs {
            slices: self.buffer@,
            cap: self.buffer.cap(),
            pending: self.pending@,
            t: self.t as int,
            num: self.delta_num as int,
            den: self.delta_den as int,
            rate: self.sample_rate as int,
            duration: self.duration_ms as int,
        }
    }
}

impl WaveformBuffer {
    pub closed spec fn wf(self) -> bool {
        &&& self.buffer.wf()
        &&& self.buffer.fill_value() == (0i64, 0i64)
        &&& wave_abs_wf(self@)
        &&& self.min_acc as int == acc_min(self.pending@)
        &&& self.max_acc as int == acc_max(self.pending@)
    }

    /// Constructs a downsampler with `size` slices covering
    /// `duration_ms` milliseconds of signal. The slice length stays a
    /// placeholder single sample until a sample rate is provided.
    pub fn new(size: usize, duration_ms: i64) -> (buf: Self)
        requires
            1 <= size <= SIZE_LIMIT,
            1 <= duration_ms <= DURATION_LIMIT,
        ensures
            buf.wf(),
            buf@.slices == Seq::<(i64, i64)>::empty(),
            buf@.cap == size,
            buf@.pending == Seq::<i64>::empty(),
            buf@.t == 0,
            buf@.num == 1,
            buf@.den == 1,
            buf@.rate == 0,
            buf@.duration == duration_ms,
    {
        let buf = WaveformBuffer {
            buffer: RingBuffer::new(size, (0i64, 0i64)),
            min_acc: AMP_LIMIT,
            max_acc: -AMP_LIMIT,
            delta_num: 1,
            delta_den: 1,
            t: 0,
            sample_rate: 0,
            duration_ms,
            pending: Ghost(Seq::empty()),
        };
        proof {
            assert(acc_min(Seq::<i64>::empty()) == AMP_LIMIT as int);
            assert(acc_max(Seq::<i64>::empty()) == -AMP_LIMIT as int);
        }
        buf
    }

    /// Sets the sample rate of the incoming audio and derives the
    /// slice length `rate * duration / capacity` (held exactly as the
    /// rational `num/den`). Clears the committed slices; the in-flight
    /// slice and the timer are left as they stand.
    pub fn set_sample_rate(&mut self, sample_rate: i64)
        requires
            old(self).wf(),
            1 <= sample_rate <= RATE_LIMIT,
            sample_rate * old(self)@.duration >= 1000 * old(self)@.cap,
        ensures
            final(self).wf(),
            final(self)@ == (WaveAbs {
                slices: Seq::new(old(self)@.slices.len(), |i: int| (0i64, 0i64)),
                num: sample_rate * old(self)@.duration,
                den: 1000 * (old(self)@.cap as int),
                rate: sample_rate as int,
                ..old(self)@
            }),
    {
        proof {
            assert(sample_rate as int * self.duration_ms as int <= TIMER_LIMIT) by (nonlinear_arith)
                requires
                    1 <= sample_rate <= 1048576,
                    1 <= self.duration_ms <= 1048576,
                    TIMER_LIMIT == 1099511627776,
            ;
        }
        self.sample_rate = sample_rate;
        self.delta_num = sample_rate * self.duration_ms;
        let cap = self.buffer.capacity();
        self.delta_den = 1000 * (cap as i64);
        self.buffer.clear();
    }

    /// Sets the duration (in milliseconds) the whole buffer spans and,
    /// once a sample rate is known, derives the slice length anew.
    /// Clears the committed slices.
    pub fn set_duration(&mut self, duration_ms: i64)
        requires
            old(self).wf(),
            1 <= duration_ms <= DURATION_LIMIT,
            old(self)@.rate >= 1 ==> old(self)@.rate * duration_ms >= 1000 * old(self)@.cap,
        ensures
            final(self).wf(),
            final(self)@ == (WaveAbs {
                slices: Seq::new(old(self)@.slices.len(), |i: int| (0i64, 0i64)),
                num: if old(self)@.rate >= 1 {
                    old(self)@.rate * duration_ms
                } else {
                    old(self)@.num
                },
                den: if old(self)@.rate >= 1 {
                    1000 * (old(self)@.cap as int)
                } else {
                    old(self)@.den
                },
                duration: duration_ms as int,
                ..old(self)@
            }),
    {
        self.duration_ms = duration_ms;
        if self.sample_rate >= 1 {
            proof {
                assert(self.sample_rate as int * duration_ms as int <= TIMER_LIMIT)
                    by (nonlinear_arith)
                    requires
                        1 <= self.sample_rate <= 1048576,
                        1 <= duration_ms <= 1048576,
                        TIMER_LIMIT == 1099511627776,
                ;
            }
            self.delta_num = self.sample_rate * duration_ms;
            let cap = self.buffer.capacity();
            self.delta_den = 1000 * (cap as i64);
        }
        self.buffer.clear();
    }

    /// Ingests one sample: advances the slice timer, committing the
    /// in-flight `(min, max)` pair first whenever the sample opens a
    /// new slice, then folds the sample into the accumulators.
    pub fn enqueue(&mut self, value: i64)
        requires
            old(self).wf(),
            sample_in_range(value),
        ensures
            final(self).wf(),
            final(self)@ == wave_step(old(self)@, value),
    {
        proof {
            lemma_wave_step_wf(old(self)@, value);
        }
        self.t = self.t - self.delta_den;
        if self.t < 0 {
            proof {
                lemma_acc_min_range(self.pending@);
                lemma_acc_max_range(self.pending@);
            }
            let pair = (self.min_acc, self.max_acc);
            self.buffer.enqueue(pair);
            self.t = self.t + self.delta_num;
            self.min_acc = AMP_LIMIT;
            self.max_acc = -AMP_LIMIT;
            proof {
                self.pending@ = Seq::<i64>::empty();
                assert(acc_min(Seq::<i64>::empty()) == AMP_LIMIT as int);
                assert(acc_max(Seq::<i64>::empty()) == -AMP_LIMIT as int);
            }
        }
        proof {
            lemma_acc_push(self.pending@, value);
            self.pending@ = self.pending@.push(value);
        }
        if value < self.min_acc {
            self.min_acc = value;
        }
        if value > self.max_acc {
            self.max_acc = value;
        }
        proof {
            if old(self).t >= old(self).delta_den {
                assert(self@.pending =~= wave_step(old(self)@, value).pending);
            } else {
                assert(Seq::<i64>::empty().push(value) =~= seq![value]);
                assert(self@.pending =~= wave_step(old(self)@, value).pending);
            }
        }
    }

    /// Ingests a block of multi-channel samples: the selected channel
    /// sample by sample, or, with no channel selected, the mean
    /// downmix of every frame.
    pub fn enqueue_buffer(&mut self, block: &Vec<Vec<i64>>, channel: Option<usize>)
        requires
            old(self).wf(),
            block_ok(block.deep_view(), channel),
        ensures
            final(self).wf(),
            final(self)@ == wave_steps(old(self)@, selected(block.deep_view(), channel)),
    {
        let ghost bv = block.deep_view();
        let ghost vs = selected(bv, channel);
        match channel {
            Some(ch) => {
                proof {
                    assert(bv[ch as int] == block@[ch as int].deep_view());
                }
                let n = block[ch].len();
                let mut i: usize = 0;
                while i < n
                    invariant
                        self.wf(),
                        block_ok(bv, Some(ch)),
                        bv == block.deep_view(),
                        vs == selected(bv, Some(ch)),
                        ch < block.len(),
                        n == vs.len(),
                        bv[ch as int] == block@[ch as int].deep_view(),
                        0 <= i <= n,
                        self@ == wave_steps(old(self)@, vs.take(i as int)),
                    decreases n - i,
                {
                    proof {
                        assert(bv[ch as int][i as int] == block@[ch as int]@[i as int]);
                        assert(sample_in_range(bv[ch as int][i as int]));
                    }
                    let x = block[ch][i];
                    assert(x == vs[i as int]);
                    self.enqueue(x);
                    proof {
                        assert(vs.take(i + 1).drop_last() =~= vs.take(i as int));
                        assert(vs.take(i + 1).last() == vs[i as int]);
                    }
                    i = i + 1;
                }
                proof {
                    assert(vs.take(n as int) =~= vs);
                }
            },
            None => {
                let n = block[0].len();
                proof {
                    assert(bv[0] == block@[0].deep_view());
                    assert(n == frame_count(bv));
                }
                let mut i: usize = 0;
                while i < n
                    invariant
                        self.wf(),
                        block_ok(bv, None::<usize>),
                        bv == block.deep_view(),
                        vs == selected(bv, None::<usize>),
                        n == vs.len(),
                        n == frame_count(bv),
                        0 <= i <= n,
                        self@ == wave_steps(old(self)@, vs.take(i as int)),
                    decreases n - i,
                {
                    let x = downmix_frame(block, i);
                    assert(x == vs[i as int]);
                    self.enqueue(x);
                    proof {
                        assert(vs.take(i + 1).drop_last() =~= vs.take(i as int));
                        assert(vs.take(i + 1).last() == vs[i as int]);
                    }
                    i = i + 1;
                }
                proof {
                    assert(vs.take(n as int) =~= vs);
                }
            },
        }
    }

    /// The number of committed slices.
    pub fn len(&self) -> (n: usize)
        ensures
            n == self@.slices.len(),
    {
        self.buffer.len()
    }

    /// Resets every committed slice to the default pair `(0, 0)`; the
    /// length, the in-flight slice and the timer are unchanged.
    pub fn clear(&mut self)
        requires
            old(self).wf(),
        ensures
            final(self).wf(),
            final(self)@ == (WaveAbs {
                slices: Seq::new(old(self)@.slices.len(), |i: int| (0i64, 0i64)),
                ..old(self)@
            }),
    {
        self.buffer.clear();
    }

    /// Chronological read of a committed slice; index 0 is the oldest.
    pub fn index(&self, index: usize) -> (v: (i64, i64))
        requires
            self.wf(),
            index < self@.slices.len(),
        ensures
            v == self@.slices[index as int],
    {
        self.buffer.index(index)
    }

    /// Chronological write of a committed slice.
    pub fn set_index(&mut self, index: usize, value: (i64, i64))
        requires
            old(self).wf(),
            index < old(self)@.slices.len(),
        ensures
            final(self).wf(),
            final(self)@ == (WaveAbs {
                slices: old(self)@.slices.update(index as int, value),
                ..old(self)@
            }),
    {
        self.buffer.set_index(index, value);
    }

    /// Changes the capacity, dropping all committed slices — also when
    /// the capacity already matches — and deriving the slice length
    /// anew.
    fn resize(&mut self, size: usize)
        requires
            old(self).wf(),
            1 <= size <= SIZE_LIMIT,
            old(self)@.rate >= 1 ==> old(self)@.rate * old(self)@.duration >= 1000 * size,
        ensures
            final(self).wf(),
            final(self)@ == wave_resized(old(self)@, size as nat),
    {
        self.buffer.grow(size);
        if self.sample_rate >= 1 {
            proof {
                assert(self.sample_rate as int * self.duration_ms as int <= TIMER_LIMIT)
                    by (nonlinear_arith)
                    requires
                        1 <= self.sample_rate <= 1048576,
                        1 <= self.duration_ms <= 1048576,
                        TIMER_LIMIT == 1099511627776,
                ;
            }
            self.delta_num = self.sample_rate * self.duration_ms;
            self.delta_den = 1000 * (size as i64);
        }
    }

    /// Grows the buffer to `size` slices, dropping the contents.
    pub fn grow(&mut self, size: usize)
        requires
            old(self).wf(),
            1 <= size <= SIZE_LIMIT,
            old(self)@.rate >= 1 ==> old(self)@.rate * old(self)@.duration >= 1000 * size,
        ensures
            final(self).wf(),
            final(self)@ == wave_resized(old(self)@, size as nat),
    {
        self.resize(size);
    }

    /// Shrinks the buffer to `size` slices, dropping the contents.
    pub fn shrink(&mut self, size: usize)
        requires
            old(self).wf(),
            1 <= size <= SIZE_LIMIT,
            old(self)@.rate >= 1 ==> old(self)@.rate * old(self)@.duration >= 1000 * size,
        ensures
            final(self).wf(),
            final(self)@ == wave_resized(old(self)@, size as nat),
    {
        self.resize(size);
    }

    /// The committed slices, oldest first, as one vector.
    pub fn to_vec(&self) -> (out: Vec<(i64, i64)>)
        requires
            self.wf(),
        ensures
            out@ == self@.slices,
    {
        self.buffer.to_vec()
    }
}

} // verus!
