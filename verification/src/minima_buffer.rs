//! The decaying minimum envelope: converts a sample stream into one
//! scalar minimum per time slice, stored in a circular buffer. A slice
//! minimum below the previous committed value is committed directly
//! (fast attack); a higher one is blended exponentially with the
//! previous value (slow release), so the display falls back gradually
//! and never jumps upward at once.

use vstd::prelude::*;
use crate::ring_buffer::{RingBuffer, ring_push};
use crate::samples::{
    abs_val, abs_slice, acc_min, blend, block_ok, lemma_acc_min_abs_range, lemma_acc_push,
    lemma_blend_range, lemma_release_blend, sample_in_range, selected, downmix_frame, frame_count,
    AMP_LIMIT, DEN_LIMIT, DURATION_LIMIT, RATE_LIMIT, SIZE_LIMIT, TIMER_LIMIT, WEIGHT_ONE,
};

verus! {

/// The abstract state of a decaying minimum envelope: the committed
/// values (chronological), the buffer capacity, the magnitudes of the
/// slice in flight, the slice timing (as in the waveform downsampler),
/// and the decay weight `w` (a fixed-point fraction of `WEIGHT_ONE`).
pub struct MinAbs {
    pub values: Seq<i64>,
    pub cap: nat,
    pub pending: Seq<i64>,
    pub t: int,
    pub num: int,
    pub den: int,
    pub w: int,
    pub rate: int,
    pub duration: int,
}

/// A well-formed abstract state: timing within machine bounds, the
/// in-flight slice made of magnitudes, committed values in
/// `[0, AMP_LIMIT]`, and a decay weight in `[0, 1)`.
pub open spec fn min_abs_wf(s: MinAbs) -> bool {
    &&& 1 <= s.cap <= SIZE_LIMIT
    &&& abs_slice(s.pending)
    &&& forall|i: int| 0 <= i < s.values.len() ==> 0 <= #[trigger] s.values[i] <= AMP_LIMIT
    &&& 1 <= s.den <= DEN_LIMIT
    &&& s.den <= s.num <= TIMER_LIMIT
    &&& 0 <= s.t <= TIMER_LIMIT
    &&& 0 <= s.w < WEIGHT_ONE
    &&& 0 <= s.rate <= RATE_LIMIT
    &&& 1 <= s.duration <= DURATION_LIMIT
    &&& s.rate >= 1 ==> s.num == s.rate * s.duration && s.den == 1000 * s.cap
}

/// The value a closing slice commits: the slice minimum directly when
/// it undercuts the previous committed value, else the exponential
/// blend of the previous value and the slice minimum. An empty buffer
/// plays a previous value of 0, the fill value.
pub open spec fn min_commit(s: MinAbs) -> int {
    let prev = if s.values.len() > 0 {
        s.values.last() as int
    } else {
        0
    };
    let m = acc_min(s.pending);
    if m <= prev {
        m
    } else {
        blend(prev, m, s.w)
    }
}

/// Ingesting one sample: its magnitude is taken; the timer steps down
/// by one sample; when it would cross below zero the in-flight slice
/// commits first and a fresh slice starts; the magnitude is then
/// folded into the in-flight slice.
pub open spec fn min_step(s: MinAbs, v: i64) -> MinAbs {
    let a = abs_val(v);
    if s.t >= s.den {
        MinAbs { pending: s.pending.push(a), t: s.t - s.den, ..s }
    } else {
        MinAbs {
            values: ring_push(s.values, s.cap, min_commit(s) as i64),
            pending: seq![a],
            t: s.t - s.den + s.num,
            ..s
        }
    }
}

/// Ingesting a whole sequence of samples, oldest first.
pub open spec fn min_steps(s: MinAbs, vs: Seq<i64>) -> MinAbs
    decreases vs.len(),
{
    if vs.len() == 0 {
        s
    } else {
        min_step(min_steps(s, vs.drop_last()), vs.last())
    }
}

/// The state after a resize: the values are dropped — also when the
/// capacity already matches, a resize clears the summarized data —
/// the slice length is derived anew, and the timer restarts at one
/// full slice.
pub open spec fn min_resized(s: MinAbs, m: nat) -> MinAbs {
    let num = if s.rate >= 1 {
        s.rate * s.duration
    } else {
        s.num
    };
    MinAbs {
        values: Seq::<i64>::empty(),
        cap: m,
        num: num,
        den: if s.rate >= 1 {
            1000 * (m as int)
        } else {
            s.den
        },
        t: num,
        ..s
    }
}

/// The committed value lies in `[0, AMP_LIMIT]`.
pub proof fn lemma_min_commit_range(s: MinAbs)
    requires
        min_abs_wf(s),
    ensures
        0 <= min_commit(s) <= AMP_LIMIT,
{
    lemma_acc_min_abs_range(s.pending);
    let prev = if s.values.len() > 0 {
        s.values.last() as int
    } else {
        0
    };
    if s.values.len() > 0 {
        assert(0 <= s.values[s.values.len() - 1] <= AMP_LIMIT);
    }
    if acc_min(s.pending) > prev {
        lemma_blend_range(prev, acc_min(s.pending), s.w);
    }
}

/// Ingesting one sample preserves well-formedness of the abstract state.
pub proof fn lemma_min_step_wf(s: MinAbs, v: i64)
    requires
        min_abs_wf(s),
        sample_in_range(v),
    ensures
        min_abs_wf(min_step(s, v)),
{
    let a = abs_val(v);
    assert(0 <= a < AMP_LIMIT);
    if s.t >= s.den {
        assert forall|i: int| 0 <= i < s.pending.push(a).len() implies 0 <= #[trigger] s.pending.push(
            a,
        )[i] < AMP_LIMIT by {
            if i < s.pending.len() {
                assert(s.pending.push(a)[i] == s.pending[i]);
            }
        }
    } else {
        lemma_min_commit_range(s);
        let r = min_step(s, v);
        assert(seq![a].len() == 1 && seq![a][0] == a);
        let c = min_commit(s) as i64;
        assert forall|i: int| 0 <= i < r.values.len() implies 0 <= #[trigger] r.values[i]
            <= AMP_LIMIT by {
            if s.values.len() < s.cap {
                if i < s.values.len() {
                    assert(r.values[i] == s.values[i]);
                }
            } else {
                if i < r.values.len() - 1 {
                    assert(r.values[i] == s.values[i + 1]);
                }
            }
        }
    }
}

/// The release law: when a slice whose minimum `m2` exceeds the
/// previous committed value `m1` closes, the newly committed value
/// lies strictly between `m1` and `m2`. The weight must not be zero
/// (else the commit lands on `m2` itself) and the gap must be wide
/// enough for the fixed-point release step to round to at least one:
/// `(m2 - m1) * (WEIGHT_ONE - w) >= WEIGHT_ONE`.
pub proof fn lemma_release_commit(s: MinAbs, v: i64)
    requires
        min_abs_wf(s),
        s.t < s.den,
        s.values.len() > 0,
        1 <= s.w,
        acc_min(s.pending) > s.values.last(),
        (acc_min(s.pending) - s.values.last()) * (WEIGHT_ONE - s.w) >= WEIGHT_ONE,
    ensures
        min_step(s, v).values.len() > 0,
        s.values.last() < min_step(s, v).values.last() < acc_min(s.pending),
{
    lemma_acc_min_abs_range(s.pending);
    assert(0 <= s.values[s.values.len() - 1] <= AMP_LIMIT);
    lemma_release_blend(s.values.last() as int, acc_min(s.pending), s.w);
}

/// Resizing to `m` and then to the same `m` again leaves an empty
/// buffer of capacity `m`, matching a freshly constructed envelope of
/// capacity `m` — for any starting state and any `m`.
pub proof fn lemma_min_resize_idempotent(s: MinAbs, m: nat)
    ensures
        min_resized(min_resized(s, m), m) == min_resized(s, m),
        min_resized(s, m).values == Seq::<i64>::empty(),
        min_resized(s, m).cap == m,
{
}

/// Streaming minimum envelope: a circular buffer of per-slice minima
/// with exponential release, fed one sample or one block at a time.
pub struct MinimaBuffer {
    buffer: RingBuffer<i64>,
    min_acc: i64,
    delta_num: i64,
    delta_den: i64,
    t: i64,
    sample_rate: i64,
    duration_ms: i64,
    decay_weight: u64,
    pending: Ghost<Seq<i64>>,
}

impl View for MinimaBuffer {
    type V = MinAbs;

    closed spec fn view(&self) -> MinAbs {
        MinAbs {
            values: self.buffer@,
            cap: self.buffer.cap(),
            pending: self.pending@,
            t: self.t as int,
            num: self.delta_num as int,
            den: self.delta_den as int,
            w: self.decay_weight as int,
            rate: self.sample_rate as int,
            duration: self.duration_ms as int,
        }
    }
}

/// Computes the exponential release blend in fixed point.
fn blend_exec(prev: i64, cur: i64, w: u64) -> (r: i64)
    requires
        0 <= prev <= AMP_LIMIT,
        0 <= cur <= AMP_LIMIT,
        w < WEIGHT_ONE,
    ensures
        r as int == blend(prev as int, cur as int, w as int),
        0 <= r <= AMP_LIMIT,
{
    proof {
        lemma_blend_range(prev as int, cur as int, w as int);
        assert((prev as int) * (w as int) + (cur as int) * (WEIGHT_ONE - w) as int
            <= 0x1_0000_0000 * 65536 + 0x1_0000_0000 * 65536) by (nonlinear_arith)
            requires
                0 <= prev <= 0x1_0000_0000,
                0 <= cur <= 0x1_0000_0000,
                0 <= w < 65536,
                WEIGHT_ONE == 65536,
        ;
    }
    let num: u64 = (prev as u64) * w + (cur as u64) * (WEIGHT_ONE - w);
    let q: u64 = num / WEIGHT_ONE;
    q as i64
}

impl MinimaBuffer {
    pub closed spec fn wf(self) -> bool {
        &&& self.buffer.wf()
        &&& self.buffer.fill_value() == 0i64
        &&& min_abs_wf(self@)
        &&& self.min_acc as int == acc_min(self.pending@)
    }

    /// Constructs an envelope with `size` slices covering
    /// `duration_ms` milliseconds of signal, with the given decay
    /// weight. The slice length stays a placeholder single sample
    /// until a sample rate is provided.
    pub fn new(size: usize, duration_ms: i64, decay_weight: u64) -> (buf: Self)
        requires
            1 <= size <= SIZE_LIMIT,
            1 <= duration_ms <= DURATION_LIMIT,
            decay_weight < WEIGHT_ONE,
        ensures
            buf.wf(),
            buf@.values == Seq::<i64>::empty(),
            buf@.cap == size,
            buf@.pending == Seq::<i64>::empty(),
            buf@.t == 0,
            buf@.num == 1,
            buf@.den == 1,
            buf@.w == decay_weight,
            buf@.rate == 0,
            buf@.duration == duration_ms,
    {
        let buf = MinimaBuffer {
            buffer: RingBuffer::new(size, 0i64),
            min_acc: AMP_LIMIT,
            delta_num: 1,
            delta_den: 1,
            t: 0,
            sample_rate: 0,
            duration_ms,
            decay_weight,
            pending: Ghost(Seq::empty()),
        };
        proof {
            assert(acc_min(Seq::<i64>::empty()) == AMP_LIMIT as int);
        }
        buf
    }

    /// Sets the decay weight: the fixed-point factor (per slice) that
    /// weighs the previous committed value into a rising commit. The
    /// slice length is derived anew, the timer restarts at one full
    /// slice, and the committed values are cleared: summaries gathered
    /// under another decay are stale.
    pub fn set_decay(&mut self, decay_weight: u64)
        requires
            old(self).wf(),
            decay_weight < WEIGHT_ONE,
        ensures
            final(self).wf(),
            final(self)@ == (MinAbs {
                values: Seq::new(old(self)@.values.len(), |i: int| 0i64),
                w: decay_weight as int,
                num: if old(self)@.rate >= 1 {
                    old(self)@.rate * old(self)@.duration
                } else {
                    old(self)@.num
                },
                den: if old(self)@.rate >= 1 {
                    1000 * (old(self)@.cap as int)
                } else {
                    old(self)@.den
                },
                t: if old(self)@.rate >= 1 {
                    old(self)@.rate * old(self)@.duration
                } else {
                    old(self)@.num
                },
                ..old(self)@
            }),
    {
        self.decay_weight = decay_weight;
        if self.sample_rate >= 1 {
            proof {
                assert(self.sample_rate as int * self.duration_ms as int == old(self)@.num);
            }
            self.delta_num = self.sample_rate * self.duration_ms;
            let cap = self.buffer.capacity();
            self.delta_den = 1000 * (cap as i64);
        }
        self.t = self.delta_num;
        self.buffer.clear();
    }

    /// Sets the sample rate of the incoming audio, derives the slice
    /// length, restarts the timer at one full slice, and clears the
    /// committed values.
    pub fn set_sample_rate(&mut self, sample_rate: i64)
        requires
            old(self).wf(),
            1 <= sample_rate <= RATE_LIMIT,
            sample_rate * old(self)@.duration >= 1000 * old(self)@.cap,
        ensures
            final(self).wf(),
            final(self)@ == (MinAbs {
                values: Seq::new(old(self)@.values.len(), |i: int| 0i64),
                num: sample_rate * old(self)@.duration,
                den: 1000 * (old(self)@.cap as int),
                t: sample_rate * old(self)@.duration,
                rate: sample_rate as int,
                ..old(self)@
            }),
    {
        proof {
            assert(sample_rate as int * self.duration_ms as int <= TIMER_LIMIT) by (nonlinear_arith)
                requires
                    1 <= sample_rate <= 1048576,
                    1 <= self.duration_ms <= 1048576,
                    TIMER_LIMIT == 1099511627776,
            ;
        }
        self.sample_rate = sample_rate;
        self.delta_num = sample_rate * self.duration_ms;
        let cap = self.buffer.capacity();
        self.delta_den = 1000 * (cap as i64);
        self.t = self.delta_num;
        self.buffer.clear();
    }

    /// Sets the duration (in milliseconds) the whole buffer spans,
    /// derives the slice length once a sample rate is known, restarts
    /// the timer, and clears the committed values.
    pub fn set_duration(&mut self, duration_ms: i64)
        requires
            old(self).wf(),
            1 <= duration_ms <= DURATION_LIMIT,
            old(self)@.rate >= 1 ==> old(self)@.rate * duration_ms >= 1000 * old(self)@.cap,
        ensures
            final(self).wf(),
            final(self)@ == (MinAbs {
                values: Seq::new(old(self)@.values.len(), |i: int| 0i64),
                num: if old(self)@.rate >= 1 {
                    old(self)@.rate * duration_ms
                } else {
                    old(self)@.num
                },
                den: if old(self)@.rate >= 1 {
                    1000 * (old(self)@.cap as int)
                } else {
                    old(self)@.den
                },
                t: if old(self)@.rate >= 1 {
                    old(self)@.rate * duration_ms
                } else {
                    old(self)@.num
                },
                duration: duration_ms as int,
                ..old(self)@
            }),
    {
        self.duration_ms = duration_ms;
        if self.sample_rate >= 1 {
            proof {
                assert(self.sample_rate as int * duration_ms as int <= TIMER_LIMIT)
                    by (nonlinear_arith)
                    requires
                        1 <= self.sample_rate <= 1048576,
                        1 <= duration_ms <= 1048576,
                        TIMER_LIMIT == 1099511627776,
                ;
            }
            self.delta_num = self.sample_rate * duration_ms;
            let cap = self.buffer.capacity();
            self.delta_den = 1000 * (cap as i64);
        }
        self.t = self.delta_num;
        self.buffer.clear();
    }

    /// Ingests one sample: takes its magnitude, advances the slice
    /// timer (committing the in-flight minimum first whenever the
    /// sample opens a new slice), then folds the magnitude into the
    /// minimum accumulator.
    pub fn enqueue(&mut self, value: i64)
        requires
            old(self).wf(),
            sample_in_range(value),
        ensures
            final(self).wf(),
            final(self)@ == min_step(old(self)@, value),
    {
        proof {
            lemma_min_step_wf(old(self)@, value);
        }
        let a = if value < 0 {
            -value
        } else {
            value
        };
        self.t = self.t - self.delta_den;
        if self.t < 0 {
            proof {
                lemma_min_commit_range(old(self)@);
                lemma_acc_min_abs_range(self.pending@);
                if self.buffer@.len() > 0 {
                    assert(0 <= self.buffer@[self.buffer@.len() - 1] <= AMP_LIMIT);
                }
            }
            let last_peak = self.buffer.peek();
            let peak = self.min_acc;
            let committed = if peak <= last_peak {
                peak
            } else {
                blend_exec(last_peak, peak, self.decay_weight)
            };
            self.buffer.enqueue(committed);
            self.t = self.t + self.delta_num;
            self.min_acc = AMP_LIMIT;
            proof {
                self.pending@ = Seq::<i64>::empty();
                assert(acc_min(Seq::<i64>::empty()) == AMP_LIMIT as int);
            }
        }
        proof {
            lemma_acc_push(self.pending@, a);
            self.pending@ = self.pending@.push(a);
        }
        if a < self.min_acc {
            self.min_acc = a;
        }
        proof {
            if old(self).t >= old(self).delta_den {
                assert(self@.pending =~= min_step(old(self)@, value).pending);
            } else {
                assert(Seq::<i64>::empty().push(a) =~= seq![abs_val(value)]);
                assert(self@.pending =~= min_step(old(self)@, value).pending);
            }
        }
    }

    /// Ingests a block of multi-channel samples: the selected channel
    /// sample by sample, or, with no channel selected, the mean
    /// downmix of every frame.
    pub fn enqueue_buffer(&mut self, block: &Vec<Vec<i64>>, channel: Option<usize>)
        requires
            old(self).wf(),
            block_ok(block.deep_view(), channel),
        ensures
            final(self).wf(),
            final(self)@ == min_steps(old(self)@, selected(block.deep_view(), channel)),
    {
        let ghost bv = block.deep_view();
        let ghost vs = selected(bv, channel);
        match channel {
            Some(ch) => {
                proof {
                    assert(bv[ch as int] == block@[ch as int].deep_view());
                }
                let n = block[ch].len();
                let mut i: usize = 0;
                while i < n
                    invariant
                        self.wf(),
                        block_ok(bv, Some(ch)),
                        bv == block.deep_view(),
                        vs == selected(bv, Some(ch)),
                        ch < block.len(),
                        n == vs.len(),
                        bv[ch as int] == block@[ch as int].deep_view(),
                        0 <= i <= n,
                        self@ == min_steps(old(self)@, vs.take(i as int)),
                    decreases n - i,
                {
                    proof {
                        assert(bv[ch as int][i as int] == block@[ch as int]@[i as int]);
                        assert(sample_in_range(bv[ch as int][i as int]));
                    }
                    let x = block[ch][i];
                    assert(x == vs[i as int]);
                    self.enqueue(x);
                    proof {
                        assert(vs.take(i + 1).drop_last() =~= vs.take(i as int));
                        assert(vs.take(i + 1).last() == vs[i as int]);
                    }
                    i = i + 1;
                }
                proof {
                    assert(vs.take(n as int) =~= vs);
                }
            },
            None => {
                let n = block[0].len();
                proof {
                    assert(bv[0] == block@[0].deep_view());
                    assert(n == frame_count(bv));
                }
                let mut i: usize = 0;
                while i < n
                    invariant
                        self.wf(),
                        block_ok(bv, None::<usize>),
                        bv == block.deep_view(),
                        vs == selected(bv, None::<usize>),
                        n == vs.len(),
                        n == frame_count(bv),
                        0 <= i <= n,
                        self@ == min_steps(old(self)@, vs.take(i as int)),
                    decreases n - i,
                {
                    let x = downmix_frame(block, i);
                    assert(x == vs[i as int]);
                    self.enqueue(x);
                    proof {
                        assert(vs.take(i + 1).drop_last() =~= vs.take(i as int));
                        assert(vs.take(i + 1).last() == vs[i as int]);
                    }
                    i = i + 1;
                }
                proof {
                    assert(vs.take(n as int) =~= vs);
                }
            },
        }
    }

    /// The number of committed values.
    pub fn len(&self) -> (n: usize)
        ensures
            n == self@.values.len(),
    {
        self.buffer.len()
    }

    /// Resets every committed value to the default 0; the length, the
    /// in-flight slice and the timer are unchanged.
    pub fn clear(&mut self)
        requires
            old(self).wf(),
        ensures
            final(self).wf(),
            final(self)@ == (MinAbs {
                values: Seq::new(old(self)@.values.len(), |i: int| 0i64),
                ..old(self)@
            }),
    {
        self.buffer.clear();
    }

    /// Chronological read of a committed value; index 0 is the oldest.
    pub fn index(&self, index: usize) -> (v: i64)
        requires
            self.wf(),
            index < self@.values.len(),
        ensures
            v == self@.values[index as int],
    {
        self.buffer.index(index)
    }

    /// Chronological write of a committed value.
    pub fn set_index(&mut self, index: usize, value: i64)
        requires
            old(self).wf(),
            index < old(self)@.values.len(),
            0 <= value <= AMP_LIMIT,
        ensures
            final(self).wf(),
            final(self)@ == (MinAbs {
                values: old(self)@.values.update(index as int, value),
                ..old(self)@
            }),
    {
        self.buffer.set_index(index, value);
        proof {
            assert forall|i: int| 0 <= i < self@.values.len() implies 0 <= #[trigger] self@.values[i]
                <= AMP_LIMIT by {
                if i != index {
                    assert(self@.values[i] == old(self)@.values[i]);
                }
            }
        }
    }

    /// Changes the capacity, dropping all committed values — also when
    /// the capacity already matches — deriving the slice length anew
    /// and restarting the timer.
    fn resize(&mut self, size: usize)
        requires
            old(self).wf(),
            1 <= size <= SIZE_LIMIT,
            old(self)@.rate >= 1 ==> old(self)@.rate * old(self)@.duration >= 1000 * size,
        ensures
            final(self).wf(),
            final(self)@ == min_resized(old(self)@, size as nat),
    {
        self.buffer.grow(size);
        if self.sample_rate >= 1 {
            proof {
                assert(self.sample_rate as int * self.duration_ms as int <= TIMER_LIMIT)
                    by (nonlinear_arith)
                    requires
                        1 <= self.sample_rate <= 1048576,
                        1 <= self.duration_ms <= 1048576,
                        TIMER_LIMIT == 1099511627776,
                ;
            }
            self.delta_num = self.sample_rate * self.duration_ms;
            self.delta_den = 1000 * (size as i64);
        }
        self.t = self.delta_num;
    }

    /// Grows the buffer to `size` values, dropping the contents.
    pub fn grow(&mut self, size: usize)
        requires
            old(self).wf(),
            1 <= size <= SIZE_LIMIT,
            old(self)@.rate >= 1 ==> old(self)@.rate * old(self)@.duration >= 1000 * size,
        ensures
            final(self).wf(),
            final(self)@ == min_resized(old(self)@, size as nat),
    {
        self.resize(size);
    }

    /// Shrinks the buffer to `size` values, dropping the contents.
    pub fn shrink(&mut self, size: usize)
        requires
            old(self).wf(),
            1 <= size <= SIZE_LIMIT,
            old(self)@.rate >= 1 ==> old(self)@.rate * old(self)@.duration >= 1000 * size,
        ensures
            final(self).wf(),
            final(self)@ == min_resized(old(self)@, size as nat),
    {
        self.resize(size);
    }

    /// The committed values, oldest first, as one vector.
    pub fn to_vec(&self) -> (out: Vec<i64>)
        requires
            self.wf(),
        ensures
            out@ == self@.values,
    {
        self.buffer.to_vec()
    }
}

} // verus!
