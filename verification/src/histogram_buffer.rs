//! The decaying histogram: converts a sample stream into a fixed
//! number of amplitude bins whose occupancy decays exponentially over
//! time. The bins are separated by strictly increasing edge values
//! (typically spaced evenly in the decibel domain) located by binary
//! search. Digital silence freezes the histogram: zero samples neither
//! decay nor increment any bin.

use vstd::prelude::*;
use crate::samples::{
    abs_val, block_ok, sample_in_range, selected, downmix_frame, BLOCK_LIMIT, SIZE_LIMIT,
    WEIGHT_ONE,
};

verus! {

/// Upper bound of a bin occupancy: `BLOCK_LIMIT * WEIGHT_ONE`. A block
/// of at most `BLOCK_LIMIT` undecayed increments of at most
/// `WEIGHT_ONE` each never carries a bin past this.
pub const BIN_LIMIT: u64 = 4294967296;

/// A strictly increasing sequence of bin edges.
pub open spec fn edges_sorted(edges: Seq<i64>) -> bool {
    forall|i: int, j: int| 0 <= i < j < edges.len() ==> edges[i] < edges[j]
}

/// The bin a magnitude falls into: the number of edges not above it.
/// Values below every edge land in bin 0; values at or above the last
/// edge land in the final bin.
pub open spec fn bin_of(edges: Seq<i64>, v: i64) -> int
    decreases edges.len(),
{
    if edges.len() == 0 {
        0
    } else if edges.last() <= v {
        edges.len() as int
    } else {
        bin_of(edges.drop_last(), v)
    }
}

/// Characterization of `bin_of` over sorted edges: every edge below
/// the bin is at most `v`, every edge at or past it is above `v`.
pub proof fn lemma_bin_of_characterization(edges: Seq<i64>, v: i64)
    requires
        edges_sorted(edges),
    ensures
        0 <= bin_of(edges, v) <= edges.len(),
        forall|i: int| 0 <= i < bin_of(edges, v) ==> edges[i] <= v,
        forall|i: int| bin_of(edges, v) <= i < edges.len() ==> v < edges[i],
    decreases edges.len(),
{
    if edges.len() > 0 {
        assert(edges.last() == edges[edges.len() - 1]);
        if edges.last() <= v {
            assert forall|i: int| 0 <= i < bin_of(edges, v) implies edges[i] <= v by {
                if i < edges.len() - 1 {
                    assert(edges[i] < edges[edges.len() - 1]);
                }
            }
        } else {
            assert(forall|i: int, j: int|
                0 <= i < j < edges.drop_last().len() ==> edges.drop_last()[i]
                    < edges.drop_last()[j]);
            lemma_bin_of_characterization(edges.drop_last(), v);
            let b = bin_of(edges, v);
            assert(b == bin_of(edges.drop_last(), v));
            assert forall|i: int| 0 <= i < b implies edges[i] <= v by {
                assert(edges.drop_last()[i] <= v);
            }
            assert forall|i: int| b <= i < edges.len() implies v < edges[i] by {
                if i < edges.len() - 1 {
                    assert(v < edges.drop_last()[i]);
                }
            }
        }
    }
}

/// Over sorted edges the bin is unique: any index splitting the edges
/// into "at most `v`" and "above `v`" is `bin_of`.
pub proof fn lemma_bin_of_unique(edges: Seq<i64>, v: i64, r: int)
    requires
        edges_sorted(edges),
        0 <= r <= edges.len(),
        forall|i: int| 0 <= i < r ==> edges[i] <= v,
        forall|i: int| r <= i < edges.len() ==> v < edges[i],
    ensures
        r == bin_of(edges, v),
{
    lemma_bin_of_characterization(edges, v);
    let b = bin_of(edges, v);
    if b < r {
        assert(edges[b] <= v);
        assert(v < edges[b]);
    }
    if r < b {
        assert(edges[r] <= v);
        assert(v < edges[r]);
    }
}

/// Locating bins is monotonic: a value at least as large never lands
/// in an earlier bin.
pub proof fn lemma_bin_of_monotonic(edges: Seq<i64>, v1: i64, v2: i64)
    requires
        edges_sorted(edges),
        v1 <= v2,
    ensures
        bin_of(edges, v1) <= bin_of(edges, v2),
{
    lemma_bin_of_characterization(edges, v1);
    lemma_bin_of_characterization(edges, v2);
    let b1 = bin_of(edges, v1);
    let b2 = bin_of(edges, v2);
    if b2 < b1 {
        assert(edges[b2] <= v1);
        assert(v2 < edges[b2]);
    }
}

/// One step of per-sample decay in fixed point: scale by `w`, floor.
pub open spec fn decayed(x: int, w: int) -> int {
    x * w / (WEIGHT_ONE as int)
}

/// The fixed-point power `w^n`, folded exactly as the running product
/// is computed: one scale-and-floor per step.
pub open spec fn wpow(w: int, n: nat) -> int
    decreases n,
{
    if n == 0 {
        WEIGHT_ONE as int
    } else {
        decayed(wpow(w, (n - 1) as nat), w)
    }
}

/// A decayed occupancy never grows, stays nonnegative, and decaying
/// from anywhere inside `[0, BIN_LIMIT]` with one increment of
/// `WEIGHT_ONE - w` stays inside `[0, BIN_LIMIT]`.
pub proof fn lemma_decay_step_bounds(x: int, w: int)
    requires
        0 <= x <= BIN_LIMIT,
        0 <= w < WEIGHT_ONE,
    ensures
        0 <= decayed(x, w) <= x,
        decayed(x, w) + (WEIGHT_ONE - w) <= BIN_LIMIT,
{
    let d = WEIGHT_ONE as int;
    vstd::arithmetic::div_mod::lemma_fundamental_div_mod(x * w, d);
    let q = decayed(x, w);
    let r = (x * w) % d;
    assert(0 <= q <= x && q + (d - w) <= BIN_LIMIT) by (nonlinear_arith)
        requires
            x * w == d * q + r,
            0 <= r < d,
            0 <= x <= BIN_LIMIT,
            0 <= w < d,
            d == WEIGHT_ONE,
            WEIGHT_ONE == 65536,
            BIN_LIMIT == 4294967296,
    ;
}

/// The fixed-point power lies in `[0, WEIGHT_ONE]`, and from one step
/// on it is at most `w` itself.
pub proof fn lemma_wpow_range(w: int, n: nat)
    requires
        0 <= w < WEIGHT_ONE,
    ensures
        0 <= wpow(w, n) <= WEIGHT_ONE,
        n >= 1 ==> wpow(w, n) <= w,
    decreases n,
{
    if n > 0 {
        lemma_wpow_range(w, (n - 1) as nat);
        let p = wpow(w, (n - 1) as nat);
        let d = WEIGHT_ONE as int;
        vstd::arithmetic::div_mod::lemma_fundamental_div_mod(p * w, d);
        let q = wpow(w, n);
        let r = (p * w) % d;
        assert(0 <= q <= w) by (nonlinear_arith)
            requires
                p * w == d * q + r,
                0 <= r < d,
                0 <= p <= d,
                0 <= w < d,
        ;
    }
}

/// Pre-decaying by `w^n` and adding `cnt` undecayed increments stays
/// within `[0, BIN_LIMIT]`, for any count up to `BLOCK_LIMIT` and any
/// block with at least one sample.
pub proof fn lemma_block_bin_bound(x: int, w: int, n: nat, cnt: int)
    requires
        0 <= x <= BIN_LIMIT,
        0 <= w < WEIGHT_ONE,
        1 <= n,
        0 <= cnt <= BLOCK_LIMIT,
    ensures
        0 <= decayed(x, wpow(w, n)) + (WEIGHT_ONE - w) * cnt <= BIN_LIMIT,
{
    lemma_wpow_range(w, n);
    let p = wpow(w, n);
    let d = WEIGHT_ONE as int;
    vstd::arithmetic::div_mod::lemma_fundamental_div_mod(x * p, d);
    let q = decayed(x, p);
    let r = (x * p) % d;
    assert(0 <= q + (d - w) * cnt <= BIN_LIMIT) by (nonlinear_arith)
        requires
            x * p == d * q + r,
            0 <= r < d,
            0 <= x <= BIN_LIMIT,
            0 <= p <= w,
            0 <= w < d,
            0 <= cnt <= BLOCK_LIMIT,
            d == WEIGHT_ONE,
            WEIGHT_ONE == 65536,
            BLOCK_LIMIT == 65536,
            BIN_LIMIT == 4294967296,
    ;
}

/// How many samples of a sequence land in bin `b`, by magnitude.
pub open spec fn bin_count(edges: Seq<i64>, vs: Seq<i64>, b: int) -> int
    decreases vs.len(),
{
    if vs.len() == 0 {
        0
    } else {
        bin_count(edges, vs.drop_last(), b) + if bin_of(edges, abs_val(vs.last())) == b {
            1int
        } else {
            0int
        }
    }
}

/// A bin never holds more sample hits than the sequence has samples.
pub proof fn lemma_bin_count_bounds(edges: Seq<i64>, vs: Seq<i64>, b: int)
    ensures
        0 <= bin_count(edges, vs, b) <= vs.len(),
    decreases vs.len(),
{
    if vs.len() > 0 {
        lemma_bin_count_bounds(edges, vs.drop_last(), b);
    }
}

/// Counting one more sample raises exactly the bin it lands in.
pub proof fn lemma_bin_count_push(edges: Seq<i64>, vs: Seq<i64>, v: i64, b: int)
    ensures
        bin_count(edges, vs.push(v), b) == bin_count(edges, vs, b) + if bin_of(
            edges,
            abs_val(v),
        ) == b {
            1int
        } else {
            0int
        },
{
    assert(vs.push(v).drop_last() =~= vs);
    assert(vs.push(v).last() == v);
}

/// The abstract state of a decaying histogram: the bin occupancies
/// (fixed point, `WEIGHT_ONE` standing for a saturated bin), the
/// strictly increasing bin edges, and the per-sample decay weight.
pub struct HistAbs {
    pub bins: Seq<u64>,
    pub edges: Seq<i64>,
    pub w: int,
}

/// A well-formed abstract state: at least two bins, one fewer edge
/// than bins, strictly increasing edges, occupancies within
/// `[0, BIN_LIMIT]`, and a decay weight in `[0, 1)`.
pub open spec fn hist_abs_wf(s: HistAbs) -> bool {
    &&& 2 <= s.bins.len() <= SIZE_LIMIT
    &&& s.edges.len() == s.bins.len() - 1
    &&& edges_sorted(s.edges)
    &&& forall|i: int| 0 <= i < s.bins.len() ==> #[trigger] s.bins[i] <= BIN_LIMIT
    &&& 0 <= s.w < WEIGHT_ONE
}

/// Ingesting one sample: a zero sample is a no-op (silence freezes the
/// histogram); otherwise every bin decays one step and the bin the
/// magnitude lands in gains `WEIGHT_ONE - w`, so a sustained signal
/// saturates its bin toward `WEIGHT_ONE` while the others fade.
pub open spec fn hist_step(s: HistAbs, v: i64) -> HistAbs {
    let a = abs_val(v);
    if a == 0 {
        s
    } else {
        let b = bin_of(s.edges, a);
        HistAbs {
            bins: Seq::new(
                s.bins.len(),
                |i: int|
                    (decayed(s.bins[i] as int, s.w) + if i == b {
                        WEIGHT_ONE - s.w
                    } else {
                        0int
                    }) as u64,
            ),
            ..s
        }
    }
}

/// Whether a block is digital silence for the given channel selection:
/// every sample of the selected channel, or of every channel when the
/// frames are downmixed, is exactly zero.
pub open spec fn block_silent(block: Seq<Seq<i64>>, channel: Option<usize>) -> bool {
    match channel {
        Some(c) => forall|i: int|
            0 <= i < block[c as int].len() ==> #[trigger] block[c as int][i] == 0,
        None => forall|c: int, i: int|
            0 <= c < block.len() && 0 <= i < block[c].len() ==> #[trigger] block[c][i] == 0,
    }
}

/// Ingesting a block: a silent block is skipped whole — no decay even
/// though time has passed, favoring display stability during silence.
/// Otherwise every bin is pre-decayed once by `w^n` (`n` the block
/// length) and then gains one undecayed increment of `WEIGHT_ONE - w`
/// per sample landing in it; zero samples inside a non-silent block do
/// count toward bin 0's side of the edges, unlike in per-sample
/// ingestion.
pub open spec fn hist_block(s: HistAbs, block: Seq<Seq<i64>>, channel: Option<usize>) -> HistAbs {
    if block_silent(block, channel) {
        s
    } else {
        let vs = selected(block, channel);
        HistAbs {
            bins: Seq::new(
                s.bins.len(),
                |i: int|
                    (decayed(s.bins[i] as int, wpow(s.w, vs.len())) + (WEIGHT_ONE - s.w)
                        * bin_count(s.edges, vs, i)) as u64,
            ),
            ..s
        }
    }
}

/// The silence-freeze law: a silent block leaves every bin occupancy
/// exactly as it stands.
pub proof fn lemma_silent_block_freezes(s: HistAbs, block: Seq<Seq<i64>>, channel: Option<usize>)
    requires
        block_silent(block, channel),
    ensures
        hist_block(s, block, channel) == s,
{
}

/// The state after a resize: the occupancies are zeroed — also when
/// the count already matches, a resize clears the summarized data.
/// When the count changes, the edges reset to the placeholder unit
/// staircase, awaiting configuration; a same-count resize keeps the
/// edges, which are configuration, not summarized data.
pub open spec fn hist_resized(s: HistAbs, m: nat) -> HistAbs {
    if s.bins.len() == m {
        HistAbs { bins: Seq::new(m, |i: int| 0u64), ..s }
    } else {
        HistAbs {
            bins: Seq::new(m, |i: int| 0u64),
            edges: Seq::new((m - 1) as nat, |i: int| (i + 1) as i64),
            ..s
        }
    }
}

/// Resizing to `m` bins and then to the same `m` again leaves `m`
/// zeroed bins, matching a freshly constructed histogram of `m` bins
/// — for any starting state and any `m`.
pub proof fn lemma_hist_resize_idempotent(s: HistAbs, m: nat)
    ensures
        hist_resized(hist_resized(s, m), m) == hist_resized(s, m),
        hist_resized(s, m).bins == Seq::new(m, |i: int| 0u64),
{
}

/// A configuration fault, reported at the point of (re)configuration.
#[derive(Clone, Copy, Debug, PartialEq, Eq, Structural)]
pub enum ConfigError {
    /// Fewer than two bins leave no room for a bin edge.
    DegenerateSize,
    /// The edges must be strictly increasing, one fewer than the bins.
    InvalidEdges,
    /// A decay weight must lie strictly below `WEIGHT_ONE`.
    InvalidWeight,
}

/// Streaming amplitude histogram with exponential decay, fed one
/// sample or one block at a time.
pub struct HistogramBuffer {
    bins: Vec<u64>,
    edges: Vec<i64>,
    decay_weight: u64,
}

impl View for HistogramBuffer {
    type V = HistAbs;

    closed spec fn view(&self) -> HistAbs {
        HistAbs { bins: self.bins@, edges: self.edges@, w: self.decay_weight as int }
    }
}

impl HistogramBuffer {
    pub closed spec fn wf(self) -> bool {
        hist_abs_wf(self@)
    }

    /// Constructs a histogram of `size` bins with the given per-sample
    /// decay weight. The edges start as the placeholder unit staircase
    /// `1, 2, ...` until `set_edges` provides real amplitudes. Fewer
    /// than two bins, or a weight of one or more, is a configuration
    /// error.
    pub fn new(size: usize, decay_weight: u64) -> (r: Result<Self, ConfigError>)
        requires
            size <= SIZE_LIMIT,
        ensures
            r is Ok <==> (2 <= size && decay_weight < WEIGHT_ONE),
            r matches Ok(buf) ==> {
                &&& buf.wf()
                &&& buf@.bins == Seq::new(size as nat, |i: int| 0u64)
                &&& buf@.edges == Seq::new((size - 1) as nat, |i: int| (i + 1) as i64)
                &&& buf@.w == decay_weight
            },
            size < 2 ==> (r matches Err(e) && e == ConfigError::DegenerateSize),
            2 <= size && WEIGHT_ONE <= decay_weight ==> (r matches Err(e) && e
                == ConfigError::InvalidWeight),
    {
        if size < 2 {
            return Err(ConfigError::DegenerateSize);
        }
        if decay_weight >= WEIGHT_ONE {
            return Err(ConfigError::InvalidWeight);
        }
        let mut bins: Vec<u64> = Vec::new();
        let mut i: usize = 0;
        while i < size
            invariant
                i <= size,
                bins.len() == i,
                forall|k: int| 0 <= k < i ==> bins@[k] == 0u64,
            decreases size - i,
        {
            bins.push(0);
            i = i + 1;
        }
        let mut edges: Vec<i64> = Vec::new();
        let mut j: usize = 0;
        while j < size - 1
            invariant
                2 <= size <= SIZE_LIMIT,
                j <= size - 1,
                edges.len() == j,
                forall|k: int| 0 <= k < j ==> edges@[k] == k + 1,
            decreases size - 1 - j,
        {
            edges.push((j + 1) as i64);
            j = j + 1;
        }
        let buf = HistogramBuffer { bins, edges, decay_weight };
        proof {
            assert(buf@.bins =~= Seq::new(size as nat, |i: int| 0u64));
            assert(buf@.edges =~= Seq::new((size - 1) as nat, |i: int| (i + 1) as i64));
        }
        Ok(buf)
    }

    /// The number of bins.
    pub fn len(&self) -> (n: usize)
        ensures
            n == self@.bins.len(),
    {
        self.bins.len()
    }

    /// Replaces the bin edges — a display-range change — and clears
    /// the occupancies: summaries binned over other edges are stale.
    /// The new edges must be strictly increasing and number one fewer
    /// than the bins; otherwise the configuration error is reported
    /// and nothing changes.
    pub fn set_edges(&mut self, edges: Vec<i64>) -> (r: Result<(), ConfigError>)
        requires
            old(self).wf(),
        ensures
            final(self).wf(),
            r is Ok <==> (edges@.len() == old(self)@.bins.len() - 1 && edges_sorted(edges@)),
            r is Ok ==> final(self)@ == (HistAbs {
                bins: Seq::new(old(self)@.bins.len(), |i: int| 0u64),
                edges: edges@,
                ..old(self)@
            }),
            r matches Err(e) ==> e == ConfigError::InvalidEdges && final(self)@ == old(self)@,
    {
        if edges.len() != self.bins.len() - 1 {
            return Err(ConfigError::InvalidEdges);
        }
        let n = edges.len();
        let mut j: usize = 1;
        while j < n
            invariant
                self.wf(),
                self@ == old(self)@,
                n == edges.len(),
                1 <= j <= n || n == 0,
                forall|a: int, b: int| 0 <= a < b < j ==> edges@[a] < edges@[b],
            decreases n - j,
        {
            if edges[j - 1] >= edges[j] {
                return Err(ConfigError::InvalidEdges);
            }
            proof {
                assert forall|a: int, b: int| 0 <= a < b < j + 1 implies edges@[a] < edges@[b] by {
                    if b == j {
                        if a < j - 1 {
                            assert(edges@[a] < edges@[j - 1]);
                        }
                    }
                }
            }
            j = j + 1;
        }
        self.edges = edges;
        self.clear();
        Ok(())
    }

    /// Sets the per-sample decay weight, the fixed-point factor every
    /// bin is scaled by per ingested sample, and clears the
    /// occupancies: summaries decayed at another rate are stale. A
    /// weight of one or more is a configuration error and nothing
    /// changes.
    pub fn set_decay(&mut self, decay_weight: u64) -> (r: Result<(), ConfigError>)
        requires
            old(self).wf(),
        ensures
            final(self).wf(),
            r is Ok <==> decay_weight < WEIGHT_ONE,
            r is Ok ==> final(self)@ == (HistAbs {
                bins: Seq::new(old(self)@.bins.len(), |i: int| 0u64),
                w: decay_weight as int,
                ..old(self)@
            }),
            r matches Err(e) ==> e == ConfigError::InvalidWeight && final(self)@ == old(self)@,
    {
        if decay_weight >= WEIGHT_ONE {
            return Err(ConfigError::InvalidWeight);
        }
        self.decay_weight = decay_weight;
        self.clear();
        Ok(())
    }

    /// Notes a new sample rate of the incoming audio by clearing the
    /// occupancies, as the configuration contract specifies: summaries
    /// gathered at another rate are stale. Deriving the per-sample
    /// decay weight for the new rate from a decay time needs
    /// transcendental arithmetic and is the caller's job; hand the
    /// result to `set_decay`.
    pub fn set_sample_rate(&mut self, _sample_rate: i64)
        requires
            old(self).wf(),
        ensures
            final(self).wf(),
            final(self)@ == (HistAbs {
                bins: Seq::new(old(self)@.bins.len(), |i: int| 0u64),
                ..old(self)@
            }),
    {
        self.clear();
    }

    /// Locates the bin for a magnitude by binary search over the
    /// strictly increasing edges: values below the first edge map to
    /// bin 0, values at or above the last edge to the final bin, and a
    /// value in `[edge[i], edge[i+1])` to bin `i + 1`.
    pub fn find_bin(&self, value: i64) -> (bin: usize)
        requires
            self.wf(),
        ensures
            bin as int == bin_of(self@.edges, value),
            bin <= self@.edges.len(),
            forall|i: int| 0 <= i < bin ==> self@.edges[i] <= value,
            forall|i: int| bin <= i < self@.edges.len() ==> value < self@.edges[i],
    {
        let ghost es = self@.edges;
        let n = self.edges.len();
        if value < self.edges[0] {
            proof {
                assert forall|i: int| 0 <= i < es.len() implies value < es[i] by {
                    if i > 0 {
                        assert(es[0] < es[i]);
                    }
                }
                lemma_bin_of_unique(es, value, 0);
            }
            return 0;
        }
        let mut lo: usize = 0;
        let mut hi: usize = n;
        while lo < hi
            invariant
                es == self@.edges,
                self.wf(),
                n == es.len(),
                0 <= lo <= hi <= n,
                forall|i: int| 0 <= i < lo ==> es[i] <= value,
                forall|i: int| hi <= i < n ==> value < es[i],
            decreases hi - lo,
        {
            let mid = lo + (hi - lo) / 2;
            if self.edges[mid] <= value {
                proof {
                    assert forall|i: int| 0 <= i < mid + 1 implies es[i] <= value by {
                        if i < mid {
                            assert(es[i] < es[mid as int]);
                        }
                    }
                }
                lo = mid + 1;
            } else {
                proof {
                    assert forall|i: int| mid <= i < n implies value < es[i] by {
                        if i > mid {
                            assert(es[mid as int] < es[i]);
                        }
                    }
                }
                hi = mid;
            }
        }
        proof {
            lemma_bin_of_unique(es, value, lo as int);
        }
        lo
    }

    /// Ingests one sample. A zero sample is a no-op: silence freezes
    /// the histogram. Otherwise every bin decays one step and the bin
    /// the magnitude lands in gains `WEIGHT_ONE - w`.
    pub fn enqueue(&mut self, value: i64)
        requires
            old(self).wf(),
            sample_in_range(value),
        ensures
            final(self).wf(),
            final(self)@ == hist_step(old(self)@, value),
    {
        let a = if value < 0 {
            -value
        } else {
            value
        };
        if a == 0 {
            return ;
        }
        let b = self.find_bin(a);
        let w = self.decay_weight;
        let n = self.bins.len();
        let ghost bins0 = self.bins@;
        let mut i: usize = 0;
        while i < n
            invariant
                n == self.bins.len(),
                bins0 == old(self).bins@,
                hist_abs_wf(old(self)@),
                self.edges@ == old(self).edges@,
                self.decay_weight == old(self).decay_weight,
                w == self.decay_weight,
                0 <= i <= n,
                n == bins0.len(),
                forall|k: int| 0 <= k < i ==> self.bins@[k] == decayed(bins0[k] as int, w as int),
                forall|k: int| i <= k < n ==> self.bins@[k] == bins0[k],
            decreases n - i,
        {
            proof {
                assert(bins0[i as int] <= BIN_LIMIT);
                lemma_decay_step_bounds(bins0[i as int] as int, w as int);
            }
            let x = self.bins[i];
            self.bins.set(i, (x * w) / WEIGHT_ONE);
            i = i + 1;
        }
        proof {
            assert(bins0[b as int] <= BIN_LIMIT);
            lemma_decay_step_bounds(bins0[b as int] as int, w as int);
        }
        let y = self.bins[b];
        self.bins.set(b, y + (WEIGHT_ONE - w));
        proof {
            assert(abs_val(value) == a);
            assert(self@.bins =~= hist_step(old(self)@, value).bins);
            assert forall|k: int| 0 <= k < self@.bins.len() implies #[trigger] self@.bins[k]
                <= BIN_LIMIT by {
                lemma_decay_step_bounds(bins0[k] as int, w as int);
            }
        }
    }

    /// Ingests a block of multi-channel samples. A block that is
    /// digital silence on the selected channel (on every channel, when
    /// downmixing) is skipped whole: no decay, no increments. Any
    /// other block pre-decays every bin once by `w^n` and then adds
    /// one undecayed increment per sample, locating each sample of the
    /// selected channel, or the mean downmix of each frame, by
    /// magnitude.
    pub fn enqueue_buffer(&mut self, block: &Vec<Vec<i64>>, channel: Option<usize>)
        requires
            old(self).wf(),
            block_ok(block.deep_view(), channel),
        ensures
            final(self).wf(),
            final(self)@ == hist_block(old(self)@, block.deep_view(), channel),
            block_silent(block.deep_view(), channel) ==> final(self)@ == old(self)@,
    {
        let ghost bv = block.deep_view();
        let ghost vs = selected(bv, channel);
        let silent = match channel {
            Some(ch) => {
                proof {
                    assert(bv[ch as int] == block@[ch as int].deep_view());
                }
                let row = &block[ch];
                let m = row.len();
                let mut j: usize = 0;
                let mut all_zero = true;
                while j < m
                    invariant
                        bv == block.deep_view(),
                        ch < block.len(),
                        bv[ch as int] == block@[ch as int].deep_view(),
                        row@ == block@[ch as int]@,
                        m == row.len(),
                        0 <= j <= m,
                        all_zero <==> (forall|k: int| 0 <= k < j ==> #[trigger] bv[ch as int][k]
                            == 0),
                    decreases m - j,
                {
                    proof {
                        assert(bv[ch as int][j as int] == block@[ch as int]@[j as int]);
                    }
                    if row[j] != 0 {
                        all_zero = false;
                        assert(bv[ch as int][j as int] != 0);
                        j = m;
                    } else {
                        proof {
                            assert(bv[ch as int][j as int] == 0);
                        }
                        j = j + 1;
                    }
                }
                all_zero
            },
            None => {
                let nch = block.len();
                let mut c: usize = 0;
                let mut all_zero = true;
                while c < nch
                    invariant
                        bv == block.deep_view(),
                        nch == block.len(),
                        0 <= c <= nch,
                        all_zero <==> (forall|cc: int, k: int|
                            0 <= cc < c && 0 <= k < bv[cc].len() ==> #[trigger] bv[cc][k] == 0),
                    decreases nch - c,
                {
                    proof {
                        assert(bv[c as int] == block@[c as int].deep_view());
                    }
                    let row = &block[c];
                    let m = row.len();
                    let mut j: usize = 0;
                    let mut row_zero = true;
                    while j < m
                        invariant
                            bv == block.deep_view(),
                            c < block.len(),
                            bv[c as int] == block@[c as int].deep_view(),
                            row@ == block@[c as int]@,
                            m == row.len(),
                            0 <= j <= m,
                            row_zero <==> (forall|k: int| 0 <= k < j ==> #[trigger] bv[c as int][k]
                                == 0),
                        decreases m - j,
                    {
                        proof {
                            assert(bv[c as int][j as int] == block@[c as int]@[j as int]);
                        }
                        if row[j] != 0 {
                            row_zero = false;
                            assert(bv[c as int][j as int] != 0);
                            j = m;
                        } else {
                            proof {
                                assert(bv[c as int][j as int] == 0);
                            }
                            j = j + 1;
                        }
                    }
                    if !row_zero {
                        all_zero = false;
                        c = nch;
                    } else {
                        proof {
                            assert(forall|k: int|
                                0 <= k < bv[c as int].len() ==> #[trigger] bv[c as int][k] == 0);
                        }
                        c = c + 1;
                    }
                }
                all_zero
            },
        };
        proof {
            assert(silent == block_silent(bv, channel));
        }
        if silent {
            return ;
        }
        // The block is not silent, so the selected sequence has at
        // least one sample.
        let n = match channel {
            Some(ch) => block[ch].len(),
            None => block[0].len(),
        };
        proof {
            assert(n == vs.len());
            if n == 0 {
                assert(block_silent(bv, channel));
            }
        }
        let w = self.decay_weight;
        // The fixed-point power w^n, folded one scale-and-floor at a time.
        let mut wp: u64 = WEIGHT_ONE;
        let mut k: usize = 0;
        while k < n
            invariant
                0 <= k <= n,
                0 <= self@.w < WEIGHT_ONE,
                w == self.decay_weight,
                wp == wpow(w as int, k as nat),
                wp <= WEIGHT_ONE,
            decreases n - k,
        {
            proof {
                lemma_wpow_range(w as int, (k + 1) as nat);
            }
            wp = (wp * w) / WEIGHT_ONE;
            k = k + 1;
        }
        // Pre-decay every bin once by w^n.
        let ghost bins0 = self.bins@;
        let nb = self.bins.len();
        let mut i: usize = 0;
        while i < nb
            invariant
                nb == self.bins.len(),
                bins0 == old(self).bins@,
                hist_abs_wf(old(self)@),
                self.edges@ == old(self).edges@,
                self.decay_weight == old(self).decay_weight,
                w == self.decay_weight,
                wp == wpow(w as int, n as nat),
                wp <= WEIGHT_ONE,
                0 <= i <= nb,
                nb == bins0.len(),
                forall|q: int|
                    0 <= q < i ==> self.bins@[q] == decayed(bins0[q] as int, wpow(w as int, n as nat)),
                forall|q: int| i <= q < nb ==> self.bins@[q] == bins0[q],
            decreases nb - i,
        {
            proof {
                assert(bins0[i as int] <= BIN_LIMIT);
                lemma_wpow_range(w as int, n as nat);
                vstd::arithmetic::div_mod::lemma_fundamental_div_mod(
                    bins0[i as int] as int * wp as int,
                    WEIGHT_ONE as int,
                );
                assert(0 <= decayed(bins0[i as int] as int, wp as int)
                    <= bins0[i as int] as int) by (nonlinear_arith)
                    requires
                        bins0[i as int] as int * wp as int == (WEIGHT_ONE as int) * decayed(
                            bins0[i as int] as int,
                            wp as int,
                        ) + (bins0[i as int] as int * wp as int) % (WEIGHT_ONE as int),
                        0 <= (bins0[i as int] as int * wp as int) % (WEIGHT_ONE as int)
                            < WEIGHT_ONE as int,
                        0 <= bins0[i as int] <= BIN_LIMIT,
                        0 <= wp <= WEIGHT_ONE,
                        0 < WEIGHT_ONE,
                ;
            }
            let x = self.bins[i];
            self.bins.set(i, (x * wp) / WEIGHT_ONE);
            i = i + 1;
        }
        // One undecayed increment per sample, by magnitude.
        let ghost decayed_bins = self.bins@;
        let mut j: usize = 0;
        while j < n
            invariant
                nb == self.bins.len(),
                nb == decayed_bins.len(),
                bins0 == old(self).bins@,
                nb == bins0.len(),
                hist_abs_wf(old(self)@),
                self.edges@ == old(self).edges@,
                self.decay_weight == old(self).decay_weight,
                w == self.decay_weight,
                1 <= n <= BLOCK_LIMIT,
                block_ok(bv, channel),
                bv == block.deep_view(),
                vs == selected(bv, channel),
                n == vs.len(),
                forall|q: int|
                    0 <= q < nb ==> decayed_bins[q] == decayed(
                        bins0[q] as int,
                        wpow(w as int, n as nat),
                    ),
                0 <= j <= n,
                forall|q: int|
                    0 <= q < nb ==> self.bins@[q] == decayed_bins[q] + (WEIGHT_ONE - w) * bin_count(
                        self@.edges,
                        vs.take(j as int),
                        q,
                    ),
            decreases n - j,
        {
            let x: i64 = match channel {
                Some(ch) => {
                    proof {
                        assert(bv[ch as int] == block@[ch as int].deep_view());
                        assert(bv[ch as int][j as int] == block@[ch as int]@[j as int]);
                        assert(sample_in_range(bv[ch as int][j as int]));
                    }
                    block[ch][j]
                },
                None => downmix_frame(block, j),
            };
            assert(x == vs[j as int]);
            assert(sample_in_range(x));
            let a = if x < 0 {
                -x
            } else {
                x
            };
            assert(a == abs_val(x));
            let b = self.find_bin_current(a);
            let y = self.bins[b];
            proof {
                let ghost es = self@.edges;
                let ghost cnt = bin_count(es, vs.take(j as int), b as int);
                lemma_bin_count_bounds(es, vs.take(j as int), b as int);
                lemma_bin_count_bounds(es, vs.take(j + 1), b as int);
                assert(vs.take(j + 1).drop_last() =~= vs.take(j as int));
                lemma_bin_count_push(es, vs.take(j as int), vs[j as int], b as int);
                assert(bin_count(es, vs.take(j + 1), b as int) == cnt + 1);
                assert(bins0[b as int] <= BIN_LIMIT);
                lemma_wpow_range(w as int, n as nat);
                lemma_block_bin_bound(
                    bins0[b as int] as int,
                    w as int,
                    n as nat,
                    cnt + 1,
                );
                assert((WEIGHT_ONE - w as int) * cnt + (WEIGHT_ONE - w as int) == (WEIGHT_ONE
                    - w as int) * (cnt + 1)) by (nonlinear_arith);
                assert(y as int + (WEIGHT_ONE - w as int) <= BIN_LIMIT);
            }
            self.bins.set(b, y + (WEIGHT_ONE - w));
            proof {
                assert forall|q: int| 0 <= q < nb implies self.bins@[q] == decayed_bins[q] + (
                WEIGHT_ONE - w) * bin_count(self@.edges, vs.take(j + 1), q) by {
                    let ghost cq = bin_count(self@.edges, vs.take(j as int), q);
                    lemma_bin_count_push(self@.edges, vs.take(j as int), vs[j as int], q);
                    if q == b {
                        assert((WEIGHT_ONE - w as int) * cq + (WEIGHT_ONE - w as int) == (
                        WEIGHT_ONE - w as int) * (cq + 1)) by (nonlinear_arith);
                    }
                }
            }
            j = j + 1;
        }
        proof {
            assert(vs.take(n as int) =~= vs);
            assert(self@.bins =~= hist_block(old(self)@, bv, channel).bins);
            assert forall|q: int| 0 <= q < self@.bins.len() implies #[trigger] self@.bins[q]
                <= BIN_LIMIT by {
                lemma_bin_count_bounds(self@.edges, vs, q);
                lemma_wpow_range(w as int, n as nat);
                lemma_block_bin_bound(
                    bins0[q] as int,
                    w as int,
                    n as nat,
                    bin_count(self@.edges, vs, q),
                );
            }
        }
    }

    /// `find_bin`, callable while `self` is mid-update: only the edges
    /// and the weight need to be intact.
    fn find_bin_current(&self, value: i64) -> (bin: usize)
        requires
            edges_sorted(self@.edges),
            1 <= self@.edges.len(),
        ensures
            bin as int == bin_of(self@.edges, value),
            bin <= self@.edges.len(),
    {
        let ghost es = self@.edges;
        let n = self.edges.len();
        if value < self.edges[0] {
            proof {
                assert forall|i: int| 0 <= i < es.len() implies value < es[i] by {
                    if i > 0 {
                        assert(es[0] < es[i]);
                    }
                }
                lemma_bin_of_unique(es, value, 0);
            }
            return 0;
        }
        let mut lo: usize = 0;
        let mut hi: usize = n;
        while lo < hi
            invariant
                es == self@.edges,
                edges_sorted(es),
                n == es.len(),
                0 <= lo <= hi <= n,
                forall|i: int| 0 <= i < lo ==> es[i] <= value,
                forall|i: int| hi <= i < n ==> value < es[i],
            decreases hi - lo,
        {
            let mid = lo + (hi - lo) / 2;
            if self.edges[mid] <= value {
                proof {
                    assert forall|i: int| 0 <= i < mid + 1 implies es[i] <= value by {
                        if i < mid {
                            assert(es[i] < es[mid as int]);
                        }
                    }
                }
                lo = mid + 1;
            } else {
                proof {
                    assert forall|i: int| mid <= i < n implies value < es[i] by {
                        if i > mid {
                            assert(es[mid as int] < es[i]);
                        }
                    }
                }
                hi = mid;
            }
        }
        proof {
            lemma_bin_of_unique(es, value, lo as int);
        }
        lo
    }

    /// Zeroes every bin occupancy; the edges and the weight stay.
    pub fn clear(&mut self)
        requires
            old(self).wf(),
        ensures
            final(self).wf(),
            final(self)@ == (HistAbs {
                bins: Seq::new(old(self)@.bins.len(), |i: int| 0u64),
                ..old(self)@
            }),
    {
        let n = self.bins.len();
        let mut i: usize = 0;
        while i < n
            invariant
                n == self.bins.len(),
                hist_abs_wf(old(self)@),
                self.edges@ == old(self).edges@,
                self.decay_weight == old(self).decay_weight,
                n == old(self).bins@.len(),
                0 <= i <= n,
                forall|k: int| 0 <= k < i ==> self.bins@[k] == 0u64,
            decreases n - i,
        {
            self.bins.set(i, 0);
            i = i + 1;
        }
        proof {
            assert(self@.bins =~= Seq::new(old(self)@.bins.len(), |i: int| 0u64));
        }
    }

    /// Reads one bin occupancy. Reading outside `[0, len)` is a caller
    /// fault, excluded by precondition.
    pub fn index(&self, index: usize) -> (v: u64)
        requires
            self.wf(),
            index < self@.bins.len(),
        ensures
            v == self@.bins[index as int],
    {
        self.bins[index]
    }

    /// Writes one bin occupancy.
    pub fn set_index(&mut self, index: usize, value: u64)
        requires
            old(self).wf(),
            index < old(self)@.bins.len(),
            value <= BIN_LIMIT,
        ensures
            final(self).wf(),
            final(self)@ == (HistAbs {
                bins: old(self)@.bins.update(index as int, value),
                ..old(self)@
            }),
    {
        self.bins.set(index, value);
        proof {
            assert forall|i: int| 0 <= i < self@.bins.len() implies #[trigger] self@.bins[i]
                <= BIN_LIMIT by {
                if i != index {
                    assert(self@.bins[i] == old(self)@.bins[i]);
                }
            }
        }
    }

    /// Changes the bin count, zeroing the occupancies — also when the
    /// count already matches, a resize clears the summarized data. A
    /// changed count resets the edges to the placeholder unit
    /// staircase; a same-count resize keeps them. Fewer than two bins
    /// is a configuration error and nothing changes.
    pub fn resize(&mut self, size: usize) -> (r: Result<(), ConfigError>)
        requires
            old(self).wf(),
            size <= SIZE_LIMIT,
        ensures
            final(self).wf(),
            r is Ok <==> 2 <= size,
            r is Ok ==> final(self)@ == hist_resized(old(self)@, size as nat),
            r matches Err(e) ==> e == ConfigError::DegenerateSize && final(self)@ == old(self)@,
    {
        if size < 2 {
            return Err(ConfigError::DegenerateSize);
        }
        if size == self.bins.len() {
            self.clear();
            return Ok(());
        }
        match HistogramBuffer::new(size, self.decay_weight) {
            Ok(fresh) => {
                self.bins = fresh.bins;
                self.edges = fresh.edges;
                Ok(())
            },
            Err(e) => {
                // Unreachable: the size and the stored weight were
                // both checked.
                proof {
                    assert(false);
                }
                Err(e)
            },
        }
    }

    /// Grows the histogram to `size` bins, zeroing it.
    pub fn grow(&mut self, size: usize) -> (r: Result<(), ConfigError>)
        requires
            old(self).wf(),
            size <= SIZE_LIMIT,
        ensures
            final(self).wf(),
            r is Ok <==> 2 <= size,
            r is Ok ==> final(self)@ == hist_resized(old(self)@, size as nat),
            r matches Err(e) ==> e == ConfigError::DegenerateSize && final(self)@ == old(self)@,
    {
        self.resize(size)
    }

    /// Shrinks the histogram to `size` bins, zeroing it.
    pub fn shrink(&mut self, size: usize) -> (r: Result<(), ConfigError>)
        requires
            old(self).wf(),
            size <= SIZE_LIMIT,
        ensures
            final(self).wf(),
            r is Ok <==> 2 <= size,
            r is Ok ==> final(self)@ == hist_resized(old(self)@, size as nat),
            r matches Err(e) ==> e == ConfigError::DegenerateSize && final(self)@ == old(self)@,
    {
        self.resize(size)
    }

    /// The bin occupancies, lowest amplitude first, as one vector.
    pub fn to_vec(&self) -> (out: Vec<u64>)
        requires
            self.wf(),
        ensures
            out@ == self@.bins,
    {
        let n = self.bins.len();
        let mut out: Vec<u64> = Vec::new();
        let mut i: usize = 0;
        while i < n
            invariant
                n == self.bins.len(),
                0 <= i <= n,
                out.len() == i,
                forall|k: int| 0 <= k < i ==> out@[k] == self.bins@[k],
            decreases n - i,
        {
            let v = self.bins[i];
            out.push(v);
            i = i + 1;
        }
        proof {
            assert(out@ =~= self@.bins);
        }
        out
    }
}

} // verus!
