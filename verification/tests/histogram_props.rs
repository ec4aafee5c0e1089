use cyma::histogram_buffer::{ConfigError, HistogramBuffer};
use cyma::samples::WEIGHT_ONE;

const HALF: u64 = WEIGHT_ONE / 2;

fn histogram_with_edges(size: usize, weight: u64, edges: Vec<i64>) -> HistogramBuffer {
    let mut hist = HistogramBuffer::new(size, weight).unwrap();
    hist.set_edges(edges).unwrap();
    hist
}

/// Bin location over edges e0 < e1 < e2: values below e0 map to bin 0,
/// values in [e_i, e_{i+1}) map to bin i+1, values above the last edge
/// map to the final bin.
#[test]
fn find_bin_is_monotonic_over_edges() {
    let hist = histogram_with_edges(4, HALF, vec![10, 20, 30]);
    assert_eq!(hist.find_bin(0), 0);
    assert_eq!(hist.find_bin(9), 0);
    assert_eq!(hist.find_bin(10), 1);
    assert_eq!(hist.find_bin(15), 1);
    assert_eq!(hist.find_bin(19), 1);
    assert_eq!(hist.find_bin(20), 2);
    assert_eq!(hist.find_bin(29), 2);
    assert_eq!(hist.find_bin(30), 3);
    assert_eq!(hist.find_bin(1000), 3);
    // Monotonic: no inversion over a sweep.
    let mut last = 0;
    for v in 0..40 {
        let b = hist.find_bin(v);
        assert!(b >= last);
        last = b;
    }
}

/// A nonzero sample decays every bin and raises its own bin by
/// `WEIGHT_ONE - w`, saturating toward `WEIGHT_ONE` when sustained.
#[test]
fn sustained_signal_saturates_its_bin() {
    let mut hist = histogram_with_edges(4, HALF, vec![10, 20, 30]);
    hist.enqueue(15);
    assert_eq!(hist.index(1), WEIGHT_ONE - HALF); // 32768
    hist.enqueue(15);
    assert_eq!(hist.index(1), 32768 / 2 + 32768); // 49152
    hist.enqueue(15);
    assert_eq!(hist.index(1), 49152 / 2 + 32768); // 57344
    assert_eq!(hist.index(0), 0);
    assert_eq!(hist.index(2), 0);
    assert_eq!(hist.index(3), 0);
}

/// A zero sample is a no-op: per-sample silence freezes the histogram.
#[test]
fn zero_sample_is_frozen() {
    let mut hist = histogram_with_edges(4, HALF, vec![10, 20, 30]);
    hist.enqueue(15);
    let before: Vec<u64> = hist.to_vec();
    hist.enqueue(0);
    assert_eq!(hist.to_vec(), before);
}

/// An all-zero block is skipped whole: no decay, no increments.
#[test]
fn silent_block_is_frozen() {
    let mut hist = histogram_with_edges(4, HALF, vec![10, 20, 30]);
    hist.enqueue(15);
    hist.enqueue(25);
    let before: Vec<u64> = hist.to_vec();
    let silence: Vec<Vec<i64>> = vec![vec![0; 64], vec![0; 64]];
    hist.enqueue_buffer(&silence, None);
    assert_eq!(hist.to_vec(), before);
    hist.enqueue_buffer(&silence, Some(0));
    assert_eq!(hist.to_vec(), before);
}

/// A block pre-decays once by `w^n` and then adds one undecayed
/// increment per sample.
#[test]
fn block_predecays_and_increments() {
    let mut hist = histogram_with_edges(4, HALF, vec![10, 20, 30]);
    let block: Vec<Vec<i64>> = vec![vec![15, 15]];
    hist.enqueue_buffer(&block, Some(0));
    // Both increments land undecayed: 2 * (WEIGHT_ONE - HALF).
    assert_eq!(hist.index(1), 2 * (WEIGHT_ONE - HALF));
}

/// Degenerate configurations are reported, not silently corrupted.
#[test]
fn degenerate_configuration_is_reported() {
    assert!(matches!(
        HistogramBuffer::new(1, HALF),
        Err(ConfigError::DegenerateSize)
    ));
    assert!(matches!(
        HistogramBuffer::new(4, WEIGHT_ONE),
        Err(ConfigError::InvalidWeight)
    ));
    let mut hist = HistogramBuffer::new(4, HALF).unwrap();
    assert!(matches!(
        hist.set_edges(vec![10, 20]),
        Err(ConfigError::InvalidEdges)
    ));
    assert!(matches!(
        hist.set_edges(vec![10, 10, 30]),
        Err(ConfigError::InvalidEdges)
    ));
    assert!(matches!(
        hist.set_decay(WEIGHT_ONE),
        Err(ConfigError::InvalidWeight)
    ));
    assert!(matches!(hist.resize(1), Err(ConfigError::DegenerateSize)));
    // Reported errors leave the histogram intact and usable.
    assert!(hist.set_edges(vec![10, 20, 30]).is_ok());
    assert_eq!(hist.len(), 4);
}

/// Clearing zeroes every occupancy and keeps the bin count; a new
/// sample rate does the same, since summaries from another rate are
/// stale.
#[test]
fn histogram_clear_and_rate_change_zero_bins() {
    let mut hist = histogram_with_edges(4, HALF, vec![10, 20, 30]);
    hist.enqueue(15);
    hist.enqueue(25);
    hist.clear();
    assert_eq!(hist.len(), 4);
    assert_eq!(hist.to_vec(), vec![0, 0, 0, 0]);
    hist.enqueue(15);
    hist.set_sample_rate(48000);
    assert_eq!(hist.to_vec(), vec![0, 0, 0, 0]);
}

/// Grow then shrink to the same bin count leaves zeroed bins, matching
/// a fresh construction.
#[test]
fn histogram_grow_shrink_matches_fresh() {
    let mut hist = histogram_with_edges(4, HALF, vec![10, 20, 30]);
    hist.enqueue(15);
    hist.grow(6).unwrap();
    hist.shrink(6).unwrap();
    let fresh = HistogramBuffer::new(6, HALF).unwrap();
    assert_eq!(hist.len(), fresh.len());
    assert_eq!(hist.to_vec(), fresh.to_vec());
    assert_eq!(hist.to_vec(), vec![0, 0, 0, 0, 0, 0]);
}

/// End-to-end: 10 bins spaced evenly in decibels from -96 dB to
/// +24 dB, a 50 ms decay at 48000 Hz, fed one second of a full-scale
/// signal. The signal's bin saturates well past 0.9 while every bin
/// below index 5 stays at zero. (A 0 dB signal lies below the +24 dB
/// ceiling, so the topmost occupied bin is the signal's own, index 7.)
#[test]
fn end_to_end_full_scale_second() {
    // Fixed-point amplitude scale: 1.0 is 1 << 24.
    let fixed_one = (1i64) << 24;
    let size = 10usize;
    // 9 edges spaced evenly in dB over [-96, 24]: -96, -81, ..., +24.
    let mut edges: Vec<i64> = Vec::new();
    for i in 0..(size - 1) {
        let db = -96.0 + (i as f64) * (24.0 - (-96.0)) / ((size - 2) as f64);
        let linear = 10f64.powf(db / 20.0);
        edges.push((linear * fixed_one as f64) as i64);
    }
    // Per-sample weight for a 50 ms quarter-decay at 48000 Hz.
    let weight = (0.25f64.powf(1.0 / (0.050 * 48000.0)) * WEIGHT_ONE as f64) as u64;
    assert!(weight < WEIGHT_ONE);
    let mut hist = HistogramBuffer::new(size, weight).unwrap();
    hist.set_edges(edges).unwrap();
    let signal_bin = hist.find_bin(fixed_one);
    assert_eq!(signal_bin, 7);
    let block: Vec<Vec<i64>> = vec![vec![fixed_one; 48000]];
    hist.enqueue_buffer(&block, Some(0));
    // Occupancy 0.9 in fixed point.
    let nine_tenths = WEIGHT_ONE * 9 / 10;
    assert!(hist.index(signal_bin) > nine_tenths);
    for i in 0..5 {
        assert_eq!(hist.index(i), 0);
    }
}

/// A block landing on existing occupancy pre-decays it by the
/// fixed-point power `w^n` before the undecayed increments arrive.
#[test]
fn block_predecay_scales_existing_occupancy() {
    let mut hist = histogram_with_edges(4, HALF, vec![10, 20, 30]);
    hist.enqueue(15);
    assert_eq!(hist.index(1), 32768);
    let block: Vec<Vec<i64>> = vec![vec![15, 15]];
    hist.enqueue_buffer(&block, Some(0));
    // w^2 in fixed point: (65536 * 32768 / 65536) * 32768 / 65536 = 16384.
    // 32768 * 16384 / 65536 + 2 * 32768 = 8192 + 65536.
    assert_eq!(hist.index(1), 73728);
}

/// The smallest histogram has two bins split by one edge.
#[test]
fn two_bin_histogram() {
    let hist = histogram_with_edges(2, HALF, vec![10]);
    assert_eq!(hist.find_bin(9), 0);
    assert_eq!(hist.find_bin(10), 1);
    assert_eq!(hist.find_bin(11), 1);
}

/// Inside a non-silent block, zero samples do count: their magnitude
/// lands below every positive edge, in bin 0 — unlike per-sample
/// ingestion, where a lone zero sample is skipped.
#[test]
fn zero_inside_nonsilent_block_counts() {
    let mut hist = histogram_with_edges(4, HALF, vec![10, 20, 30]);
    let block: Vec<Vec<i64>> = vec![vec![0, 15]];
    hist.enqueue_buffer(&block, Some(0));
    assert_eq!(hist.index(0), WEIGHT_ONE - HALF);
    assert_eq!(hist.index(1), WEIGHT_ONE - HALF);
}

/// A decay-time change clears the occupancies: summaries decayed at
/// another rate are stale.
#[test]
fn decay_change_clears_bins() {
    let mut hist = histogram_with_edges(4, HALF, vec![10, 20, 30]);
    hist.enqueue(15);
    assert!(hist.index(1) > 0);
    hist.set_decay(WEIGHT_ONE / 4).unwrap();
    assert_eq!(hist.to_vec(), vec![0, 0, 0, 0]);
    // A refused weight changes nothing, including the occupancies.
    hist.enqueue(15);
    let before = hist.to_vec();
    assert!(hist.set_decay(WEIGHT_ONE).is_err());
    assert_eq!(hist.to_vec(), before);
}

/// A display-range change (new edges) clears the occupancies.
#[test]
fn range_change_clears_bins() {
    let mut hist = histogram_with_edges(4, HALF, vec![10, 20, 30]);
    hist.enqueue(15);
    assert!(hist.index(1) > 0);
    hist.set_edges(vec![100, 200, 300]).unwrap();
    assert_eq!(hist.to_vec(), vec![0, 0, 0, 0]);
    // Refused edges change nothing, including the occupancies.
    hist.enqueue(150);
    let before = hist.to_vec();
    assert!(hist.set_edges(vec![5, 5, 5]).is_err());
    assert_eq!(hist.to_vec(), before);
}

/// A same-count resize clears the occupancies and keeps the edges.
#[test]
fn histogram_same_size_resize_clears() {
    let mut hist = histogram_with_edges(4, HALF, vec![10, 20, 30]);
    hist.enqueue(15);
    assert!(hist.index(1) > 0);
    hist.resize(4).unwrap();
    assert_eq!(hist.to_vec(), vec![0, 0, 0, 0]);
    assert_eq!(hist.find_bin(15), 1); // edges survive a same-count resize
}
