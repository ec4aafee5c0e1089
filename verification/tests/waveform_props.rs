use cyma::samples::AMP_LIMIT;
use cyma::waveform_buffer::WaveformBuffer;

// Amplitudes are plain fixed-point integers; these tests use a scale
// where 1000 stands for a full-scale 1.0.

/// A constant signal sustained for a whole slice commits the pair
/// `(v, v)`.
#[test]
fn constant_signal_commits_equal_pair() {
    // 10 slices over 1000 ms at 40 Hz: one slice spans 4 samples.
    let mut wave = WaveformBuffer::new(10, 1000);
    wave.set_sample_rate(40);
    // The very first sample closes the initial, empty slice, which
    // commits the idle accumulator pair.
    for _ in 0..5 {
        wave.enqueue(7000);
    }
    assert_eq!(wave.len(), 2);
    assert_eq!(wave.index(0), (AMP_LIMIT, -AMP_LIMIT));
    assert_eq!(wave.index(1), (7000, 7000));
}

/// A slice holding -1.0, 0.5, 0.3, -0.2 commits the pair (-1.0, 0.5).
#[test]
fn mixed_slice_commits_min_max() {
    let mut wave = WaveformBuffer::new(10, 1000);
    wave.set_sample_rate(40);
    for v in [-1000i64, 500, 300, -200, 0] {
        wave.enqueue(v);
    }
    assert_eq!(wave.len(), 2);
    assert_eq!(wave.index(1), (-1000, 500));
}

/// Ingesting a block with an explicit channel reads that channel only.
#[test]
fn block_with_channel_selection() {
    let mut wave = WaveformBuffer::new(10, 1000);
    wave.set_sample_rate(40);
    let block: Vec<Vec<i64>> = vec![vec![1, 2, 3, 4, 5], vec![-1000, 500, 300, -200, 0]];
    wave.enqueue_buffer(&block, Some(1));
    assert_eq!(wave.len(), 2);
    assert_eq!(wave.index(1), (-1000, 500));
}

/// Without a channel, each frame is downmixed to the mean across
/// channels, rounded toward negative infinity.
#[test]
fn block_downmix_takes_floored_mean() {
    // 2 slices over 1000 ms at 2 Hz: one slice spans 1 sample, so
    // every enqueue commits the previous sample.
    let mut wave = WaveformBuffer::new(2, 1000);
    wave.set_sample_rate(2);
    let block: Vec<Vec<i64>> = vec![vec![-3, 9], vec![-4, 9]];
    wave.enqueue_buffer(&block, None);
    assert_eq!(wave.len(), 2);
    // mean(-3, -4) rounds toward negative infinity: -4.
    assert_eq!(wave.index(1), (-4, -4));
}

/// Clear resets every committed slice to the default pair and keeps
/// the length.
#[test]
fn waveform_clear_keeps_length() {
    let mut wave = WaveformBuffer::new(10, 1000);
    wave.set_sample_rate(40);
    for v in [-1000i64, 500, 300, -200, 0] {
        wave.enqueue(v);
    }
    let len_before = wave.len();
    wave.clear();
    assert_eq!(wave.len(), len_before);
    for i in 0..wave.len() {
        assert_eq!(wave.index(i), (0, 0));
    }
}

/// Grow then shrink to the same capacity leaves an empty buffer of
/// that capacity, matching a fresh construction.
#[test]
fn waveform_grow_shrink_matches_fresh() {
    let mut wave = WaveformBuffer::new(10, 1000);
    wave.set_sample_rate(1000);
    for v in [-1000i64, 500, 300, -200, 0] {
        wave.enqueue(v);
    }
    wave.grow(20);
    wave.shrink(20);
    let fresh = WaveformBuffer::new(20, 1000);
    assert_eq!(wave.len(), fresh.len());
    assert_eq!(wave.len(), 0);
}

/// A same-size resize clears too: resize always drops the summary.
#[test]
fn waveform_same_size_resize_clears() {
    let mut wave = WaveformBuffer::new(10, 1000);
    wave.set_sample_rate(40);
    for v in [-1000i64, 500, 300, -200, 0] {
        wave.enqueue(v);
    }
    assert_eq!(wave.len(), 2);
    wave.grow(10);
    assert_eq!(wave.len(), 0);
}
