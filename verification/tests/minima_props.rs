use cyma::minima_buffer::MinimaBuffer;
use cyma::samples::WEIGHT_ONE;

// A decay weight of WEIGHT_ONE / 2 stands for 0.5.
const HALF: u64 = WEIGHT_ONE / 2;

/// A rising minimum releases exponentially: with minima 1000 then
/// 2000, the second committed value falls strictly between them.
#[test]
fn rising_minimum_releases_gradually() {
    // 4 values over 1000 ms at 8 Hz: one slice spans 2 samples.
    let mut env = MinimaBuffer::new(4, 1000, HALF);
    env.set_sample_rate(8);
    for v in [1000i64, 1000, 2000, 2000, 9999] {
        env.enqueue(v);
    }
    assert_eq!(env.len(), 2);
    // The first slice blends its minimum 1000 with the empty buffer's
    // default 0: (0 + 1000) / 2 = 500.
    let first = env.index(0);
    assert_eq!(first, 500);
    // The second slice's minimum 2000 exceeds 500, so the commit is
    // the blend (500 + 2000) / 2 = 1250: strictly between the two.
    let second = env.index(1);
    assert_eq!(second, 1250);
    assert!(first < second && second < 2000);
}

/// A falling minimum attacks instantly: it is committed as it stands.
#[test]
fn falling_minimum_commits_directly() {
    let mut env = MinimaBuffer::new(4, 1000, HALF);
    env.set_sample_rate(8);
    for v in [2000i64, 2000, 100, 100, 9999] {
        env.enqueue(v);
    }
    assert_eq!(env.len(), 2);
    assert_eq!(env.index(0), 1000); // blend of default 0 and 2000
    assert_eq!(env.index(1), 100); // 100 < 1000: committed directly
}

/// Samples are folded in by magnitude: a negative sample counts as its
/// absolute value.
#[test]
fn minima_take_absolute_values() {
    let mut env = MinimaBuffer::new(4, 1000, HALF);
    env.set_sample_rate(8);
    for v in [-2000i64, 2000, -100, 100, 9999] {
        env.enqueue(v);
    }
    assert_eq!(env.index(1), 100);
}

/// Without a channel, each frame is downmixed to its mean.
#[test]
fn minima_block_downmix() {
    let mut env = MinimaBuffer::new(4, 1000, HALF);
    env.set_sample_rate(8);
    let block: Vec<Vec<i64>> = vec![
        vec![1000, 1000, 2000, 2000, 9999],
        vec![1000, 1000, 2000, 2000, 9999],
    ];
    env.enqueue_buffer(&block, None);
    assert_eq!(env.len(), 2);
    assert_eq!(env.index(0), 500);
    assert_eq!(env.index(1), 1250);
}

/// Clear resets every committed value to 0 and keeps the length.
#[test]
fn minima_clear_keeps_length() {
    let mut env = MinimaBuffer::new(4, 1000, HALF);
    env.set_sample_rate(8);
    for v in [1000i64, 1000, 2000, 2000, 9999] {
        env.enqueue(v);
    }
    let len_before = env.len();
    env.clear();
    assert_eq!(env.len(), len_before);
    for i in 0..env.len() {
        assert_eq!(env.index(i), 0);
    }
}

/// Grow then shrink to the same capacity leaves an empty buffer of
/// that capacity, matching a fresh construction.
#[test]
fn minima_grow_shrink_matches_fresh() {
    let mut env = MinimaBuffer::new(4, 1000, HALF);
    env.set_sample_rate(1000);
    for v in [1000i64, 1000, 2000, 2000, 9999] {
        env.enqueue(v);
    }
    env.grow(8);
    env.shrink(8);
    let fresh = MinimaBuffer::new(8, 1000, HALF);
    assert_eq!(env.len(), fresh.len());
    assert_eq!(env.len(), 0);
}

/// A decay-time change clears the committed values: summaries
/// gathered under another decay are stale.
#[test]
fn decay_change_clears_values() {
    let mut env = MinimaBuffer::new(4, 1000, HALF);
    env.set_sample_rate(8);
    for v in [1000i64, 1000, 2000, 2000, 9999] {
        env.enqueue(v);
    }
    assert_eq!(env.len(), 2);
    env.set_decay(WEIGHT_ONE / 4);
    assert_eq!(env.len(), 2);
    for i in 0..env.len() {
        assert_eq!(env.index(i), 0);
    }
}

/// A same-size resize clears too: resize always drops the summary.
#[test]
fn minima_same_size_resize_clears() {
    let mut env = MinimaBuffer::new(4, 1000, HALF);
    env.set_sample_rate(8);
    for v in [1000i64, 1000, 2000, 2000, 9999] {
        env.enqueue(v);
    }
    assert_eq!(env.len(), 2);
    env.grow(4);
    assert_eq!(env.len(), 0);
}
