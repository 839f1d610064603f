use bft_sync::benchmarks::{BenchmarkError, BenchmarkHelper, BenchmarkHelperStore, RequestMeta};

#[test]
fn new_store_is_empty() {
    let bench = BenchmarkHelper::new(16);
    assert_eq!(bench.len(), 0);
    assert_eq!(bench.get(0), None);
    assert_eq!(bench.trimmed(false), (0, 0));
    assert_eq!(bench.trimmed(true), (0, 0));
}

#[test]
fn counts_are_stored_in_order() {
    let mut bench = BenchmarkHelper::new(0);
    5usize.store(&mut bench);
    0usize.store(&mut bench);
    12usize.store(&mut bench);
    assert_eq!(bench.len(), 3);
    assert_eq!(bench.get(0), Some(5));
    assert_eq!(bench.get(1), Some(0));
    assert_eq!(bench.get(2), Some(12));
    assert_eq!(bench.get(3), None);
}

#[test]
fn count_keeps_its_low_63_bits() {
    let mut bench = BenchmarkHelper::new(1);
    usize::MAX.store(&mut bench);
    assert_eq!(bench.get(0), Some((usize::MAX as u64 & i64::MAX as u64) as i64));
    assert!(bench.get(0).unwrap() >= 0);
}

#[test]
fn reset_forgets_the_samples() {
    let mut bench = BenchmarkHelper::new(4);
    1usize.store(&mut bench);
    2usize.store(&mut bench);
    bench.reset();
    assert_eq!(bench.len(), 0);
    3usize.store(&mut bench);
    assert_eq!(bench.get(0), Some(3));
}

#[test]
fn span_is_stored_as_its_length() {
    let mut bench = BenchmarkHelper::new(4);
    assert_eq!(bench.store_span(1_000, 1_250), Ok(()));
    assert_eq!(bench.store_span(7, 7), Ok(()));
    (10u128, 15u128).store(&mut bench);
    assert_eq!(bench.len(), 3);
    assert_eq!(bench.get(0), Some(250));
    assert_eq!(bench.get(1), Some(0));
    assert_eq!(bench.get(2), Some(5));
}

#[test]
fn span_keeps_its_low_63_bits() {
    let mut bench = BenchmarkHelper::new(4);
    assert_eq!(bench.store_span(0, u128::MAX), Ok(()));
    assert_eq!(bench.store_span(0, (1u128 << 63) + 9), Ok(()));
    assert_eq!(bench.get(0), Some(i64::MAX));
    assert_eq!(bench.get(1), Some(9));
}

#[test]
fn non_monotonic_span_is_refused() {
    let mut bench = BenchmarkHelper::new(4);
    assert_eq!(bench.store_span(5, 9), Ok(()));
    assert_eq!(bench.store_span(9, 5), Err(BenchmarkError::NonMonotonicTime));
    assert_eq!(bench.store_span(u128::MAX, 0), Err(BenchmarkError::NonMonotonicTime));
    assert_eq!(bench.len(), 1);
    assert_eq!(bench.get(0), Some(4));
}

#[test]
fn trimmed_total_of_all_samples() {
    let mut bench = BenchmarkHelper::new(4);
    for v in [5usize, 1, 4, 2, 3] {
        v.store(&mut bench);
    }
    assert_eq!(bench.trimmed(false), (15, 5));
    assert_eq!(bench.trimmed(true), (15, 5));
    assert_eq!(bench.get(0), Some(5));
}

#[test]
fn trimmed_total_leaves_out_the_extremes() {
    let mut bench = BenchmarkHelper::new(32);
    let samples = [
        900usize, 3, 7, 1000, 5, 1, 9, 2, 8, 4, 6, 10, 11, 12, 13, 14, 15, 16, 17, 0,
    ];
    for v in samples {
        v.store(&mut bench);
    }
    let all: i128 = samples.iter().map(|v| *v as i128).sum();
    assert_eq!(bench.trimmed(false), (all, 20));
    assert_eq!(bench.trimmed(true), (all - 1000 - 900 - 0 - 1, 16));
}

#[test]
fn trimmed_total_does_not_overflow() {
    let mut bench = BenchmarkHelper::new(3);
    for _ in 0..3 {
        assert_eq!(bench.store_span(0, i64::MAX as u128), Ok(()));
    }
    assert_eq!(bench.trimmed(false), (3 * (i64::MAX as i128), 3));
}

#[test]
fn request_meta_holds_four_times() {
    let meta = RequestMeta {
        reception_time: 1,
        consensus_start_time: 2,
        consensus_decision_time: 3,
        execution_time: 4,
    };
    let copy = meta;
    assert_eq!(copy, meta);
    assert_eq!(meta.execution_time - meta.reception_time, 3);
}
