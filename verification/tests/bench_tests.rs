use thyme::bench::{max_nanos, run, start, sum_fits, total_nanos, BenchSet, Unit};

#[test]
fn a_timing_is_recorded_under_its_tag() {
    let mut bench = BenchSet::new();
    assert_eq!(bench.len(), 0);
    let handle = start(&mut bench, "frame");
    handle.end(&mut bench);
    assert_eq!(bench.len(), 1);
    let index = bench.find("frame").unwrap();
    assert_eq!(bench.get(index).tag(), "frame");
    assert_eq!(bench.get(index).history_len(), 1);
    assert_eq!(bench.find("draw"), None);
}

#[test]
fn timings_with_the_same_tag_share_a_benchmark() {
    let mut bench = BenchSet::new();
    for _ in 0..3 {
        let handle = start(&mut bench, "layout");
        handle.end(&mut bench);
    }
    let other = start(&mut bench, "render");
    other.end(&mut bench);
    assert_eq!(bench.len(), 2);
    assert_eq!(bench.get(bench.find("layout").unwrap()).history_len(), 3);
    assert_eq!(bench.get(bench.find("render").unwrap()).history_len(), 1);
}

#[test]
fn run_times_a_block_and_returns_its_value() {
    let mut bench = BenchSet::new();
    let value = run(&mut bench, "compute", || 6 * 7);
    assert_eq!(value, 42);
    assert_eq!(bench.get(bench.find("compute").unwrap()).history_len(), 1);
}

#[test]
fn recent_timings_come_most_recent_first() {
    let mut bench = BenchSet::new();
    for _ in 0..4 {
        let handle = start(&mut bench, "t");
        handle.end(&mut bench);
    }
    let b = bench.get(0);
    assert_eq!(b.recent(None).len(), 4);
    assert_eq!(b.recent(Some(2)).len(), 2);
    assert_eq!(b.recent(Some(10)).len(), 4);
    assert_eq!(b.recent(Some(0)).len(), 0);
}

#[test]
fn timings_are_summed_and_compared() {
    let samples: Vec<u128> = vec![5, 12, 3];
    assert!(sum_fits(&samples));
    assert_eq!(total_nanos(&samples), 20);
    assert_eq!(max_nanos(&samples), 12);
    assert_eq!(max_nanos(&Vec::new()), 0);
    assert_eq!(total_nanos(&Vec::new()), 0);
    assert!(!sum_fits(&vec![u128::MAX, 1]));
}

#[test]
fn units_have_their_postfix() {
    assert_eq!(Unit::Seconds.postfix(), "s");
    assert_eq!(Unit::Millis.postfix(), "ms");
    assert_eq!(Unit::Micros.postfix(), "µs");
}

#[test]
fn ending_a_benchmark_that_is_not_running_records_zero() {
    let mut bench = BenchSet::new();
    let first = start(&mut bench, "frame");
    let second = start(&mut bench, "frame");
    first.end(&mut bench);
    second.end(&mut bench);
    let b = bench.get(bench.find("frame").unwrap());
    assert_eq!(b.history_len(), 2);
    assert_eq!(b.recent(Some(1)), vec![0]);
}

#[test]
fn a_recorded_timing_is_appended_and_stops_the_benchmark() {
    let mut bench = BenchSet::new();
    let handle = start(&mut bench, "draw");
    let index = handle.position();
    bench.record(index, 123);
    bench.record(index, 7);
    assert_eq!(bench.get(index).recent(None), vec![7, 123]);
    handle.end(&mut bench);
    assert_eq!(bench.get(index).recent(Some(1)), vec![0]);
}
