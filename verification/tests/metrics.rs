use rust_benchy::client::RequestResult;
use rust_benchy::clock::{ticks, TICKS_PER_SECOND};
use rust_benchy::metrics::{
    aggregate, count_after_first, credit, peak_throughput, BenchmarkMetric, BenchmarkShape, Sample,
};

const TENTH: u128 = TICKS_PER_SECOND / 10;

fn mean(metric: &BenchmarkMetric) -> f64 {
    let sum: f64 = metric
        .values
        .iter()
        .map(|value| value.amount as f64 * metric.multiplier as f64 / value.per as f64)
        .sum();
    sum / metric.values.len() as f64
}

/// Times are in tenths of a second.
fn result(timestamps: Vec<u128>) -> RequestResult {
    RequestResult {
        start_ts: 0,
        end_ts: 14 * TENTH,
        first_response_ts: Some(10 * TENTH),
        first_token_ts: Some(10 * TENTH),
        prompt_tokens: 100,
        total_tokens: timestamps.len(),
        token_timestamps: timestamps.into_iter().map(|time| time * TENTH).collect(),
    }
}

fn shape(concurrency: usize, generated_tokens: usize) -> BenchmarkShape {
    BenchmarkShape {
        prompt_tokens: 100,
        generated_tokens,
        context_tokens: 0,
        concurrency,
        expected_prompt_tokens: 100,
        is_context_phase: false,
    }
}

#[test]
fn decode_rate_excludes_first_timestamp() {
    let run = aggregate(shape(1, 4), &vec![vec![result(vec![10, 11, 12, 13])]], 0);
    assert!((mean(&run.tg_throughput.unwrap()) - 10.0).abs() < 1e-8);
}

#[test]
fn burst_has_no_decode_rate() {
    let run = aggregate(shape(1, 3), &vec![vec![result(vec![10, 10, 10])]], 0);
    assert!(run.tg_throughput.is_none());
    assert_eq!(mean(&run.peak_throughput.unwrap()), 3.0);
}

#[test]
fn burst_batches_have_no_decode_rate() {
    let batches = vec![
        vec![result(vec![10, 10]), result(vec![11, 11, 11])],
        vec![result(vec![12]), result(vec![])],
    ];
    let run = aggregate(shape(2, 3), &batches, 0);
    assert!(run.tg_throughput.is_none());
    assert!(run.tg_req_throughput.is_none());
}

#[test]
fn prompt_rate_leaves_out_the_latency() {
    let run = aggregate(shape(1, 4), &vec![vec![result(vec![10, 11])]], 2 * TENTH);
    assert!((mean(&run.ttfr.unwrap()) - 1000.0).abs() < 1e-8);
    assert!((mean(&run.est_ppt.unwrap()) - 800.0).abs() < 1e-8);
    assert!((mean(&run.e2e_ttft.unwrap()) - 1000.0).abs() < 1e-8);
    assert!((mean(&run.pp_throughput.unwrap()) - 125.0).abs() < 1e-8);
    assert!((mean(&run.pp_req_throughput.unwrap()) - 125.0).abs() < 1e-8);
}

#[test]
fn latency_above_the_response_time_gives_no_prompt_rate() {
    let run = aggregate(shape(1, 4), &vec![vec![result(vec![10, 11])]], 11 * TENTH);
    assert!((mean(&run.est_ppt.unwrap())).abs() < 1e-12);
    assert!(run.pp_throughput.is_none());
}

#[test]
fn concurrent_requests_are_also_rated_together() {
    let mut late = result(vec![12, 13, 14]);
    late.start_ts = 2 * TENTH;
    late.first_response_ts = Some(12 * TENTH);
    late.first_token_ts = Some(12 * TENTH);
    let run = aggregate(shape(2, 3), &vec![vec![result(vec![10, 11, 12]), late]], 0);
    // 200 tokens from 0.0 to 1.2, four more from 1.0 to 1.4.
    assert!((mean(&run.pp_throughput.unwrap()) - 200.0 / 1.2).abs() < 1e-8);
    assert!((mean(&run.tg_throughput.unwrap()) - 10.0).abs() < 1e-8);
    assert!((mean(&run.pp_req_throughput.unwrap()) - 100.0).abs() < 1e-8);
    assert!((mean(&run.tg_req_throughput.unwrap()) - 10.0).abs() < 1e-8);
    // Six tokens within a second.
    assert!((mean(&run.peak_throughput.unwrap()) - 6.0).abs() < 1e-8);
    assert_eq!(run.peak_req_throughput.unwrap().values.len(), 2);
}

#[test]
fn single_requests_are_not_rated_by_batch() {
    let batches = vec![
        vec![result(vec![10, 11, 12])],
        vec![result(vec![10, 12, 14])],
    ];
    let run = aggregate(shape(1, 3), &batches, 0);
    let rates = run.tg_throughput.unwrap();
    assert_eq!(
        rates.values,
        vec![
            Sample { amount: 2, per: 2 * TENTH },
            Sample { amount: 2, per: 4 * TENTH },
        ]
    );
    assert_eq!(rates.multiplier, TICKS_PER_SECOND);
}

#[test]
fn nothing_measured_leaves_everything_blank() {
    let mut silent = result(vec![]);
    silent.first_response_ts = None;
    silent.first_token_ts = None;
    for batches in [vec![], vec![vec![]], vec![vec![silent]]] {
        let run = aggregate(shape(1, 3), &batches, 0);
        assert!(run.pp_throughput.is_none());
        assert!(run.tg_throughput.is_none());
        assert!(run.peak_throughput.is_none());
        assert!(run.ttfr.is_none());
        assert!(run.est_ppt.is_none());
        assert!(run.e2e_ttft.is_none());
        assert_eq!(run.prompt_size, 100);
        assert_eq!(run.response_size, 3);
    }
}

#[test]
fn reported_tokens_count_within_a_fifth() {
    assert_eq!(credit(119, 100, true), 119);
    assert_eq!(credit(81, 100, true), 81);
    assert_eq!(credit(120, 100, true), 100);
    assert_eq!(credit(80, 100, true), 100);
    assert_eq!(credit(0, 100, true), 100);
    assert_eq!(credit(5, 0, true), 0);
    assert_eq!(credit(usize::MAX, 1, true), 1);
    assert_eq!(credit(119, 100, false), 100);
}

#[test]
fn peak_is_the_busiest_second() {
    let times: Vec<u128> = vec![30, 0, 31, 9, 10, 32, 38, 60]
        .into_iter()
        .map(|time| time * TENTH)
        .collect();
    // 3.0, 3.1, 3.2 and 3.8 lie within a second.
    assert_eq!(
        peak_throughput(&times, TICKS_PER_SECOND),
        Sample { amount: 4, per: TICKS_PER_SECOND }
    );
}

#[test]
fn peak_of_a_short_answer_is_its_token_count() {
    let times = vec![10 * TENTH, 15 * TENTH];
    assert_eq!(
        peak_throughput(&times, TICKS_PER_SECOND),
        Sample { amount: 2, per: TICKS_PER_SECOND }
    );
}

fn cached(context_tokens: usize, expected_prompt_tokens: usize, is_context_phase: bool) -> f64 {
    let shape = BenchmarkShape {
        prompt_tokens: 1000,
        generated_tokens: 1,
        context_tokens,
        concurrency: 1,
        expected_prompt_tokens,
        is_context_phase,
    };
    let mut result = result(vec![10]);
    result.end_ts = 10 * TENTH;
    result.prompt_tokens = 1100;
    mean(&aggregate(shape, &vec![vec![result]], 0).pp_throughput.unwrap())
}

#[test]
fn cached_context_is_not_credited() {
    assert_eq!(cached(100, 1000, false), 1000.0);
}

#[test]
fn reported_tokens_count_in_other_phases() {
    assert_eq!(cached(0, 1000, false), 1100.0);
    assert_eq!(cached(200, 1200, false), 1100.0);
    assert_eq!(cached(1000, 1000, true), 1100.0);
}

#[test]
fn peak_windows_leave_out_their_begin() {
    let times = vec![0, TICKS_PER_SECOND];
    assert_eq!(
        peak_throughput(&times, TICKS_PER_SECOND),
        Sample { amount: 1, per: TICKS_PER_SECOND }
    );
    assert_eq!(
        peak_throughput(&vec![], TICKS_PER_SECOND),
        Sample { amount: 0, per: TICKS_PER_SECOND }
    );
}

#[test]
fn no_window_is_busier_than_the_peak() {
    let times: Vec<u128> = vec![3, 1, 17, 4, 15, 9, 26, 5, 35, 8, 33, 14]
        .into_iter()
        .map(|time| time * TENTH)
        .collect();
    let peak = peak_throughput(&times, TICKS_PER_SECOND).amount as usize;
    let mut busiest = 0;
    for end in 0..50 {
        let end = end * TENTH;
        let held = times
            .iter()
            .filter(|time| **time <= end && end - **time < TICKS_PER_SECOND)
            .count();
        assert!(held <= peak);
        busiest = busiest.max(held);
    }
    assert_eq!(busiest, peak);
}

#[test]
fn later_timestamps_are_counted() {
    assert_eq!(count_after_first(&vec![]), 0);
    assert_eq!(count_after_first(&vec![5]), 0);
    assert_eq!(count_after_first(&vec![5, 5, 6, 4, 9]), 2);
}

#[test]
fn metric_needs_a_value() {
    assert!(BenchmarkMetric::new(vec![], 1000).is_none());
    let metric = BenchmarkMetric::new(vec![Sample { amount: 1, per: 4 }], 1000).unwrap();
    assert!((mean(&metric) - 250.0).abs() < 1e-12);
}

#[test]
fn ticks_are_attoseconds() {
    assert_eq!(ticks(1, 5), 1_000_000_005_000_000_000);
    assert_eq!(
        ticks(u64::MAX, 999_999_999),
        18_446_744_073_709_551_615_999_999_999_000_000_000
    );
}
