use rust_benchy::config::OutputFormat;
use rust_benchy::metrics::BenchmarkRun;
use rust_benchy::report::{BenchmarkReport, MetricText};

fn metric(mean: &str, std: &str) -> Option<MetricText> {
    Some(MetricText {
        mean: format!("{mean}5"),
        std: format!("{std}5"),
        mean_rounded: mean.to_owned(),
        std_rounded: std.to_owned(),
    })
}

fn run(context_size: usize, is_context_prefill_phase: bool) -> BenchmarkRun<MetricText> {
    BenchmarkRun {
        concurrency: 2,
        context_size,
        prompt_size: 512,
        response_size: 32,
        is_context_prefill_phase,
        pp_throughput: metric("100.00", "1.00"),
        pp_req_throughput: metric("50.00", "2.00"),
        tg_throughput: metric("10.00", "3.00"),
        tg_req_throughput: metric("5.00", "4.00"),
        peak_throughput: metric("12.00", "5.00"),
        peak_req_throughput: metric("6.00", "6.00"),
        ttfr: metric("200.00", "7.00"),
        est_ppt: metric("190.00", "8.00"),
        e2e_ttft: metric("210.00", "9.00"),
    }
}

fn report(max_concurrency: usize, benchmarks: Vec<BenchmarkRun<MetricText>>) -> BenchmarkReport {
    BenchmarkReport {
        version: "0.1.0".to_owned(),
        timestamp: "2026-01-02T03:04:05Z".to_owned(),
        latency_mode: "api".to_owned(),
        latency_ms: "1.50".to_owned(),
        model: "org/m".to_owned(),
        prefix_caching_enabled: false,
        max_concurrency,
        failed_requests: 0,
        benchmarks,
    }
}

const FOOTER: &str =
    "\nrust-benchy 0.1.0 | 2026-01-02T03:04:05Z | latency: api (1.50 ms) | failed requests: 0\n";

#[test]
fn table_of_single_requests() {
    let text = report(1, vec![run(0, false)]).markdown();
    let expected = [
        "| model | test | t/s | peak t/s | ttfr (ms) | est_ppt (ms) | e2e_ttft (ms) |\n",
        "|:--|--:|--:|--:|--:|--:|--:|\n",
        "| org/m | pp512 | 100.00 ± 1.00 |  | 200.00 ± 7.00 | 190.00 ± 8.00 | 210.00 ± 9.00 |\n",
        "| org/m | tg32 | 10.00 ± 3.00 | 12.00 ± 5.00 |  |  |  |\n",
        FOOTER,
    ]
    .concat();
    assert_eq!(text, expected);
}

#[test]
fn table_of_concurrent_requests() {
    let text = report(2, vec![run(4096, true), run(4096, false)]).markdown();
    let expected = [
        "| model | test | t/s (total) | t/s (req) | peak t/s | ttfr (ms) | est_ppt (ms) | e2e_ttft (ms) |\n",
        "|:--|--:|--:|--:|--:|--:|--:|--:|\n",
        "| org/m | ctx_pp @ d4096 (c2) | 100.00 ± 1.00 | 50.00 ± 2.00 |  | 200.00 ± 7.00 | 190.00 ± 8.00 | 210.00 ± 9.00 |\n",
        "| org/m | ctx_tg @ d4096 (c2) | 10.00 ± 3.00 | 5.00 ± 4.00 | 12.00 ± 5.00 |  |  |  |\n",
        "| org/m | pp512 @ d4096 (c2) | 100.00 ± 1.00 | 50.00 ± 2.00 |  | 200.00 ± 7.00 | 190.00 ± 8.00 | 210.00 ± 9.00 |\n",
        "| org/m | tg32 @ d4096 (c2) | 10.00 ± 3.00 | 5.00 ± 4.00 | 12.00 ± 5.00 |  |  |  |\n",
        FOOTER,
    ]
    .concat();
    assert_eq!(text, expected);
}

#[test]
fn nothing_generated_has_no_row() {
    let mut silent = run(0, false);
    silent.tg_throughput = None;
    silent.peak_throughput = None;
    let text = report(1, vec![silent]).markdown();
    assert!(text.contains("pp512"));
    assert!(!text.contains("tg32"));
    let mut burst = run(0, false);
    burst.tg_throughput = None;
    let text = report(1, vec![burst]).markdown();
    assert!(text.contains("| org/m | tg32 |  | 12.00 ± 5.00 |  |  |  |\n"));
}

const NAMES: &str = "model,test,concurrency,t_s_mean,t_s_std,t_s_req_mean,t_s_req_std,peak_t_s_mean,peak_t_s_std,ttfr_ms_mean,ttfr_ms_std,est_ppt_ms_mean,est_ppt_ms_std,e2e_ttft_ms_mean,e2e_ttft_ms_std\n";

#[test]
fn records_hold_unrounded_numbers() {
    let text = report(2, vec![run(8, false)]).csv().unwrap();
    let expected = [
        NAMES,
        "org/m,pp512 @ d8,2,100.005,1.005,50.005,2.005,,,200.005,7.005,190.005,8.005,210.005,9.005\n",
        "org/m,tg32 @ d8,2,10.005,3.005,5.005,4.005,12.005,5.005,,,,,,\n",
    ]
    .concat();
    assert_eq!(text, expected);
    assert_eq!(report(2, vec![]).csv().unwrap(), NAMES);
}

#[test]
fn special_fields_are_quoted() {
    let mut report = report(1, vec![run(0, false)]);
    report.model = "a \"b\", c\nd".to_owned();
    let text = report.csv().unwrap();
    assert!(text.contains("\n\"a \"\"b\"\", c\nd\",pp512,2,"));
    report.model = "x\r".to_owned();
    assert!(report.csv().unwrap().contains("\n\"x\r\",tg32,2,"));
}

#[test]
fn records_can_be_read_back() {
    let mut report = report(1, vec![run(0, false), run(16, true)]);
    report.model = "a \"b\", c\nd".to_owned();
    let text = report.csv().unwrap();
    let mut reader = csv::Reader::from_reader(text.as_bytes());
    let records: Vec<csv::StringRecord> = reader.records().map(|record| record.unwrap()).collect();
    assert_eq!(records.len(), 4);
    for record in &records {
        assert_eq!(record.len(), 15);
        assert_eq!(&record[0], "a \"b\", c\nd");
    }
    assert_eq!(&records[2][1], "ctx_pp @ d16");
    assert_eq!(&records[3][1], "ctx_tg @ d16");
}

#[test]
fn formats() {
    let report = report(1, vec![run(0, false)]);
    assert_eq!(report.write(OutputFormat::Md).unwrap(), Some(report.markdown()));
    assert_eq!(report.write(OutputFormat::Csv).unwrap(), Some(report.csv().unwrap()));
    assert_eq!(report.write(OutputFormat::Json).unwrap(), None);
}
