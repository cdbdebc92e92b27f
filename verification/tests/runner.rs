use rust_benchy::client::{LlmClient, RequestResult};
use rust_benchy::clock::TICKS_PER_SECOND;
use rust_benchy::config::{BenchmarkConfig, LatencyMode, OutputFormat};
use rust_benchy::corpus::Corpus;
use rust_benchy::error::Error;
use rust_benchy::json::{Json, JsonMap};
use rust_benchy::prompt::{Calibration, PromptGenerator};
use rust_benchy::runner::{
    calibration_samples, check_command, check_failed, check_report, context_prompts, execute_batch,
    handle_failures, max_concurrency, preparation, run, BatchOutcome, Stage, Suite,
};

fn config() -> BenchmarkConfig {
    BenchmarkConfig {
        base_url: "http://host/v1".to_owned(),
        api_key: "EMPTY".to_owned(),
        model: "test-model".to_owned(),
        served_model_name: "test-model".to_owned(),
        pp_counts: vec![16],
        tg_counts: vec![4],
        depths: vec![0],
        concurrency_levels: vec![2],
        num_runs: 1,
        warmup_runs: 0,
        exact_tg: false,
        no_cache: false,
        enable_prefix_caching: false,
        latency_mode: LatencyMode::Disabled,
        no_warmup: true,
        adapt_prompt: true,
        skip_coherence: true,
        prompt_file: None,
        book_url: String::new(),
        post_run_cmd: None,
        extra_body: JsonMap::new(),
        exit_on_first_fail: false,
        no_results_on_fail: false,
        save_result: None,
        output_format: OutputFormat::Json,
        timeout: 5,
    }
}

fn result() -> RequestResult {
    RequestResult {
        start_ts: 0,
        end_ts: 4,
        first_token_ts: Some(1),
        first_response_ts: Some(1),
        prompt_tokens: 16,
        total_tokens: 2,
        token_timestamps: vec![1, 3],
    }
}

fn outcome(results: usize, errors: usize) -> BatchOutcome {
    BatchOutcome {
        results: (0..results).map(|_| result()).collect(),
        errors: (0..errors)
            .map(|i| Error::Config(format!("failure {i}")))
            .collect(),
    }
}

fn prompts(count: usize) -> Vec<(String, String)> {
    (0..count)
        .map(|i| (format!("context {i}"), format!("prompt {i}")))
        .collect()
}

/// Runs the suite with batches that succeed and returns what was done.
fn drive(suite: &mut Suite) -> Vec<String> {
    let mut steps = Vec::new();
    loop {
        match suite.stage {
            Stage::Prepare => {
                let test = suite.test();
                steps.push(format!(
                    "{} {}/{}/{}/{}",
                    suite.run_label(),
                    test.depth,
                    test.pp,
                    test.tg,
                    test.concurrency
                ));
                suite.prepared(prompts(test.concurrency));
            }
            Stage::ContextLoad => {
                steps.push("load".to_owned());
                suite.requested(outcome(suite.asks().len(), 0)).unwrap();
            }
            Stage::Inference => {
                steps.push("ask".to_owned());
                suite.requested(outcome(suite.asks().len(), 0)).unwrap();
            }
            Stage::PostRun => {
                steps.push("command".to_owned());
                suite.commanded();
            }
            Stage::Conclude => {
                assert!(suite.is_countable());
                steps.push(format!(
                    "conclude {} {}",
                    suite.standard_batches.len(),
                    suite.context_batches.len()
                ));
                suite.conclude();
            }
            Stage::Finished => return steps,
        }
    }
}

#[test]
fn shapes_come_in_the_order_of_the_lists() {
    let mut config = config();
    config.depths = vec![0, 7];
    config.pp_counts = vec![1, 2];
    config.tg_counts = vec![3];
    config.concurrency_levels = vec![1, 4];
    let mut suite = run(&config, 0);
    drive(&mut suite);
    let order: Vec<(usize, usize, usize)> = suite
        .benchmarks
        .iter()
        .map(|run| (run.context_size, run.prompt_size, run.concurrency))
        .collect();
    assert_eq!(
        order,
        vec![
            (0, 1, 1),
            (0, 1, 4),
            (0, 2, 1),
            (0, 2, 4),
            (7, 1, 1),
            (7, 1, 4),
            (7, 2, 1),
            (7, 2, 4),
        ]
    );
}

#[test]
fn warmups_come_first_and_are_discarded() {
    let mut config = config();
    config.no_warmup = false;
    config.warmup_runs = 1;
    config.num_runs = 2;
    config.post_run_cmd = Some("true".to_owned());
    let mut suite = run(&config, 0);
    assert_eq!(suite.test_line(), "Test pp=16, tg=4, depth=0, concurrency=2");
    assert_eq!(
        drive(&mut suite),
        vec![
            "warmup 1/1 0/16/4/2",
            "ask",
            "command",
            "run 1/2 0/16/4/2",
            "ask",
            "command",
            "run 2/2 0/16/4/2",
            "ask",
            "command",
            "conclude 2 0",
        ]
    );
    assert_eq!(suite.benchmarks.len(), 1);
    assert_eq!(suite.benchmarks[0].ttfr.as_ref().unwrap().values.len(), 4);
}

#[test]
fn contexts_are_loaded_before_they_are_used() {
    let mut config = config();
    config.enable_prefix_caching = true;
    config.depths = vec![0, 32];
    let mut suite = run(&config, 0);
    assert_eq!(
        drive(&mut suite),
        vec![
            "run 1/1 0/16/4/2",
            "ask",
            "conclude 1 0",
            "run 1/1 32/16/4/2",
            "load",
            "ask",
            "conclude 1 1",
        ]
    );
    let phases: Vec<(usize, bool)> = suite
        .benchmarks
        .iter()
        .map(|run| (run.context_size, run.is_context_prefill_phase))
        .collect();
    assert_eq!(phases, vec![(0, false), (32, true), (32, false)]);
}

#[test]
fn expected_tokens_depend_on_the_phase() {
    // The endpoint reports 16 tokens. That is plausible for the prompt alone, but
    // neither for the context of 100 tokens nor for both together.
    let mut config = config();
    config.depths = vec![100];
    config.concurrency_levels = vec![1];
    let mut suite = run(&config, 0);
    drive(&mut suite);
    let credited = |suite: &Suite, at: usize| suite.benchmarks[at].pp_req_throughput.as_ref().unwrap().values[0].amount;
    assert_eq!(credited(&suite, 0), 116);
    config.enable_prefix_caching = true;
    let mut suite = run(&config, 0);
    drive(&mut suite);
    assert_eq!(credited(&suite, 0), 100);
    assert_eq!(credited(&suite, 1), 16);
}

#[test]
fn nothing_to_test_finishes_at_once() {
    let mut config = config();
    config.depths = vec![];
    assert_eq!(run(&config, 0).stage, Stage::Finished);
    let mut config = self::config();
    config.num_runs = 0;
    let mut suite = run(&config, 0);
    assert_eq!(drive(&mut suite), vec!["conclude 0 0"]);
    assert!(suite.benchmarks[0].ttfr.is_none());
}

#[test]
fn failures_are_counted() {
    let mut config = config();
    config.concurrency_levels = vec![3];
    let mut suite = run(&config, 0);
    suite.prepared(prompts(3));
    suite.requested(outcome(1, 2)).unwrap();
    assert_eq!(suite.failed_requests, 2);
    assert_eq!(suite.stage, Stage::Conclude);
    assert_eq!(suite.standard_batches[0].len(), 1);
}

#[test]
fn first_failure_ends_the_benchmark_if_wanted() {
    let mut config = config();
    config.exit_on_first_fail = true;
    config.concurrency_levels = vec![3];
    let mut suite = run(&config, 0);
    suite.prepared(prompts(3));
    let error = suite.requested(outcome(1, 2)).unwrap_err();
    assert_eq!(
        error.message(),
        "benchmark request failed: invalid configuration: failure 0"
    );
    assert_eq!(suite.failed_requests, 0);
    assert!(suite.standard_batches.is_empty());
    suite.requested(outcome(3, 0)).unwrap();
}

#[test]
fn too_many_tokens_cannot_be_counted() {
    let mut config = config();
    config.depths = vec![usize::MAX];
    let suite = run(&config, 0);
    assert!(!suite.is_countable());
    config.enable_prefix_caching = true;
    assert!(run(&config, 0).is_countable());
}

#[test]
fn answers_are_sorted() {
    let answers = vec![
        Ok(result()),
        Err(Error::Interrupted),
        Ok(result()),
        Err(Error::Config("x".to_owned())),
    ];
    let outcome = execute_batch(answers);
    assert_eq!(outcome.results.len(), 2);
    assert!(matches!(outcome.errors[0], Error::Interrupted));
    assert!(matches!(&outcome.errors[1], Error::Config(text) if text == "x"));
    assert_eq!(handle_failures(&outcome.errors, false).unwrap(), 2);
    assert_eq!(
        handle_failures(&outcome.errors, true).unwrap_err().message(),
        "benchmark request failed: benchmark was interrupted"
    );
    assert_eq!(handle_failures(&vec![], true).unwrap(), 0);
}

#[test]
fn commands_must_succeed() {
    assert!(check_command("true", true, "exit status: 0").is_ok());
    assert_eq!(
        check_command("false", false, "exit status: 1").unwrap_err().message(),
        "post-run command failed with status exit status: 1: false"
    );
}

#[test]
fn failed_requests_fail_the_benchmark() {
    assert!(check_report(true, 0).is_ok());
    assert!(check_report(false, 3).is_ok());
    assert_eq!(
        check_report(true, 3).unwrap_err().message(),
        "benchmark request failed: 3 request(s) failed; report suppressed by --no-results-on-fail"
    );
    assert!(check_failed(0).is_ok());
    assert_eq!(
        check_failed(12).unwrap_err().message(),
        "benchmark request failed: 12 request(s) failed"
    );
}

#[test]
fn cached_prompts_are_rated_by_their_target() {
    // 16 tokens are reported for a target of 15, which is plausible.
    let mut config = config();
    config.depths = vec![100];
    config.pp_counts = vec![15];
    config.concurrency_levels = vec![1];
    config.enable_prefix_caching = true;
    let mut suite = run(&config, 0);
    drive(&mut suite);
    let amount = |at: usize| suite.benchmarks[at].pp_throughput.as_ref().unwrap().values[0].amount;
    assert_eq!(amount(1), 15);
    config.depths = vec![0];
    let mut suite = run(&config, 0);
    drive(&mut suite);
    assert_eq!(suite.benchmarks[0].pp_throughput.as_ref().unwrap().values[0].amount, 16);
}

fn failing_suite(failures: usize) -> Suite {
    let mut config = config();
    config.concurrency_levels = vec![2 + failures];
    let mut suite = run(&config, 0);
    suite.prepared(prompts(2 + failures));
    suite.requested(outcome(2, failures)).unwrap();
    suite.conclude();
    assert_eq!(suite.stage, Stage::Finished);
    suite
}

#[test]
fn benchmarks_end_with_a_report() {
    for no_results_on_fail in [false, true] {
        let ending = failing_suite(0).finish(no_results_on_fail);
        assert!(ending.outcome.is_ok());
        let report = ending.report.unwrap();
        assert_eq!(report.failed_requests, 0);
        assert_eq!(report.max_concurrency, 2);
        assert!(!report.prefix_caching_enabled);
        assert_eq!(report.benchmarks.len(), 1);
    }
}

#[test]
fn failed_benchmarks_end_with_an_error() {
    let ending = failing_suite(3).finish(false);
    assert_eq!(ending.report.unwrap().failed_requests, 3);
    assert_eq!(
        ending.outcome.unwrap_err().message(),
        "benchmark request failed: 3 request(s) failed"
    );
    let ending = failing_suite(3).finish(true);
    assert!(ending.report.is_none());
    assert_eq!(
        ending.outcome.unwrap_err().message(),
        "benchmark request failed: 3 request(s) failed; report suppressed by --no-results-on-fail"
    );
}

#[test]
fn preparation_follows_the_options() {
    let mut config = config();
    config.warmup_runs = 4;
    let before = preparation(&config);
    assert!(!before.calibrate);
    assert!(!before.check_coherence);
    assert_eq!(before.latency_warmups, 0);
    config.no_warmup = false;
    config.skip_coherence = false;
    let before = preparation(&config);
    assert!(before.calibrate);
    assert!(before.check_coherence);
    assert_eq!(before.latency_warmups, 4);
    let corpus = Corpus::load("abc".to_owned()).unwrap();
    let (short, long) = calibration_samples(&corpus);
    assert_eq!(short.len(), 512);
    assert_eq!(long.len(), 8192);
    assert!(long.starts_with(&short));
}

#[test]
fn contexts_are_loaded_with_nothing_to_ask() {
    let prompts = vec![
        ("one".to_owned(), "ask".to_owned()),
        ("two".to_owned(), "tell".to_owned()),
    ];
    assert_eq!(
        context_prompts(&prompts),
        vec![
            ("one".to_owned(), ".".to_owned()),
            ("two".to_owned(), ".".to_owned()),
        ]
    );
}

#[test]
fn prompts_are_asked_behind_the_loaded_contexts() {
    let mut config = config();
    config.enable_prefix_caching = true;
    config.depths = vec![32];
    let mut suite = run(&config, 0);
    suite.prepared(prompts(2));
    assert_eq!(suite.stage, Stage::ContextLoad);
    assert_eq!(
        suite.asks(),
        vec![
            ("context 0".to_owned(), ".".to_owned()),
            ("context 1".to_owned(), ".".to_owned()),
        ]
    );
    suite.requested(outcome(2, 0)).unwrap();
    assert_eq!(suite.stage, Stage::Inference);
    assert_eq!(suite.asks(), prompts(2));
}

#[test]
fn every_batch_makes_its_requests() {
    let mut config = config();
    config.no_warmup = false;
    config.warmup_runs = 2;
    config.num_runs = 3;
    config.concurrency_levels = vec![4];
    config.depths = vec![0, 8];
    config.enable_prefix_caching = true;
    config.post_run_cmd = Some("true".to_owned());
    let mut suite = run(&config, 0);
    let steps = drive(&mut suite);
    let count = |name: &str| steps.iter().filter(|step| step.as_str() == name).count();
    assert_eq!(count("ask"), 10);
    assert_eq!(count("load"), 5);
    assert_eq!(count("command"), 10);
    for report in &suite.benchmarks {
        assert_eq!(report.ttfr.as_ref().unwrap().values.len(), 12);
        assert_eq!(report.peak_throughput.as_ref().unwrap().values.len(), 3);
    }
}

#[test]
fn generated_prompts_fit_the_test() {
    let corpus = Corpus::load("abcdefghijklmnopqrstuvwxyz".repeat(20)).unwrap();
    let generator = PromptGenerator::new(corpus, Calibration::default(), true);
    let mut config = config();
    config.depths = vec![8];
    let mut suite = run(&config, 0);
    suite.prepare(&generator, false);
    let asked = suite.asks();
    assert_eq!(asked.len(), 2);
    for (context, prompt) in asked {
        assert_eq!(context.len(), 32);
        assert_eq!(prompt.len(), 64);
    }
}

#[test]
fn greatest_concurrency_is_reported() {
    assert_eq!(max_concurrency(&vec![1, 16, 4]), 16);
    assert_eq!(max_concurrency(&vec![]), 1);
}

/// What an endpoint streams that generates a token every three milliseconds and
/// counts a token for every four characters.
fn answer(payload: &JsonMap) -> Vec<(String, u128)> {
    let count = match payload.get("max_tokens") {
        Some(Json::Count(count)) => *count,
        other => panic!("no length: {other:?}"),
    };
    let messages = match payload.get("messages") {
        Some(Json::List(messages)) => messages,
        other => panic!("no messages: {other:?}"),
    };
    let chars: usize = messages
        .iter()
        .map(|message| match message.member("content") {
            Some(Json::Text(text)) => text.chars().count(),
            other => panic!("no content: {other:?}"),
        })
        .sum();
    let mut events = Vec::new();
    for token in 0..count {
        let event = format!(
            "data: {{\"choices\": [{{\"delta\": {{\"content\": \"x\"}}, \"token_ids\": [{token}]}}]}}\n\n"
        );
        events.push((event, (token + 1) as u128 * 3 * TICKS_PER_SECOND / 1000));
    }
    let usage = format!(
        "data: {{\"choices\": [], \"usage\": {{\"prompt_tokens\": {}, \"completion_tokens\": {count}}}}}\n\ndata: [DONE]\n\n",
        chars.div_ceil(4) + 4
    );
    events.push((usage, (count + 1) as u128 * 3 * TICKS_PER_SECOND / 1000));
    events
}

#[test]
fn complete_suite_measures_a_simulated_endpoint() {
    let config = config();
    let client = LlmClient::new(&config).unwrap();
    let corpus = Corpus::load("Sherlock Holmes considered the evidence. ".repeat(100)).unwrap();
    let generator = PromptGenerator::new(corpus, Calibration::default(), config.adapt_prompt);
    let mut suite = run(&config, 0);
    let mut requests = 0;
    loop {
        match suite.stage {
            Stage::Prepare => suite.prepare(&generator, config.no_cache),
            Stage::Inference => {
                let tg = suite.test().tg;
                let mut answers = Vec::new();
                for (context, prompt) in &suite.asks() {
                    requests += 1;
                    let (url, payload, mut reader) =
                        client.run_generation(context, prompt, tg, config.no_cache);
                    assert_eq!(url, "http://host/v1/chat/completions");
                    for (event, time) in answer(&payload) {
                        reader.feed(event.as_bytes(), time).unwrap();
                    }
                    answers.push(reader.finish(0, 0, TICKS_PER_SECOND));
                }
                suite.requested(execute_batch(answers)).unwrap();
            }
            Stage::Conclude => suite.conclude(),
            Stage::Finished => break,
            other => panic!("unexpected stage: {other:?}"),
        }
    }
    assert_eq!(requests, 2);
    assert_eq!(suite.benchmarks.len(), 1);
    assert_eq!(suite.benchmarks[0].concurrency, 2);
    let rates = suite.benchmarks[0].tg_throughput.as_ref().unwrap();
    // Three more tokens of each request in nine milliseconds.
    let rate = rates.values[0].amount as f64 / rates.values[0].per as f64 * rates.multiplier as f64;
    assert!((rate - 6.0 / 0.009).abs() < 1e-6);
    assert!(suite.finish(false).outcome.is_ok());
}
