use rust_benchy::config::{
    check_args, detect_model, detection_timeout, extra_value, model_id, models_url,
    parse_extra_body, validate_positive, Args, BenchmarkConfig, LatencyMode, ModelEntry,
    ModelsResponse, OutputFormat,
};
use rust_benchy::error::Error;
use rust_benchy::json::Json;

#[test]
fn extra_body_accepts_json_and_strings() {
    let parsed = parse_extra_body(&vec![
        "min_tokens=12,ignore_eos:true".into(),
        "mode=fast".into(),
    ])
    .unwrap();
    assert!(matches!(parsed.get("min_tokens"), Some(Json::Count(12))));
    assert!(matches!(parsed.get("ignore_eos"), Some(Json::Flag(true))));
    assert!(matches!(parsed.get("mode"), Some(Json::Text(text)) if text == "fast"));
}

#[test]
fn extra_body_rejects_missing_separator() {
    assert!(parse_extra_body(&vec!["ignore_eos".into()]).is_err());
}

#[test]
fn extra_body_names_the_bad_entry() {
    let error = parse_extra_body(&vec!["a=1, b ,c".into()]).unwrap_err();
    assert_eq!(
        error.message(),
        "invalid configuration: invalid --extra-body entry 'b'; expected key=value"
    );
    let error = parse_extra_body(&vec!["a=1".into(), " = 2".into()]).unwrap_err();
    assert_eq!(
        error.message(),
        "invalid configuration: --extra-body contains an empty key"
    );
}

#[test]
fn extra_body_trims_and_skips() {
    let parsed = parse_extra_body(&vec![" , a = 1 ,".into(), "".into(), "u:v=w".into()]).unwrap();
    assert_eq!(parsed.entries.len(), 2);
    assert!(matches!(parsed.get("a"), Some(Json::Count(1))));
    assert!(matches!(parsed.get("u:v"), Some(Json::Text(text)) if text == "w"));
}

#[test]
fn later_extra_fields_count() {
    let parsed = parse_extra_body(&vec!["a=1,b=2".into(), "a=null".into()]).unwrap();
    assert!(matches!(parsed.get("a"), Some(Json::Null)));
    assert!(matches!(parsed.get("b"), Some(Json::Count(2))));
}

#[test]
fn extra_body_keeps_other_numbers() {
    let parsed = parse_extra_body(&vec!["t=-0.5,s=\"12\"".into()]).unwrap();
    match parsed.get("t") {
        Some(Json::Number(number)) => assert_eq!(number.as_f64(), Some(-0.5)),
        other => panic!("no number: {other:?}"),
    }
    assert!(matches!(parsed.get("s"), Some(Json::Text(text)) if text == "12"));
    let text = extra_value("raw".to_owned(), Err("no JSON".to_owned()));
    assert!(matches!(text, Json::Text(text) if text == "raw"));
    assert!(matches!(extra_value("1".to_owned(), Ok(Json::Count(1))), Json::Count(1)));
}

fn args() -> Args {
    Args {
        base_url: "http://host/v1//".to_owned(),
        api_key: "EMPTY".to_owned(),
        model: Some("m".to_owned()),
        served_model_name: None,
        pp_counts: vec![512, 2048],
        tg_counts: vec![32],
        depths: vec![0, 4096],
        concurrency_levels: vec![1],
        num_runs: 3,
        warmup_runs: 1,
        exact_tg: false,
        no_cache: false,
        enable_prefix_caching: true,
        latency_mode: LatencyMode::Api,
        no_warmup: false,
        no_adapt_prompt: false,
        skip_coherence: false,
        prompt_file: None,
        book_url: "http://book".to_owned(),
        post_run_cmd: None,
        extra_body: vec!["temperature=0".to_owned()],
        exit_on_first_fail: false,
        no_results_on_fail: false,
        save_result: None,
        output_format: OutputFormat::Csv,
        timeout: 3600,
    }
}

#[test]
fn configuration_takes_over_the_options() {
    let config = BenchmarkConfig::resolve(args(), None).unwrap();
    assert_eq!(config.base_url, "http://host/v1");
    assert_eq!(config.model, "m");
    assert_eq!(config.served_model_name, "m");
    assert_eq!(config.pp_counts, vec![512, 2048]);
    assert_eq!(config.depths, vec![0, 4096]);
    assert_eq!(config.num_runs, 3);
    assert_eq!(config.warmup_runs, 1);
    assert!(config.adapt_prompt);
    assert!(config.enable_prefix_caching);
    assert!(!config.exit_on_first_fail);
    assert_eq!(config.latency_mode, LatencyMode::Api);
    assert_eq!(config.output_format, OutputFormat::Csv);
    assert!(matches!(config.extra_body.get("temperature"), Some(Json::Count(0))));
    assert_eq!(config.timeout, 3600);
}

#[test]
fn no_results_on_fail_implies_exit_on_first_fail() {
    let mut options = args();
    options.no_results_on_fail = true;
    options.no_adapt_prompt = true;
    let config = BenchmarkConfig::resolve(options, None).unwrap();
    assert!(config.exit_on_first_fail);
    assert!(config.no_results_on_fail);
    assert!(!config.adapt_prompt);
}

#[test]
fn detected_model_is_used_where_none_is_given() {
    let mut options = args();
    options.model = None;
    let detected = Some(("org/root".to_owned(), "id".to_owned()));
    let config = BenchmarkConfig::resolve(options, detected).unwrap();
    assert_eq!(config.model, "org/root");
    assert_eq!(config.served_model_name, "id");
    let mut options = args();
    options.served_model_name = Some("alias".to_owned());
    let config = BenchmarkConfig::resolve(options, None).unwrap();
    assert_eq!(config.model, "m");
    assert_eq!(config.served_model_name, "alias");
}

fn refusal(change: fn(&mut Args)) -> String {
    let mut options = args();
    change(&mut options);
    let early = check_args(&options).unwrap_err().message();
    assert_eq!(BenchmarkConfig::resolve(options, None).unwrap_err().message(), early);
    early
}

#[test]
fn unacceptable_options_are_refused() {
    assert_eq!(
        refusal(|args| args.pp_counts = vec![]),
        "invalid configuration: --pp values must be greater than zero"
    );
    assert_eq!(
        refusal(|args| args.tg_counts = vec![3, 0]),
        "invalid configuration: --tg values must be greater than zero"
    );
    assert_eq!(
        refusal(|args| args.concurrency_levels = vec![0]),
        "invalid configuration: --concurrency values must be greater than zero"
    );
    assert_eq!(
        refusal(|args| args.num_runs = 0),
        "invalid configuration: --runs must be greater than zero"
    );
    assert_eq!(
        refusal(|args| args.base_url = "///".to_owned()),
        "invalid configuration: --base-url cannot be empty"
    );
    let mut options = args();
    options.extra_body = vec!["x".to_owned()];
    assert!(matches!(BenchmarkConfig::resolve(options, None), Err(Error::Config(_))));
    assert!(validate_positive("--x", &vec![1, 2]).is_ok());
}

fn entry(id: &str, model: &str, root: &str) -> ModelEntry {
    ModelEntry {
        id: id.to_owned(),
        model: model.to_owned(),
        root: root.to_owned(),
    }
}

#[test]
fn the_only_model_is_chosen() {
    let response = ModelsResponse { data: vec![entry("id", "", "")], models: vec![] };
    assert_eq!(detect_model(response, "u").unwrap(), ("id".to_owned(), "id".to_owned()));
    let response = ModelsResponse { data: vec![], models: vec![entry("", "name", "org/name")] };
    assert_eq!(
        detect_model(response, "u").unwrap(),
        ("org/name".to_owned(), "name".to_owned())
    );
    let response = ModelsResponse { data: vec![entry("id", "x", "root")], models: vec![entry("y", "", "")] };
    assert_eq!(detect_model(response, "u").unwrap(), ("id".to_owned(), "id".to_owned()));
    assert_eq!(model_id(&entry("", "m", "")), "m");
}

#[test]
fn several_models_need_a_choice() {
    let response = ModelsResponse {
        data: vec![entry("a", "", ""), entry("", "b", "")],
        models: vec![],
    };
    assert_eq!(
        detect_model(response, "u").unwrap_err().message(),
        "invalid configuration: model auto-detection requires exactly one endpoint model (found 2: a, b); pass --model"
    );
    let response = ModelsResponse { data: vec![], models: vec![] };
    assert_eq!(
        detect_model(response, "u").unwrap_err().message(),
        "invalid configuration: model auto-detection requires exactly one endpoint model (found 0: ); pass --model"
    );
    let response = ModelsResponse { data: vec![entry("", "", "x/y")], models: vec![] };
    assert_eq!(
        detect_model(response, "u").unwrap_err().message(),
        "invalid response from u: model entry has no id"
    );
}

#[test]
fn names_and_limits() {
    assert_eq!(LatencyMode::Api.fmt(), "api");
    assert_eq!(LatencyMode::Generation.fmt(), "generation");
    assert_eq!(LatencyMode::Disabled.fmt(), "none");
    assert_eq!(models_url("http://host/v1"), "http://host/v1/models");
    assert_eq!(detection_timeout(3600), 30);
    assert_eq!(detection_timeout(7), 7);
}
