use rust_benchy::client::{
    authorization, check_answer, check_status, check_streamed, finalize_tokens,
    generation_messages, parse_sse_line, AssistantMessage, ContentChunk, LatencyStep, LlmClient,
    NonStreamingChoice, NonStreamingResponse, ParsedStream, RequestResult, SseReader, Usage,
};
use rust_benchy::clock::TICKS_PER_SECOND;
use rust_benchy::config::{BenchmarkConfig, LatencyMode, OutputFormat};
use rust_benchy::error::Error;
use rust_benchy::json::{Json, JsonMap};

fn seconds(time: u128) -> f64 {
    time as f64 / TICKS_PER_SECOND as f64
}

fn stream(
    usage_completion_tokens: Option<usize>,
    first_token_ts: Option<u128>,
    content_chunks: Vec<ContentChunk>,
) -> ParsedStream {
    ParsedStream {
        prompt_tokens: 0,
        usage_completion_tokens,
        first_response_ts: None,
        first_token_ts,
        content_chunks,
    }
}

fn chunk(timestamp: u128, ids: Option<u64>) -> ContentChunk {
    ContentChunk {
        timestamp,
        token_ids: ids.map(|count| (0..count).map(Json::Count).collect()),
    }
}

#[test]
fn usage_interpolates_tokens_across_chunks() {
    let parsed = ParsedStream {
        prompt_tokens: 0,
        usage_completion_tokens: Some(3),
        first_response_ts: None,
        first_token_ts: None,
        content_chunks: vec![
            ContentChunk {
                timestamp: TICKS_PER_SECOND,
                token_ids: None,
            },
            ContentChunk {
                timestamp: 2 * TICKS_PER_SECOND,
                token_ids: None,
            },
        ],
    };
    let (count, timestamps) = finalize_tokens(&parsed);
    assert_eq!(count, 3);
    let timestamps: Vec<f64> = timestamps.into_iter().map(seconds).collect();
    assert_eq!(timestamps, vec![1.0, 1.5, 2.0]);
}

#[test]
fn token_ids_take_precedence_over_usage() {
    let parsed = ParsedStream {
        prompt_tokens: 0,
        usage_completion_tokens: Some(99),
        first_response_ts: None,
        first_token_ts: Some(TICKS_PER_SECOND),
        content_chunks: vec![ContentChunk {
            timestamp: 2 * TICKS_PER_SECOND,
            token_ids: Some(vec![Json::Count(1), Json::Count(2), Json::Count(3)]),
        }],
    };
    let (count, timestamps) = finalize_tokens(&parsed);
    assert_eq!(count, 3);
    assert_eq!(timestamps.len(), 3);
    for (actual, expected) in timestamps.iter().zip([4.0 / 3.0, 5.0 / 3.0, 2.0]) {
        assert!((seconds(*actual) - expected).abs() < 1e-12);
    }
}

#[test]
fn chunks_are_counted_where_nothing_else_is_known() {
    let parsed = stream(None, Some(5), vec![chunk(5, None), chunk(9, Some(4))]);
    assert_eq!(finalize_tokens(&parsed), (2, vec![5, 9]));
}

#[test]
fn answers_without_content_have_no_times() {
    assert_eq!(finalize_tokens(&stream(Some(7), None, vec![])), (7, vec![]));
    assert_eq!(finalize_tokens(&stream(None, None, vec![])), (0, vec![]));
}

#[test]
fn reported_tokens_of_one_chunk_come_with_it() {
    let parsed = stream(Some(3), Some(8), vec![chunk(8, None)]);
    assert_eq!(finalize_tokens(&parsed), (3, vec![8, 8, 8]));
    let parsed = stream(Some(0), Some(8), vec![chunk(8, None)]);
    assert_eq!(finalize_tokens(&parsed), (0, vec![]));
    let parsed = stream(Some(1), Some(8), vec![chunk(8, None), chunk(12, None)]);
    assert_eq!(finalize_tokens(&parsed), (1, vec![8]));
}

#[test]
fn listed_tokens_are_spread_since_the_last_one() {
    let parsed = stream(
        None,
        Some(100),
        vec![chunk(100, Some(1)), chunk(200, Some(0)), chunk(300, Some(4))],
    );
    assert_eq!(finalize_tokens(&parsed), (5, vec![100, 150, 200, 250, 300]));
}

#[test]
fn token_times_never_go_back() {
    let parsed = stream(
        Some(6),
        Some(3),
        vec![chunk(3, Some(2)), chunk(3, Some(1)), chunk(17, Some(5)), chunk(18, Some(3))],
    );
    let (count, times) = finalize_tokens(&parsed);
    assert_eq!(count, 11);
    assert_eq!(times.len(), 11);
    assert!(times.windows(2).all(|pair| pair[0] <= pair[1]));
    assert_eq!(times[0], 3);
    assert_eq!(times[10], 18);
}

const FIRST: &str = "data: {\"choices\":[{\"delta\":{\"role\":\"assistant\"}}]}\n\n";
const HELLO: &str = "data: {\"choices\":[{\"delta\":{\"content\":\"he\u{e9}\"},\"token_ids\":[1,2]}]}\r\n\r\n";
const THINK: &str = "data: {\"choices\":[{\"delta\":{\"reasoning\":\"hm\"},\"token_ids\":[3]}]}\n";
const USAGE: &str = "data: {\"choices\":[],\"usage\":{\"prompt_tokens\":17,\"completion_tokens\":9}}\n";
const DONE: &str = "data: [DONE]\n\n";

fn reader() -> SseReader {
    SseReader::new("http://host/v1/chat/completions".to_owned())
}

fn read(chunks: &[(&[u8], u128)]) -> RequestResult {
    let mut reader = reader();
    for (bytes, now) in chunks {
        reader.feed(bytes, *now).unwrap();
    }
    reader.finish(1, 90, 99).unwrap()
}

#[test]
fn events_of_a_stream_are_read() {
    let result = read(&[
        (b": comment\n", 5),
        (FIRST.as_bytes(), 10),
        (HELLO.as_bytes(), 20),
        (THINK.as_bytes(), 30),
        (USAGE.as_bytes(), 40),
        (DONE.as_bytes(), 50),
    ]);
    assert_eq!(result.start_ts, 1);
    assert_eq!(result.end_ts, 99);
    assert_eq!(result.first_response_ts, Some(10));
    assert_eq!(result.first_token_ts, Some(20));
    assert_eq!(result.prompt_tokens, 17);
    assert_eq!(result.total_tokens, 3);
    assert_eq!(result.token_timestamps, vec![20, 20, 30]);
}

#[test]
fn cuts_between_chunks_do_not_matter() {
    let text = [FIRST, HELLO, THINK, USAGE, DONE].concat();
    let whole = read(&[(text.as_bytes(), 20)]);
    for cut in 0..text.len() {
        let (head, tail) = text.as_bytes().split_at(cut);
        let parts = read(&[(head, 20), (tail, 20)]);
        assert_eq!(parts.token_timestamps, whole.token_timestamps);
        assert_eq!(parts.total_tokens, whole.total_tokens);
        assert_eq!(parts.prompt_tokens, whole.prompt_tokens);
        assert_eq!(parts.first_response_ts, whole.first_response_ts);
        assert_eq!(parts.first_token_ts, whole.first_token_ts);
    }
}

#[test]
fn events_of_one_chunk_have_its_time() {
    let text = [HELLO, THINK, HELLO].concat();
    let mut reader = reader();
    reader.feed(text.as_bytes(), 33).unwrap();
    reader.feed(HELLO.as_bytes(), 44).unwrap();
    let times: Vec<u128> = reader
        .parsed
        .content_chunks
        .iter()
        .map(|chunk| chunk.timestamp)
        .collect();
    assert_eq!(times, vec![33, 33, 33, 44]);
}

#[test]
fn cuts_between_times_do_not_change_counts() {
    let text = [FIRST, HELLO, THINK, USAGE, DONE].concat();
    let whole = read(&[(text.as_bytes(), 20)]);
    for cut in 0..text.len() {
        let (head, tail) = text.as_bytes().split_at(cut);
        let parts = read(&[(head, 20), (tail, 35)]);
        assert_eq!(parts.total_tokens, whole.total_tokens);
        assert_eq!(parts.token_timestamps.len(), whole.token_timestamps.len());
        assert_eq!(parts.prompt_tokens, whole.prompt_tokens);
        assert!(parts.first_response_ts.is_some());
        assert!(parts.first_response_ts <= parts.first_token_ts);
    }
}

#[test]
fn answer_in_one_chunk_is_a_burst() {
    let text = [FIRST, HELLO, THINK, USAGE, DONE].concat();
    let result = read(&[(text.as_bytes(), 20)]);
    assert_eq!(result.token_timestamps, vec![20, 20, 20]);
    assert_eq!(result.first_response_ts, Some(20));
    assert_eq!(result.first_token_ts, Some(20));
}

#[test]
fn last_line_needs_no_line_feed() {
    let result = read(&[(HELLO.as_bytes(), 20), (b"  data: {\"choices\":[{\"delta\":{\"content\":\"!\"}}]} ", 30)]);
    // Not every chunk lists its tokens, and nothing is reported.
    assert_eq!(result.total_tokens, 2);
    assert_eq!(result.token_timestamps, vec![20, 90]);
}

#[test]
fn broken_event_is_refused() {
    let mut reader = reader();
    let error = reader.feed(b"data: {oops\n", 5).unwrap_err();
    let words = serde_json::from_str::<serde_json::Value>("{oops")
        .unwrap_err()
        .to_string();
    assert_eq!(
        error.message(),
        format!("failed to parse JSON from SSE event from http://host/v1/chat/completions: {words}")
    );
    let mut tail = self::reader();
    tail.feed(b"data: nope", 5).unwrap();
    assert!(matches!(tail.finish(0, 1, 2), Err(Error::Json { .. })));
}

#[test]
fn invalid_utf8_is_replaced() {
    let mut line = b"data: {\"choices\":[{\"delta\":{\"content\":\"".to_vec();
    line.push(0xff);
    line.extend_from_slice(b"\"}}]}\n");
    let result = read(&[(&line, 20)]);
    assert_eq!(result.total_tokens, 1);
}

#[test]
fn lines_without_an_event_change_nothing() {
    let mut parsed = ParsedStream::new();
    for line in ["", "event: x", "data:", "data:   ", "data: [DONE]", " data: {"] {
        parse_sse_line(line, 3, "e", &mut parsed).unwrap();
    }
    assert_eq!(parsed.first_response_ts, None);
    assert!(parsed.content_chunks.is_empty());
    parse_sse_line("data: {\"choices\":[{\"delta\":{\"content\":\"\"}}]}", 4, "e", &mut parsed).unwrap();
    assert_eq!(parsed.first_response_ts, Some(4));
    assert_eq!(parsed.first_token_ts, None);
    parse_sse_line("data: {\"usage\":{\"prompt_tokens\":-1,\"completion_tokens\":1.5}}", 5, "e", &mut parsed).unwrap();
    assert_eq!(parsed.prompt_tokens, 0);
    assert_eq!(parsed.usage_completion_tokens, None);
}

fn config() -> BenchmarkConfig {
    BenchmarkConfig {
        base_url: "http://host/v1".to_owned(),
        api_key: "EMPTY".to_owned(),
        model: "label".to_owned(),
        served_model_name: "served".to_owned(),
        pp_counts: vec![16],
        tg_counts: vec![4],
        depths: vec![0],
        concurrency_levels: vec![1],
        num_runs: 1,
        warmup_runs: 0,
        exact_tg: false,
        no_cache: false,
        enable_prefix_caching: false,
        latency_mode: LatencyMode::Disabled,
        no_warmup: true,
        adapt_prompt: true,
        skip_coherence: true,
        prompt_file: None,
        book_url: String::new(),
        post_run_cmd: None,
        extra_body: JsonMap::new(),
        exit_on_first_fail: false,
        no_results_on_fail: false,
        save_result: None,
        output_format: OutputFormat::Md,
        timeout: 5,
    }
}

fn text(json: Option<&Json>) -> &str {
    match json {
        Some(Json::Text(text)) => text,
        other => panic!("no text: {other:?}"),
    }
}

#[test]
fn generation_asks_for_a_stream_with_usage() {
    let client = LlmClient::new(&config()).unwrap();
    let (url, payload, reader) = client.run_generation("ctx", "ask", 32, false);
    assert_eq!(url, "http://host/v1/chat/completions");
    assert_eq!(reader.endpoint, url);
    assert_eq!(text(payload.get("model")), "served");
    assert!(matches!(payload.get("max_tokens"), Some(Json::Count(32))));
    assert!(matches!(payload.get("stream"), Some(Json::Flag(true))));
    assert!(matches!(payload.get("return_token_ids"), Some(Json::Flag(true))));
    let options = payload.get("stream_options").unwrap();
    assert!(matches!(options.member("include_usage"), Some(Json::Flag(true))));
    assert!(payload.get("cache_prompt").is_none());
    assert!(payload.get("min_tokens").is_none());
    let messages = match payload.get("messages") {
        Some(Json::List(messages)) => messages,
        other => panic!("no messages: {other:?}"),
    };
    assert_eq!(messages.len(), 2);
    assert_eq!(text(messages[0].member("role")), "system");
    assert_eq!(text(messages[0].member("content")), "ctx");
    assert_eq!(text(messages[1].member("role")), "user");
    assert_eq!(text(messages[1].member("content")), "ask");
}

#[test]
fn own_fields_override_but_not_an_exact_length() {
    let mut config = config();
    config.exact_tg = true;
    config.extra_body.insert("max_tokens", Json::Count(5));
    config.extra_body.insert("ignore_eos", Json::Flag(false));
    config.extra_body.insert("stream", Json::Flag(false));
    config.extra_body.insert("top_p", Json::Count(1));
    let client = LlmClient::new(&config).unwrap();
    let (_, payload, _) = client.run_generation("", "ask", 32, true);
    assert!(matches!(payload.get("max_tokens"), Some(Json::Count(32))));
    assert!(matches!(payload.get("min_tokens"), Some(Json::Count(32))));
    assert!(matches!(payload.get("ignore_eos"), Some(Json::Flag(true))));
    assert!(matches!(payload.get("stream"), Some(Json::Flag(false))));
    assert!(matches!(payload.get("top_p"), Some(Json::Count(1))));
    assert!(matches!(payload.get("cache_prompt"), Some(Json::Flag(false))));
    config.exact_tg = false;
    config.extra_body.insert("cache_prompt", Json::Flag(true));
    let client = LlmClient::new(&config).unwrap();
    let (_, payload, _) = client.run_generation("", "ask", 32, true);
    assert!(matches!(payload.get("max_tokens"), Some(Json::Count(5))));
    assert!(matches!(payload.get("cache_prompt"), Some(Json::Flag(true))));
}

#[test]
fn blank_prompts_are_replaced() {
    let messages = generation_messages("", " \t\n");
    assert_eq!(messages.len(), 1);
    assert_eq!(messages[0].role, "user");
    assert_eq!(messages[0].content, ".");
}

#[test]
fn keys_become_bearer_tokens() {
    assert_eq!(authorization("").unwrap(), None);
    assert_eq!(authorization("EMPTY").unwrap(), None);
    assert_eq!(authorization("abc").unwrap(), Some("Bearer abc".to_owned()));
    assert_eq!(authorization("a\tb").unwrap(), Some("Bearer a\tb".to_owned()));
    for key in ["a\nb", "a\u{7f}", "\u{0}"] {
        let error = authorization(key).unwrap_err();
        assert_eq!(
            error.message(),
            "invalid configuration: API key contains invalid header characters"
        );
    }
    let mut config = config();
    config.api_key = "k\r".to_owned();
    assert!(matches!(LlmClient::new(&config), Err(Error::Config(_))));
}

#[test]
fn endpoints_have_one_slash() {
    let client = LlmClient::new(&config()).unwrap();
    assert_eq!(client.endpoint("models"), "http://host/v1/models");
    assert_eq!(client.endpoint("//models"), "http://host/v1/models");
}

#[test]
fn failed_status_is_an_error() {
    let body = check_status("u".to_owned(), true, "200 OK".to_owned(), "fine".to_owned());
    assert_eq!(body.unwrap(), "fine");
    let error = check_status("u".to_owned(), false, "500".to_owned(), "oh".to_owned()).unwrap_err();
    assert_eq!(error.message(), "endpoint returned HTTP 500 for u: oh");
    assert!(check_streamed("u".to_owned(), true).is_ok());
    let error = check_streamed("u".to_owned(), false).unwrap_err();
    assert_eq!(error.message(), "invalid response from u: empty streaming response");
}

fn response(content: Option<&str>, reasoning: Option<&str>, tokens: Option<usize>) -> NonStreamingResponse {
    NonStreamingResponse {
        choices: vec![NonStreamingChoice {
            message: AssistantMessage {
                content: content.map(str::to_owned),
                reasoning: reasoning.map(str::to_owned),
                reasoning_content: None,
            },
        }],
        usage: Some(Usage { prompt_tokens: tokens }),
    }
}

#[test]
fn coherent_answers_name_paris() {
    assert!(LlmClient::coherence_test(&response(Some("PARIS!"), None, None)).is_ok());
    assert!(LlmClient::coherence_test(&response(None, Some("it is Paris"), None)).is_ok());
    let error = LlmClient::coherence_test(&response(Some("Ly\"on"), None, None)).unwrap_err();
    assert_eq!(
        error.message(),
        "benchmark request failed: coherence check expected 'Paris', got \"Ly\\\"on\""
    );
    let empty = NonStreamingResponse { choices: vec![], usage: None };
    assert!(LlmClient::coherence_test(&empty).is_err());
}

#[test]
fn complaint_quotes_two_hundred_characters() {
    let answer = "é".repeat(300);
    let error = check_answer(&answer, &answer).unwrap_err();
    assert_eq!(
        error.message(),
        format!(
            "benchmark request failed: coherence check expected 'Paris', got \"{}\"",
            "é".repeat(200)
        )
    );
    assert!(check_answer("x", "in paris").is_ok());
}

#[test]
fn coherence_and_latency_requests() {
    let client = LlmClient::new(&config()).unwrap();
    let (url, payload) = client.coherence_request();
    assert_eq!(url, "http://host/v1/chat/completions");
    assert!(matches!(payload.get("max_tokens"), Some(Json::Count(100))));
    assert!(matches!(payload.get("stream"), Some(Json::Flag(false))));
    let (url, payload) = client.latency_request(LatencyStep::Generate).unwrap();
    assert_eq!(url, "http://host/v1/chat/completions");
    let payload = payload.unwrap();
    assert!(matches!(payload.get("max_tokens"), Some(Json::Count(1))));
    assert!(matches!(payload.get("stream"), Some(Json::Flag(true))));
    match payload.get("messages") {
        Some(Json::List(messages)) => {
            assert_eq!(text(messages[0].member("content")), "hello")
        }
        other => panic!("no messages: {other:?}"),
    }
    let (url, payload) = client.latency_request(LatencyStep::ListModels).unwrap();
    assert_eq!(url, "http://host/v1/models");
    assert!(payload.is_none());
    assert!(client.latency_request(LatencyStep::Baseline(7)).is_none());
}

#[test]
fn calibration_asks_four_times() {
    let probes = LlmClient::calibration_probes("ab", "abcd");
    let expected = vec![("", "ab"), ("", "abcd"), ("ab", "."), ("abcd", ".")];
    let actual: Vec<(&str, &str)> = probes
        .iter()
        .map(|(context, prompt)| (context.as_str(), prompt.as_str()))
        .collect();
    assert_eq!(actual, expected);
    let client = LlmClient::new(&config()).unwrap();
    let (url, payload) = client.probe_request("ab", ".");
    assert_eq!(url, "http://host/v1/chat/completions");
    assert!(matches!(payload.get("max_tokens"), Some(Json::Count(1))));
    let short = "x".repeat(100);
    let long = "x".repeat(1000);
    let calibration = LlmClient::calibrate(&short, &long, 30, 255, 40, 265);
    assert_eq!(calibration.user_chars(105, true), 400);
}

#[test]
fn token_count_is_required() {
    let client = LlmClient::new(&config()).unwrap();
    assert_eq!(client.prompt_token_count(&response(None, None, Some(12))).unwrap(), 12);
    let error = client.prompt_token_count(&response(None, None, None)).unwrap_err();
    assert_eq!(
        error.message(),
        "invalid response from http://host/v1/chat/completions: calibration requires usage.prompt_tokens in non-streaming responses; use --no-warmup to assume four characters/token"
    );
}

#[test]
fn latency_is_the_mean_of_three_generations() {
    let mut measurement = LlmClient::measure_latency(LatencyMode::Generation, 2);
    for elapsed in [1000, 900, 10, 20, 33] {
        assert_eq!(measurement.next(), LatencyStep::Generate);
        measurement.record(elapsed);
    }
    assert_eq!(measurement.next(), LatencyStep::Baseline(21));
}

#[test]
fn latency_of_the_api_is_measured_once() {
    let mut measurement = LlmClient::measure_latency(LatencyMode::Api, 2);
    assert_eq!(measurement.next(), LatencyStep::ListModels);
    measurement.record(77);
    assert_eq!(measurement.next(), LatencyStep::Baseline(77));
    let measurement = LlmClient::measure_latency(LatencyMode::Disabled, 2);
    assert_eq!(measurement.next(), LatencyStep::Baseline(0));
}

#[test]
fn latencies_do_not_overflow() {
    let mut measurement = LlmClient::measure_latency(LatencyMode::Generation, 0);
    for _ in 0..3 {
        measurement.record(u128::MAX);
    }
    assert_eq!(measurement.next(), LatencyStep::Baseline(u128::MAX));
}
