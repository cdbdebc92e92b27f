//! What the user asks for, and what is made of it.

use vstd::prelude::*;

use crate::error::Error;
use crate::error::ErrorView;
use crate::json::parse;
use crate::json::reading;
use crate::json::Json;
use crate::json::JsonMap;
use crate::json::JsonTree;
use crate::text::cut;
use crate::text::decimal;
use crate::text::decimal_text;
use crate::text::join;
use crate::text::joined;
use crate::text::pieces;
use crate::text::position;
use crate::text::split;
use crate::text::split_once;
use crate::text::texts;
use crate::text::trim;
use crate::text::trim_end_matches;
use crate::text::trimmed;
use crate::text::trimmed_end;

verus! {

/// How the latency is measured that does not count as prompt processing.
#[derive(Debug, Clone, Copy, PartialEq, Eq, Structural)]
pub enum LatencyMode {
    Api,
    Generation,
    Disabled,
}

impl LatencyMode {
    /// The name of the mode.
    pub open spec fn name(self) -> Seq<char> {
        match self {
            LatencyMode::Api => "api"@,
            LatencyMode::Generation => "generation"@,
            LatencyMode::Disabled => "none"@,
        }
    }

    /// The name of the mode.
    pub fn fmt(&self) -> (r: String)
        ensures
            r@ == self.name(),
    {
        match self {
            LatencyMode::Api => "api".to_owned(),
            LatencyMode::Generation => "generation".to_owned(),
            LatencyMode::Disabled => "none".to_owned(),
        }
    }
}

/// How the report is written.
#[derive(Debug, Clone, Copy, PartialEq, Eq, Structural)]
pub enum OutputFormat {
    Md,
    Json,
    Csv,
}

/// What the user gave on the command line.
#[derive(Debug)]
pub struct Args {
    /// Base API URL, normally ending in /v1.
    pub base_url: String,
    /// API key; `EMPTY` stands for none.
    pub api_key: String,
    /// Model shown in reports.
    pub model: Option<String>,
    /// Model identifier sent to the endpoint.
    pub served_model_name: Option<String>,
    /// Prompt-processing token counts.
    pub pp_counts: Vec<usize>,
    /// Generated-token counts.
    pub tg_counts: Vec<usize>,
    /// Context depths in tokens.
    pub depths: Vec<usize>,
    /// Concurrent requests per measured batch.
    pub concurrency_levels: Vec<usize>,
    /// Measured batches per test shape.
    pub num_runs: usize,
    /// Discarded batches per test shape.
    pub warmup_runs: usize,
    /// Add server-specific fields that force exactly the wanted output tokens.
    pub exact_tg: bool,
    /// Make prompts unique and ask compatible servers not to cache them.
    pub no_cache: bool,
    /// Preload context separately before each request with one.
    pub enable_prefix_caching: bool,
    /// Baseline subtracted from time-to-first-response.
    pub latency_mode: LatencyMode,
    /// Skip endpoint token calibration and warmups.
    pub no_warmup: bool,
    /// Do not compensate target prompt sizes for chat-template overhead.
    pub no_adapt_prompt: bool,
    /// Skip the simple endpoint/model coherence check.
    pub skip_coherence: bool,
    /// Local UTF-8 corpus.
    pub prompt_file: Option<String>,
    /// Text corpus URL.
    pub book_url: String,
    /// Run a shell command after every batch.
    pub post_run_cmd: Option<String>,
    /// Extra request JSON: key=value,key2=true.
    pub extra_body: Vec<String>,
    /// Stop after the first failed request.
    pub exit_on_first_fail: bool,
    /// Save/print no report if any request fails.
    pub no_results_on_fail: bool,
    /// Report destination.
    pub save_result: Option<String>,
    /// Report format.
    pub output_format: OutputFormat,
    /// Total request timeout in seconds.
    pub timeout: u64,
}

/// What a benchmark does.
#[derive(Debug)]
pub struct BenchmarkConfig {
    pub base_url: String,
    pub api_key: String,
    pub model: String,
    pub served_model_name: String,
    pub pp_counts: Vec<usize>,
    pub tg_counts: Vec<usize>,
    pub depths: Vec<usize>,
    pub concurrency_levels: Vec<usize>,
    pub num_runs: usize,
    pub warmup_runs: usize,
    pub exact_tg: bool,
    pub no_cache: bool,
    pub enable_prefix_caching: bool,
    pub latency_mode: LatencyMode,
    pub no_warmup: bool,
    pub adapt_prompt: bool,
    pub skip_coherence: bool,
    pub prompt_file: Option<String>,
    pub book_url: String,
    pub post_run_cmd: Option<String>,
    pub extra_body: JsonMap,
    pub exit_on_first_fail: bool,
    pub no_results_on_fail: bool,
    pub save_result: Option<String>,
    pub output_format: OutputFormat,
    /// In seconds.
    pub timeout: u64,
}

/// What `GET /models` answers.
#[derive(Debug)]
pub struct ModelsResponse {
    pub data: Vec<ModelEntry>,
    pub models: Vec<ModelEntry>,
}

/// One model of the endpoint.
#[derive(Debug)]
pub struct ModelEntry {
    pub id: String,
    pub model: String,
    pub root: String,
}

/// The complaint about a list option that is empty or holds a zero.
pub open spec fn not_positive(name: Seq<char>, values: Seq<usize>) -> Option<ErrorView> {
    if values.len() == 0 || values.contains(0) {
        Some(ErrorView::Config(name + " values must be greater than zero"@))
    } else {
        None
    }
}

/// Refuses a list option that is empty or holds a zero.
pub fn validate_positive(name: &str, values: &Vec<usize>) -> (r: Result<(), Error>)
    ensures
        match r {
            Ok(()) => not_positive(name@, values@) is None,
            Err(error) => not_positive(name@, values@) == Some(error@),
        },
{
    let mut zero = values.len() == 0;
    let mut i: usize = 0;
    while i < values.len()
        invariant
            i <= values.len(),
            zero == (values@.len() == 0 || values@.take(i as int).contains(0)),
        decreases values.len() - i,
    {
        let ghost before = values@.take(i as int);
        if values[i] == 0 {
            zero = true;
        }
        i += 1;
        proof {
            let now = values@.take(i as int);
            assert(now == before.push(values@[i - 1]));
            if before.contains(0) {
                let j = choose|j: int| 0 <= j < before.len() && before[j] == 0;
                assert(now[j] == 0);
            }
            if values@[i - 1] == 0 {
                assert(now[i - 1] == 0);
            }
            if now.contains(0) && !before.contains(0) {
                let j = choose|j: int| 0 <= j < now.len() && now[j] == 0;
                assert(j < before.len() ==> before[j] == 0);
            }
        }
    }
    assert(values@.take(i as int) == values@);
    if zero {
        return Err(
            Error::Config(name.to_owned().concat(" values must be greater than zero")),
        );
    }
    Ok(())
}

/// What one entry of the extra request fields comes to.
pub enum ExtraEntry {
    /// Nothing but white space.
    Nothing,
    /// A key and its value.
    Field(Seq<char>, JsonTree),
    /// A refusal.
    Refused(ErrorView),
}

/// The value of an extra field: what JSON makes of it, else the text itself.
pub open spec fn value_or_text(
    raw: Seq<char>,
    outcome: Result<JsonTree, Seq<char>>,
) -> JsonTree {
    match outcome {
        Ok(value) => value,
        Err(_) => JsonTree::Text(raw),
    }
}

/// The key and the raw value of an entry: what stands around the first `=`,
/// or the first `:` where there is no `=`.
pub open spec fn key_and_raw(entry: Seq<char>) -> Option<(Seq<char>, Seq<char>)> {
    match cut(entry, '=') {
        Some(both) => Some(both),
        None => cut(entry, ':'),
    }
}

/// What an entry of the extra request fields comes to.
pub open spec fn extra_entry(raw_entry: Seq<char>) -> ExtraEntry {
    let entry = trimmed(raw_entry);
    if entry.len() == 0 {
        ExtraEntry::Nothing
    } else {
        match key_and_raw(entry) {
            None => ExtraEntry::Refused(
                ErrorView::Config(
                    "invalid --extra-body entry '"@ + entry + "'; expected key=value"@,
                ),
            ),
            Some((key, raw)) => if trimmed(key).len() == 0 {
                ExtraEntry::Refused(ErrorView::Config("--extra-body contains an empty key"@))
            } else {
                ExtraEntry::Field(
                    trimmed(key),
                    value_or_text(trimmed(raw), reading(trimmed(raw))),
                )
            },
        }
    }
}

/// The entries of all items, an item after the other.
pub open spec fn extra_entries(items: Seq<Seq<char>>) -> Seq<Seq<char>>
    decreases items.len(),
{
    if items.len() == 0 {
        Seq::empty()
    } else {
        extra_entries(items.drop_last()) + pieces(items.last(), ',')
    }
}

/// The extra fields that a list of entries gives, or its first refusal. A
/// later entry for the same key counts.
pub open spec fn extra_fields(entries: Seq<Seq<char>>) -> Result<
    Map<Seq<char>, JsonTree>,
    ErrorView,
>
    decreases entries.len(),
{
    if entries.len() == 0 {
        Ok(Map::empty())
    } else {
        match extra_fields(entries.drop_last()) {
            Err(error) => Err(error),
            Ok(fields) => match extra_entry(entries.last()) {
                ExtraEntry::Nothing => Ok(fields),
                ExtraEntry::Refused(error) => Err(error),
                ExtraEntry::Field(key, value) => Ok(fields.insert(key, value)),
            },
        }
    }
}

/// The value of an extra field: what JSON made of it, else the text itself.
pub fn extra_value(raw: String, outcome: Result<Json, String>) -> (r: Json)
    ensures
        r@ == match outcome {
            Ok(value) => value@,
            Err(_) => JsonTree::Text(raw@),
        },
{
    match outcome {
        Ok(value) => value,
        Err(_) => Json::Text(raw),
    }
}

/// Adds an entry of the extra request fields.
fn add_extra_entry(fields: &mut JsonMap, raw_entry: &str) -> (r: Result<(), Error>)
    ensures
        old(fields).distinct() ==> final(fields).distinct(),
        match extra_entry(raw_entry@) {
            ExtraEntry::Nothing => r is Ok && final(fields)@ == old(fields)@,
            ExtraEntry::Refused(error) => r is Err && r->Err_0@ == error,
            ExtraEntry::Field(key, value) => r is Ok && final(fields)@ == old(fields)@.insert(
                key,
                value,
            ),
        },
{
    let entry = trim(raw_entry);
    if entry.as_str().is_empty() {
        return Ok(());
    }
    let both = match split_once(entry.as_str(), '=') {
        Some(both) => Some(both),
        None => split_once(entry.as_str(), ':'),
    };
    match both {
        None => {
            let mut text = "invalid --extra-body entry '".to_owned();
            text.append(entry.as_str());
            text.append("'; expected key=value");
            Err(Error::Config(text))
        },
        Some((key, raw)) => {
            let key = trim(key.as_str());
            if key.as_str().is_empty() {
                return Err(Error::Config("--extra-body contains an empty key".to_owned()));
            }
            let raw = trim(raw.as_str());
            let outcome = parse(raw.as_str());
            fields.insert(key.as_str(), extra_value(raw, outcome));
            Ok(())
        },
    }
}

/// Reads extra request fields: `key=value` or `key:value`, several of them
/// separated by commas.
pub fn parse_extra_body(items: &Vec<String>) -> (r: Result<JsonMap, Error>)
    ensures
        match r {
            Ok(fields) => fields.distinct() && extra_fields(extra_entries(texts(items@))) == Ok::<
                Map<Seq<char>, JsonTree>,
                ErrorView,
            >(fields@),
            Err(error) => extra_fields(extra_entries(texts(items@))) == Err::<
                Map<Seq<char>, JsonTree>,
                ErrorView,
            >(error@),
        },
{
    let mut fields = JsonMap::new();
    let mut i: usize = 0;
    let ghost all = texts(items@);
    assert(extra_entries(all.take(0)) == Seq::<Seq<char>>::empty());
    while i < items.len()
        invariant
            i <= items.len(),
            all == texts(items@),
            fields.distinct(),
            extra_fields(extra_entries(all.take(i as int))) == Ok::<
                Map<Seq<char>, JsonTree>,
                ErrorView,
            >(fields@),
        decreases items.len() - i,
    {
        let entries = split(items[i].as_str(), ',');
        let ghost before = extra_entries(all.take(i as int));
        let ghost here = texts(entries@);
        proof {
            assert(all.take(i + 1).drop_last() == all.take(i as int));
            assert(extra_entries(all.take(i + 1)) == before + here);
            assert(before + here.take(0) == before);
        }
        let mut j: usize = 0;
        while j < entries.len()
            invariant
                j <= entries.len(),
                i < items.len(),
                all == texts(items@),
                here == texts(entries@),
                extra_entries(all.take(i + 1)) == before + here,
                fields.distinct(),
                extra_fields(before + here.take(j as int)) == Ok::<
                    Map<Seq<char>, JsonTree>,
                    ErrorView,
                >(fields@),
            decreases entries.len() - j,
        {
            let added = add_extra_entry(&mut fields, entries[j].as_str());
            proof {
                let upto = before + here.take(j + 1);
                assert(upto.drop_last() == before + here.take(j as int));
                assert(upto.last() == entries@[j as int]@);
            }
            if let Err(error) = added {
                proof {
                    lemma_refusal_stays(before + here, (before + here.take(j + 1)).len() as int);
                    assert((before + here).take((before + here.take(j + 1)).len() as int) == before
                        + here.take(j + 1));
                    lemma_entries_prefix(all, i + 1);
                    let whole = extra_entries(all);
                    lemma_refusal_stays(whole, (before + here).len() as int);
                }
                return Err(error);
            }
            j += 1;
        }
        assert(here.take(j as int) == here);
        i += 1;
    }
    assert(all.take(i as int) == all);
    Ok(fields)
}

/// A refusal among the first entries is the outcome of all of them.
proof fn lemma_refusal_stays(entries: Seq<Seq<char>>, n: int)
    requires
        0 <= n <= entries.len(),
        extra_fields(entries.take(n)) is Err,
    ensures
        extra_fields(entries) == extra_fields(entries.take(n)),
    decreases entries.len(),
{
    if n == entries.len() {
        assert(entries.take(n) == entries);
    } else {
        assert(entries.drop_last().take(n) == entries.take(n));
        lemma_refusal_stays(entries.drop_last(), n);
    }
}

/// The entries of the first items come first.
proof fn lemma_entries_prefix(items: Seq<Seq<char>>, n: int)
    requires
        0 <= n <= items.len(),
    ensures
        extra_entries(items.take(n)).len() <= extra_entries(items).len(),
        extra_entries(items).take(extra_entries(items.take(n)).len() as int) == extra_entries(
            items.take(n),
        ),
    decreases items.len(),
{
    if n == items.len() {
        assert(items.take(n) == items);
        assert(extra_entries(items).take(extra_entries(items).len() as int) == extra_entries(
            items,
        ));
    } else {
        assert(items.drop_last().take(n) == items.take(n));
        lemma_entries_prefix(items.drop_last(), n);
        let first = extra_entries(items.take(n));
        let most = extra_entries(items.drop_last());
        assert(extra_entries(items).take(first.len() as int) == most.take(first.len() as int));
    }
}

/// The base URL without trailing slashes, or the complaint about the first
/// option that is not acceptable.
pub open spec fn acceptable(args: Args) -> Result<Seq<char>, ErrorView> {
    let base_url = trimmed_end(args.base_url@, '/');
    match not_positive("--pp"@, args.pp_counts@) {
        Some(error) => Err(error),
        None => match not_positive("--tg"@, args.tg_counts@) {
            Some(error) => Err(error),
            None => match not_positive("--concurrency"@, args.concurrency_levels@) {
                Some(error) => Err(error),
                None => if args.num_runs == 0 {
                    Err(ErrorView::Config("--runs must be greater than zero"@))
                } else if base_url.len() == 0 {
                    Err(ErrorView::Config("--base-url cannot be empty"@))
                } else {
                    Ok(base_url)
                },
            },
        },
    }
}

/// The configuration takes over what the user gave. The model and the name
/// that the endpoint knows it by are the detected ones where none was given.
pub open spec fn takes_over(
    config: BenchmarkConfig,
    args: Args,
    detected: Option<(String, String)>,
) -> bool {
    &&& config.api_key@ == args.api_key@
    &&& config.model@ == match args.model {
        Some(model) => model@,
        None => (detected->Some_0).0@,
    }
    &&& config.served_model_name@ == match args.served_model_name {
        Some(name) => name@,
        None => match args.model {
            Some(model) => model@,
            None => (detected->Some_0).1@,
        },
    }
    &&& config.pp_counts == args.pp_counts
    &&& config.tg_counts == args.tg_counts
    &&& config.depths == args.depths
    &&& config.concurrency_levels == args.concurrency_levels
    &&& config.num_runs == args.num_runs
    &&& config.warmup_runs == args.warmup_runs
    &&& config.exact_tg == args.exact_tg
    &&& config.no_cache == args.no_cache
    &&& config.enable_prefix_caching == args.enable_prefix_caching
    &&& config.latency_mode == args.latency_mode
    &&& config.no_warmup == args.no_warmup
    &&& config.adapt_prompt == !args.no_adapt_prompt
    &&& config.skip_coherence == args.skip_coherence
    &&& config.prompt_file == args.prompt_file
    &&& config.book_url == args.book_url
    &&& config.post_run_cmd == args.post_run_cmd
    &&& config.exit_on_first_fail == (args.exit_on_first_fail || args.no_results_on_fail)
    &&& config.no_results_on_fail == args.no_results_on_fail
    &&& config.save_result == args.save_result
    &&& config.output_format == args.output_format
    &&& config.timeout == args.timeout
}

/// The base URL without trailing slashes, if all options are acceptable.
pub fn check_args(args: &Args) -> (r: Result<String, Error>)
    ensures
        match r {
            Ok(base_url) => acceptable(*args) == Ok::<Seq<char>, ErrorView>(base_url@),
            Err(error) => acceptable(*args) == Err::<Seq<char>, ErrorView>(error@),
        },
{
    if let Err(error) = validate_positive("--pp", &args.pp_counts) {
        return Err(error);
    }
    if let Err(error) = validate_positive("--tg", &args.tg_counts) {
        return Err(error);
    }
    if let Err(error) = validate_positive("--concurrency", &args.concurrency_levels) {
        return Err(error);
    }
    if args.num_runs == 0 {
        return Err(Error::Config("--runs must be greater than zero".to_owned()));
    }
    let base_url = trim_end_matches(args.base_url.as_str(), '/');
    if base_url.as_str().is_empty() {
        return Err(Error::Config("--base-url cannot be empty".to_owned()));
    }
    Ok(base_url)
}

impl BenchmarkConfig {
    /// The configuration for what the user gave. Where the user gave no model,
    /// `detected` holds the model that the endpoint offers and the name that
    /// the endpoint knows it by.
    pub fn resolve(args: Args, detected: Option<(String, String)>) -> (r: Result<
        BenchmarkConfig,
        Error,
    >)
        requires
            args.model is Some || detected is Some,
        ensures
            match acceptable(args) {
                Err(error) => r is Err && r->Err_0@ == error,
                Ok(base_url) => match extra_fields(extra_entries(texts(args.extra_body@))) {
                    Err(error) => r is Err && r->Err_0@ == error,
                    Ok(fields) => {
                        &&& r is Ok
                        &&& r->Ok_0.base_url@ == base_url
                        &&& r->Ok_0.extra_body@ == fields
                        &&& r->Ok_0.extra_body.distinct()
                        &&& takes_over(r->Ok_0, args, detected)
                    },
                },
            },
    {
        let base_url = match check_args(&args) {
            Ok(base_url) => base_url,
            Err(error) => {
                return Err(error);
            },
        };
        let extra_body = match parse_extra_body(&args.extra_body) {
            Ok(fields) => fields,
            Err(error) => {
                return Err(error);
            },
        };
        let (model, detected_served) = match args.model {
            Some(model) => (model.clone(), model),
            None => detected.unwrap(),
        };
        let served_model_name = match args.served_model_name {
            Some(name) => name,
            None => detected_served,
        };
        Ok(
            BenchmarkConfig {
                base_url,
                api_key: args.api_key,
                model,
                served_model_name,
                pp_counts: args.pp_counts,
                tg_counts: args.tg_counts,
                depths: args.depths,
                concurrency_levels: args.concurrency_levels,
                num_runs: args.num_runs,
                warmup_runs: args.warmup_runs,
                exact_tg: args.exact_tg,
                no_cache: args.no_cache,
                enable_prefix_caching: args.enable_prefix_caching,
                latency_mode: args.latency_mode,
                no_warmup: args.no_warmup,
                adapt_prompt: !args.no_adapt_prompt,
                skip_coherence: args.skip_coherence,
                prompt_file: args.prompt_file,
                book_url: args.book_url,
                post_run_cmd: args.post_run_cmd,
                extra_body,
                exit_on_first_fail: args.exit_on_first_fail || args.no_results_on_fail,
                no_results_on_fail: args.no_results_on_fail,
                save_result: args.save_result,
                output_format: args.output_format,
                timeout: args.timeout,
            },
        )
    }
}

/// The name that the endpoint knows a model by.
pub open spec fn served_name(entry: ModelEntry) -> Seq<char> {
    if entry.id@.len() > 0 {
        entry.id@
    } else {
        entry.model@
    }
}

/// The name that the endpoint knows a model by.
pub fn model_id(entry: &ModelEntry) -> (r: String)
    ensures
        r@ == served_name(*entry),
{
    if !entry.id.as_str().is_empty() {
        entry.id.clone()
    } else {
        entry.model.clone()
    }
}

/// The models that an answer lists: its `data`, or its `models` where there
/// are no `data`.
pub open spec fn listed(response: ModelsResponse) -> Seq<ModelEntry> {
    if response.data@.len() == 0 {
        response.models@
    } else {
        response.data@
    }
}

/// The model for the report and the name that the endpoint knows it by, where
/// the endpoint offers just one model.
pub open spec fn only_model(response: ModelsResponse, url: Seq<char>) -> Result<
    (Seq<char>, Seq<char>),
    ErrorView,
> {
    let entries = listed(response);
    let names = Seq::new(entries.len(), |i: int| served_name(entries[i]));
    if entries.len() != 1 {
        Err(
            ErrorView::Config(
                "model auto-detection requires exactly one endpoint model (found "@ + decimal(
                    entries.len(),
                ) + ": "@ + joined(names, ", "@) + "); pass --model"@,
            ),
        )
    } else if names[0].len() == 0 {
        Err(ErrorView::Protocol { endpoint: url, message: "model entry has no id"@ })
    } else if position(entries[0].root@, '/') is Some {
        Ok((entries[0].root@, names[0]))
    } else {
        Ok((names[0], names[0]))
    }
}

/// The address that lists the models of the endpoint.
pub fn models_url(base_url: &str) -> (r: String)
    ensures
        r@ == base_url@ + "/models"@,
{
    base_url.to_owned().concat("/models")
}

/// The seconds that the detection of the model may take.
pub fn detection_timeout(timeout: u64) -> (r: u64)
    ensures
        r == if timeout < 30 {
            timeout
        } else {
            30
        },
{
    if timeout < 30 {
        timeout
    } else {
        30
    }
}

/// Chooses the model from what the endpoint at `url` answered.
pub fn detect_model(response: ModelsResponse, url: &str) -> (r: Result<(String, String), Error>)
    ensures
        match r {
            Ok((model, served)) => only_model(response, url@) == Ok::<
                (Seq<char>, Seq<char>),
                ErrorView,
            >((model@, served@)),
            Err(error) => only_model(response, url@) == Err::<
                (Seq<char>, Seq<char>),
                ErrorView,
            >(error@),
        },
{
    let entries = if response.data.len() == 0 {
        response.models
    } else {
        response.data
    };
    let mut names: Vec<String> = Vec::new();
    let mut i: usize = 0;
    while i < entries.len()
        invariant
            i <= entries.len(),
            names@.len() == i,
            forall|j: int| 0 <= j < i ==> (#[trigger] names@[j])@ == served_name(entries@[j]),
        decreases entries.len() - i,
    {
        names.push(model_id(&entries[i]));
        i += 1;
    }
    assert(texts(names@) == Seq::new(entries@.len(), |j: int| served_name(entries@[j])));
    if entries.len() != 1 {
        let mut text =
            "model auto-detection requires exactly one endpoint model (found ".to_owned();
        text.append(decimal_text(entries.len() as u64).as_str());
        text.append(": ");
        text.append(join(&names, ", ").as_str());
        text.append("); pass --model");
        return Err(Error::Config(text));
    }
    let served = names[0].clone();
    assert(texts(names@)[0] == served@);
    if served.as_str().is_empty() {
        return Err(
            Error::Protocol {
                endpoint: url.to_owned(),
                message: "model entry has no id".to_owned(),
            },
        );
    }
    let model = if split_once(entries[0].root.as_str(), '/').is_some() {
        entries[0].root.clone()
    } else {
        served.clone()
    };
    Ok((model, served))
}

proof fn lemma_before_suffix(s: Seq<char>, edge: char)
    ensures
        trimmed_end(s, edge).len() > 0 ==> trimmed_end(s, edge).last() != edge,
    decreases s.len(),
{
    if s.len() > 0 && s.last() == edge {
        lemma_before_suffix(s.drop_last(), edge);
    }
}

/// What is accepted asks for something: prompts, answers and requests at a time,
/// none of them zero, and a run. The base URL does not end in a slash.
pub proof fn law_accepted_options_ask_for_something(args: Args)
    requires
        acceptable(args) is Ok,
    ensures
        args.pp_counts@.len() > 0 && !args.pp_counts@.contains(0),
        args.tg_counts@.len() > 0 && !args.tg_counts@.contains(0),
        args.concurrency_levels@.len() > 0 && !args.concurrency_levels@.contains(0),
        args.num_runs > 0,
        acceptable(args)->Ok_0.len() > 0,
        acceptable(args)->Ok_0.last() != '/',
{
    lemma_before_suffix(args.base_url@, '/');
}

/// A model is chosen only if the endpoint offers exactly one, and that one has a
/// name.
pub proof fn law_only_one_model_is_chosen(response: ModelsResponse, url: Seq<char>)
    ensures
        only_model(response, url) is Ok <==> listed(response).len() == 1 && served_name(
            listed(response)[0],
        ).len() > 0,
{
}

/// Of several entries for the same extra field the last one counts; entries
/// for other fields do not change it.
pub proof fn law_later_extra_fields_count(entries: Seq<Seq<char>>, entry: Seq<char>)
    requires
        extra_fields(entries) is Ok,
    ensures
        match extra_entry(entry) {
            ExtraEntry::Nothing => extra_fields(entries.push(entry)) == extra_fields(entries),
            ExtraEntry::Refused(error) => extra_fields(entries.push(entry)) == Err::<
                Map<Seq<char>, JsonTree>,
                ErrorView,
            >(error),
            ExtraEntry::Field(key, value) => extra_fields(entries.push(entry)) == Ok::<
                Map<Seq<char>, JsonTree>,
                ErrorView,
            >(extra_fields(entries)->Ok_0.insert(key, value)),
        },
{
    assert(entries.push(entry).drop_last() == entries);
}

} // verus!
