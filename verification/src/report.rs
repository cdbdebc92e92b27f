//! The report on a benchmark as a table.

use vstd::prelude::*;

use crate::config::OutputFormat;
use crate::error::Error;
use crate::metrics::BenchmarkRun;
use crate::text::decimal;
use crate::text::decimal_text;
use crate::text::joined;
use crate::text::texts;

verus! {

/// The mean and the standard deviation of a metric as they are printed.
#[derive(Debug)]
pub struct MetricText {
    pub mean: String,
    pub std: String,
    /// With two decimals.
    pub mean_rounded: String,
    /// With two decimals.
    pub std_rounded: String,
}

/// What was benchmarked, and what was found.
#[derive(Debug)]
pub struct BenchmarkReport {
    pub version: String,
    pub timestamp: String,
    pub latency_mode: String,
    /// In milliseconds, with two decimals.
    pub latency_ms: String,
    pub model: String,
    pub prefix_caching_enabled: bool,
    pub max_concurrency: usize,
    pub failed_requests: usize,
    pub benchmarks: Vec<BenchmarkRun<MetricText>>,
}

/// The cell of a metric.
pub open spec fn cell(metric: Option<MetricText>) -> Seq<char> {
    match metric {
        Some(text) => text.mean_rounded@ + " ± "@ + text.std_rounded@,
        None => Seq::empty(),
    }
}

/// A row of a table.
pub open spec fn table_row(cells: Seq<Seq<char>>) -> Seq<char> {
    "| "@ + joined(cells, " | "@) + " |\n"@
}

/// The cells of a row. The rate of single requests is shown only where there
/// are several at a time.
pub open spec fn row_cells(
    many: bool,
    model: Seq<char>,
    test: Seq<char>,
    metrics: (
        Option<MetricText>,
        Option<MetricText>,
        Option<MetricText>,
        Option<MetricText>,
        Option<MetricText>,
        Option<MetricText>,
    ),
) -> Seq<Seq<char>> {
    let (rate, req_rate, peak, ttfr, ppt, ttft) = metrics;
    if many {
        seq![
            model,
            test,
            cell(rate),
            cell(req_rate),
            cell(peak),
            cell(ttfr),
            cell(ppt),
            cell(ttft),
        ]
    } else {
        seq![model, test, cell(rate), cell(peak), cell(ttfr), cell(ppt), cell(ttft)]
    }
}

/// How a test is called: what was measured, how much of it, and behind how
/// much context.
pub open spec fn test_name(
    run: BenchmarkRun<MetricText>,
    what: Seq<char>,
    size: usize,
) -> Seq<char> {
    if run.is_context_prefill_phase {
        "ctx_"@ + what + " @ d"@ + decimal(run.context_size as nat)
    } else if run.context_size > 0 {
        what + decimal(size as nat) + " @ d"@ + decimal(run.context_size as nat)
    } else {
        what + decimal(size as nat)
    }
}

/// How many requests were made at a time, where that differs between tests.
pub open spec fn concurrency_suffix(many: bool, concurrency: usize) -> Seq<char> {
    if many {
        " (c"@ + decimal(concurrency as nat) + ")"@
    } else {
        Seq::empty()
    }
}

/// Something was generated that has a rate.
pub open spec fn has_generation(run: BenchmarkRun<MetricText>) -> bool {
    run.tg_throughput is Some || run.peak_throughput is Some
}

/// The rows of a test.
pub open spec fn run_rows(
    run: BenchmarkRun<MetricText>,
    many: bool,
    model: Seq<char>,
) -> Seq<char> {
    let suffix = concurrency_suffix(many, run.concurrency);
    let prompt = table_row(
        row_cells(
            many,
            model,
            test_name(run, "pp"@, run.prompt_size) + suffix,
            (
                run.pp_throughput,
                run.pp_req_throughput,
                None,
                run.ttfr,
                run.est_ppt,
                run.e2e_ttft,
            ),
        ),
    );
    if has_generation(run) {
        prompt + table_row(
            row_cells(
                many,
                model,
                test_name(run, "tg"@, run.response_size) + suffix,
                (
                    run.tg_throughput,
                    run.tg_req_throughput,
                    run.peak_throughput,
                    None,
                    None,
                    None,
                ),
            ),
        )
    } else {
        prompt
    }
}

/// The rows of the tests, one test after the other.
pub open spec fn all_rows(
    runs: Seq<BenchmarkRun<MetricText>>,
    many: bool,
    model: Seq<char>,
) -> Seq<char>
    decreases runs.len(),
{
    if runs.len() == 0 {
        Seq::empty()
    } else {
        all_rows(runs.drop_last(), many, model) + run_rows(runs.last(), many, model)
    }
}

/// The first lines of the table.
pub open spec fn table_head(many: bool) -> Seq<char> {
    if many {
        "| model | test | t/s (total) | t/s (req) | peak t/s | ttfr (ms) | est_ppt (ms) | e2e_ttft (ms) |\n|:--|--:|--:|--:|--:|--:|--:|--:|\n"@
    } else {
        "| model | test | t/s | peak t/s | ttfr (ms) | est_ppt (ms) | e2e_ttft (ms) |\n|:--|--:|--:|--:|--:|--:|--:|\n"@
    }
}

impl BenchmarkReport {
    /// The last line of the report.
    pub open spec fn footer(self) -> Seq<char> {
        "\nrust-benchy "@ + self.version@ + " | "@ + self.timestamp@ + " | latency: "@
            + self.latency_mode@ + " ("@ + self.latency_ms@ + " ms) | failed requests: "@ + decimal(
            self.failed_requests as nat,
        ) + "\n"@
    }

    /// The report as a Markdown table.
    pub open spec fn markdown_text(self) -> Seq<char> {
        let many = self.max_concurrency > 1;
        table_head(many) + all_rows(self.benchmarks@, many, self.model@) + self.footer()
    }
}

/// The cell of a metric.
fn fmt(metric: Option<&MetricText>) -> (r: String)
    ensures
        r@ == match metric {
            Some(text) => cell(Some(*text)),
            None => cell(None),
        },
{
    match metric {
        Some(text) => {
            let mut cell = text.mean_rounded.clone();
            cell.append(" ± ");
            cell.append(text.std_rounded.as_str());
            cell
        },
        None => String::new(),
    }
}

/// The metric behind a reference.
pub open spec fn owned(metric: Option<&MetricText>) -> Option<MetricText> {
    match metric {
        Some(text) => Some(*text),
        None => None,
    }
}

/// Adds a row to a table.
fn push_row(
    output: &mut String,
    many: bool,
    model: &str,
    test: &str,
    rate: Option<&MetricText>,
    req_rate: Option<&MetricText>,
    peak: Option<&MetricText>,
    ttfr: Option<&MetricText>,
    ppt: Option<&MetricText>,
    ttft: Option<&MetricText>,
)
    ensures
        final(output)@ == old(output)@ + table_row(
            row_cells(
                many,
                model@,
                test@,
                (
                    owned(rate),
                    owned(req_rate),
                    owned(peak),
                    owned(ttfr),
                    owned(ppt),
                    owned(ttft),
                ),
            ),
        ),
{
    let mut cells: Vec<String> = Vec::new();
    cells.push(model.to_owned());
    cells.push(test.to_owned());
    cells.push(fmt(rate));
    if many {
        cells.push(fmt(req_rate));
    }
    cells.push(fmt(peak));
    cells.push(fmt(ttfr));
    cells.push(fmt(ppt));
    cells.push(fmt(ttft));
    assert(texts(cells@) =~= row_cells(
        many,
        model@,
        test@,
        (owned(rate), owned(req_rate), owned(peak), owned(ttfr), owned(ppt), owned(ttft)),
    ));
    output.append("| ");
    output.append(crate::text::join(&cells, " | ").as_str());
    output.append(" |\n");
    assert(output@ =~= old(output)@ + table_row(texts(cells@)));
}

/// How a test is called.
fn name_of_test(run: &BenchmarkRun<MetricText>, what: &str, size: usize) -> (r: String)
    ensures
        r@ == test_name(*run, what@, size),
{
    let mut name = String::new();
    if run.is_context_prefill_phase {
        name.append("ctx_");
        name.append(what);
    } else {
        name.append(what);
        name.append(decimal_text(size as u64).as_str());
    }
    if run.is_context_prefill_phase || run.context_size > 0 {
        name.append(" @ d");
        name.append(decimal_text(run.context_size as u64).as_str());
    }
    assert(name@ =~= test_name(*run, what@, size));
    name
}

/// How many requests were made at a time.
fn suffix_of_test(many: bool, concurrency: usize) -> (r: String)
    ensures
        r@ == concurrency_suffix(many, concurrency),
{
    let mut suffix = String::new();
    if many {
        suffix.append(" (c");
        suffix.append(decimal_text(concurrency as u64).as_str());
        suffix.append(")");
    }
    assert(suffix@ =~= concurrency_suffix(many, concurrency));
    suffix
}

/// Adds the rows of a test to a table.
fn push_run_rows(
    output: &mut String,
    run: &BenchmarkRun<MetricText>,
    many: bool,
    model: &str,
)
    ensures
        final(output)@ == old(output)@ + run_rows(*run, many, model@),
{
    let suffix = suffix_of_test(many, run.concurrency);
    let pp_name = name_of_test(run, "pp", run.prompt_size).concat(suffix.as_str());
    push_row(
        output,
        many,
        model,
        pp_name.as_str(),
        run.pp_throughput.as_ref(),
        run.pp_req_throughput.as_ref(),
        None,
        run.ttfr.as_ref(),
        run.est_ppt.as_ref(),
        run.e2e_ttft.as_ref(),
    );
    if run.tg_throughput.is_some() || run.peak_throughput.is_some() {
        let tg_name = name_of_test(run, "tg", run.response_size).concat(suffix.as_str());
        push_row(
            output,
            many,
            model,
            tg_name.as_str(),
            run.tg_throughput.as_ref(),
            run.tg_req_throughput.as_ref(),
            run.peak_throughput.as_ref(),
            None,
            None,
            None,
        );
    }
    assert(output@ =~= old(output)@ + run_rows(*run, many, model@));
}

impl BenchmarkReport {
    /// The report as a Markdown table.
    pub fn markdown(&self) -> (r: String)
        ensures
            r@ == self.markdown_text(),
    {
        let many = self.max_concurrency > 1;
        let mut output = if many {
            "| model | test | t/s (total) | t/s (req) | peak t/s | ttfr (ms) | est_ppt (ms) | e2e_ttft (ms) |\n|:--|--:|--:|--:|--:|--:|--:|--:|\n".to_owned()
        } else {
            "| model | test | t/s | peak t/s | ttfr (ms) | est_ppt (ms) | e2e_ttft (ms) |\n|:--|--:|--:|--:|--:|--:|--:|\n".to_owned()
        };
        let mut i: usize = 0;
        assert(all_rows(self.benchmarks@.take(0), many, self.model@) =~= Seq::empty());
        while i < self.benchmarks.len()
            invariant
                i <= self.benchmarks@.len(),
                many == (self.max_concurrency > 1),
                output@ == table_head(many) + all_rows(
                    self.benchmarks@.take(i as int),
                    many,
                    self.model@,
                ),
            decreases self.benchmarks@.len() - i,
        {
            let run = &self.benchmarks[i];
            let ghost before = all_rows(self.benchmarks@.take(i as int), many, self.model@);
            push_run_rows(&mut output, run, many, self.model.as_str());
            i += 1;
            proof {
                assert(self.benchmarks@.take(i as int).drop_last() == self.benchmarks@.take(i - 1));
                assert(output@ =~= table_head(many) + (before + run_rows(*run, many, self.model@)));
            }
        }
        assert(self.benchmarks@.take(i as int) == self.benchmarks@);
        let ghost table = output@;
        output.append("\nrust-benchy ");
        output.append(self.version.as_str());
        output.append(" | ");
        output.append(self.timestamp.as_str());
        output.append(" | latency: ");
        output.append(self.latency_mode.as_str());
        output.append(" (");
        output.append(self.latency_ms.as_str());
        output.append(" ms) | failed requests: ");
        output.append(decimal_text(self.failed_requests as u64).as_str());
        output.append("\n");
        assert(output@ =~= table + self.footer());
        output
    }
}

/// A character that has a CSV field put in quotes.
pub open spec fn is_csv_special(c: char) -> bool {
    c == ',' || c == '"' || c == '\r' || c == '\n'
}

/// The text with every quote doubled.
pub open spec fn quotes_doubled(s: Seq<char>) -> Seq<char>
    decreases s.len(),
{
    if s.len() == 0 {
        s
    } else if s.last() == '"' {
        quotes_doubled(s.drop_last()).push('"').push('"')
    } else {
        quotes_doubled(s.drop_last()).push(s.last())
    }
}

/// A CSV field: in quotes where it holds a special character.
pub open spec fn csv_field(s: Seq<char>) -> Seq<char> {
    if exists|i: int| 0 <= i < s.len() && is_csv_special(#[trigger] s[i]) {
        seq!['"'] + quotes_doubled(s) + seq!['"']
    } else {
        s
    }
}

/// A CSV record of several fields, with the line feed that ends it.
pub open spec fn csv_line(fields: Seq<Seq<char>>) -> Seq<char> {
    joined(Seq::new(fields.len(), |i: int| csv_field(fields[i])), seq![',']).push('\n')
}

/// `csv::Writer::write_record` of one record into a fresh buffer. A field is
/// put in quotes where it holds a comma, a quote, a carriage return or a line
/// feed, and its quotes are doubled; commas separate the fields and a line
/// feed ends them. Writing to memory does not fail.
#[verifier::external_body]
fn write_csv_record(fields: &Vec<String>) -> (r: Result<String, String>)
    requires
        fields@.len() > 1,
    ensures
        r is Ok,
        r->Ok_0@ == csv_line(texts(fields@)),
{
    let mut writer = csv::Writer::from_writer(Vec::new());
    writer.write_record(fields).map_err(|error| error.to_string())?;
    let bytes = writer.into_inner().map_err(|error| error.to_string())?;
    String::from_utf8(bytes).map_err(|error| error.to_string())
}

/// The mean and the deviation of a metric, or two empty fields.
pub open spec fn pair(metric: Option<MetricText>) -> (Seq<char>, Seq<char>) {
    match metric {
        Some(text) => (text.mean@, text.std@),
        None => (Seq::empty(), Seq::empty()),
    }
}

/// The names of the fields.
pub open spec fn csv_names() -> Seq<Seq<char>> {
    seq![
        "model"@,
        "test"@,
        "concurrency"@,
        "t_s_mean"@,
        "t_s_std"@,
        "t_s_req_mean"@,
        "t_s_req_std"@,
        "peak_t_s_mean"@,
        "peak_t_s_std"@,
        "ttfr_ms_mean"@,
        "ttfr_ms_std"@,
        "est_ppt_ms_mean"@,
        "est_ppt_ms_std"@,
        "e2e_ttft_ms_mean"@,
        "e2e_ttft_ms_std"@,
    ]
}

/// The fields of a record.
pub open spec fn record_fields(
    model: Seq<char>,
    test: Seq<char>,
    concurrency: usize,
    metrics: (
        Option<MetricText>,
        Option<MetricText>,
        Option<MetricText>,
        Option<MetricText>,
        Option<MetricText>,
        Option<MetricText>,
    ),
) -> Seq<Seq<char>> {
    let (rate, req_rate, peak, ttfr, ppt, ttft) = metrics;
    seq![
        model,
        test,
        decimal(concurrency as nat),
        pair(rate).0,
        pair(rate).1,
        pair(req_rate).0,
        pair(req_rate).1,
        pair(peak).0,
        pair(peak).1,
        pair(ttfr).0,
        pair(ttfr).1,
        pair(ppt).0,
        pair(ppt).1,
        pair(ttft).0,
        pair(ttft).1,
    ]
}

/// The records of a test.
pub open spec fn run_records(run: BenchmarkRun<MetricText>, model: Seq<char>) -> Seq<char> {
    let prompt = csv_line(
        record_fields(
            model,
            test_name(run, "pp"@, run.prompt_size),
            run.concurrency,
            (
                run.pp_throughput,
                run.pp_req_throughput,
                None,
                run.ttfr,
                run.est_ppt,
                run.e2e_ttft,
            ),
        ),
    );
    if has_generation(run) {
        prompt + csv_line(
            record_fields(
                model,
                test_name(run, "tg"@, run.response_size),
                run.concurrency,
                (
                    run.tg_throughput,
                    run.tg_req_throughput,
                    run.peak_throughput,
                    None,
                    None,
                    None,
                ),
            ),
        )
    } else {
        prompt
    }
}

/// The records of the tests, one test after the other.
pub open spec fn all_records(
    runs: Seq<BenchmarkRun<MetricText>>,
    model: Seq<char>,
) -> Seq<char>
    decreases runs.len(),
{
    if runs.len() == 0 {
        Seq::empty()
    } else {
        all_records(runs.drop_last(), model) + run_records(runs.last(), model)
    }
}

/// Adds the mean and the deviation of a metric to a record.
fn push_pair(record: &mut Vec<String>, metric: Option<&MetricText>)
    ensures
        texts(final(record)@) == texts(old(record)@).push(pair(owned(metric)).0).push(
            pair(owned(metric)).1,
        ),
{
    let ghost before = texts(record@);
    match metric {
        Some(text) => {
            record.push(text.mean.clone());
            record.push(text.std.clone());
        },
        None => {
            record.push(String::new());
            record.push(String::new());
        },
    }
    assert(texts(record@) =~= before.push(pair(owned(metric)).0).push(pair(owned(metric)).1));
}

/// The fields of a record.
fn csv_record(
    model: &str,
    test: &str,
    concurrency: usize,
    rate: Option<&MetricText>,
    req_rate: Option<&MetricText>,
    peak: Option<&MetricText>,
    ttfr: Option<&MetricText>,
    ppt: Option<&MetricText>,
    ttft: Option<&MetricText>,
) -> (r: Vec<String>)
    ensures
        texts(r@) == record_fields(
            model@,
            test@,
            concurrency,
            (owned(rate), owned(req_rate), owned(peak), owned(ttfr), owned(ppt), owned(ttft)),
        ),
{
    let mut record: Vec<String> = Vec::new();
    record.push(model.to_owned());
    record.push(test.to_owned());
    record.push(decimal_text(concurrency as u64));
    assert(texts(record@) =~= seq![model@, test@, decimal(concurrency as nat)]);
    push_pair(&mut record, rate);
    push_pair(&mut record, req_rate);
    push_pair(&mut record, peak);
    push_pair(&mut record, ttfr);
    push_pair(&mut record, ppt);
    push_pair(&mut record, ttft);
    assert(texts(record@) =~= record_fields(
        model@,
        test@,
        concurrency,
        (owned(rate), owned(req_rate), owned(peak), owned(ttfr), owned(ppt), owned(ttft)),
    ));
    record
}

/// The names of the fields.
fn csv_header() -> (r: Vec<String>)
    ensures
        texts(r@) == csv_names(),
{
    let mut names: Vec<String> = Vec::new();
    names.push("model".to_owned());
    names.push("test".to_owned());
    names.push("concurrency".to_owned());
    names.push("t_s_mean".to_owned());
    names.push("t_s_std".to_owned());
    names.push("t_s_req_mean".to_owned());
    names.push("t_s_req_std".to_owned());
    names.push("peak_t_s_mean".to_owned());
    names.push("peak_t_s_std".to_owned());
    names.push("ttfr_ms_mean".to_owned());
    names.push("ttfr_ms_std".to_owned());
    names.push("est_ppt_ms_mean".to_owned());
    names.push("est_ppt_ms_std".to_owned());
    names.push("e2e_ttft_ms_mean".to_owned());
    names.push("e2e_ttft_ms_std".to_owned());
    assert(texts(names@) =~= csv_names());
    names
}

/// Adds a record to a CSV text.
fn push_record(output: &mut String, fields: &Vec<String>) -> (r: Result<(), Error>)
    requires
        fields@.len() > 1,
    ensures
        r is Ok,
        final(output)@ == old(output)@ + csv_line(texts(fields@)),
{
    match write_csv_record(fields) {
        Ok(line) => {
            output.append(line.as_str());
            Ok(())
        },
        Err(words) => Err(Error::Csv(words)),
    }
}

/// Adds the records of a test to a CSV text.
fn push_run_records(output: &mut String, run: &BenchmarkRun<MetricText>, model: &str) -> (r: Result<
    (),
    Error,
>)
    ensures
        r is Ok,
        final(output)@ == old(output)@ + run_records(*run, model@),
{
    let pp_name = name_of_test(run, "pp", run.prompt_size);
    let record = csv_record(
        model,
        pp_name.as_str(),
        run.concurrency,
        run.pp_throughput.as_ref(),
        run.pp_req_throughput.as_ref(),
        None,
        run.ttfr.as_ref(),
        run.est_ppt.as_ref(),
        run.e2e_ttft.as_ref(),
    );
    assert(record@.len() == texts(record@).len());
    if let Err(error) = push_record(output, &record) {
        return Err(error);
    }
    if run.tg_throughput.is_some() || run.peak_throughput.is_some() {
        let tg_name = name_of_test(run, "tg", run.response_size);
        let record = csv_record(
            model,
            tg_name.as_str(),
            run.concurrency,
            run.tg_throughput.as_ref(),
            run.tg_req_throughput.as_ref(),
            run.peak_throughput.as_ref(),
            None,
            None,
            None,
        );
        assert(record@.len() == texts(record@).len());
        if let Err(error) = push_record(output, &record) {
            return Err(error);
        }
    }
    assert(output@ =~= old(output)@ + run_records(*run, model@));
    Ok(())
}

impl BenchmarkReport {
    /// The report as CSV: the names of the fields, then the records.
    pub open spec fn csv_text(self) -> Seq<char> {
        csv_line(csv_names()) + all_records(self.benchmarks@, self.model@)
    }

    /// The report as CSV.
    pub fn csv(&self) -> (r: Result<String, Error>)
        ensures
            r is Ok,
            r->Ok_0@ == self.csv_text(),
    {
        let mut output = String::new();
        let names = csv_header();
        assert(names@.len() == texts(names@).len());
        if let Err(error) = push_record(&mut output, &names) {
            return Err(error);
        }
        assert(output@ =~= csv_line(csv_names()) + all_records(
            self.benchmarks@.take(0),
            self.model@,
        ));
        let mut i: usize = 0;
        while i < self.benchmarks.len()
            invariant
                i <= self.benchmarks@.len(),
                output@ == csv_line(csv_names()) + all_records(
                    self.benchmarks@.take(i as int),
                    self.model@,
                ),
            decreases self.benchmarks@.len() - i,
        {
            let run = &self.benchmarks[i];
            let ghost before = all_records(self.benchmarks@.take(i as int), self.model@);
            if let Err(error) = push_run_records(&mut output, run, self.model.as_str()) {
                return Err(error);
            }
            i += 1;
            proof {
                assert(self.benchmarks@.take(i as int).drop_last() == self.benchmarks@.take(i - 1));
                assert(output@ =~= csv_line(csv_names()) + (before + run_records(
                    *run,
                    self.model@,
                )));
            }
        }
        assert(self.benchmarks@.take(i as int) == self.benchmarks@);
        Ok(output)
    }

    /// The text of the report where it is a table. A report as JSON is not
    /// written here.
    pub fn write(&self, format: OutputFormat) -> (r: Result<Option<String>, Error>)
        ensures
            r is Ok,
            match format {
                OutputFormat::Json => r->Ok_0 is None,
                OutputFormat::Md => r->Ok_0 is Some && (r->Ok_0)->0@ == self.markdown_text(),
                OutputFormat::Csv => r->Ok_0 is Some && (r->Ok_0)->0@ == self.csv_text(),
            },
    {
        match format {
            OutputFormat::Json => Ok(None),
            OutputFormat::Md => Ok(Some(self.markdown())),
            OutputFormat::Csv => match self.csv() {
                Ok(text) => Ok(Some(text)),
                Err(error) => Err(error),
            },
        }
    }
}

/// Every record has a field for every name, and every row of the table as many
/// cells as any other.
pub proof fn law_tables_are_rectangular(
    model: Seq<char>,
    test: Seq<char>,
    concurrency: usize,
    many: bool,
    metrics: (
        Option<MetricText>,
        Option<MetricText>,
        Option<MetricText>,
        Option<MetricText>,
        Option<MetricText>,
        Option<MetricText>,
    ),
)
    ensures
        record_fields(model, test, concurrency, metrics).len() == csv_names().len(),
        row_cells(many, model, test, metrics).len() == if many {
            8nat
        } else {
            7
        },
{
}

} // verus!
