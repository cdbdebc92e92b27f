//! Where the numbers of a report stand.

use vstd::prelude::*;

use crate::metrics::BenchmarkRun;
use crate::report::all_rows;
use crate::report::csv_field;
use crate::report::csv_line;
use crate::report::csv_names;
use crate::report::is_csv_special;
use crate::report::quotes_doubled;
use crate::report::record_fields;
use crate::report::row_cells;
use crate::report::run_records;
use crate::report::run_rows;
use crate::report::table_head;
use crate::report::table_row;
use crate::report::BenchmarkReport;
use crate::report::MetricText;
use crate::text::decimal;
use crate::text::joined;

verus! {

/// What a column of a report holds.
pub enum Column {
    Model,
    Test,
    Concurrency,
    Rate,
    RequestRate,
    Peak,
    FirstResponse,
    PromptTime,
    FirstToken,
}

/// What stands above a column of the table. With several requests at a time the
/// rate is that of all of them.
pub open spec fn heading(column: Column, many: bool) -> Seq<char> {
    match column {
        Column::Model => "model"@,
        Column::Test => "test"@,
        Column::Concurrency => "concurrency"@,
        Column::Rate => if many {
            "t/s (total)"@
        } else {
            "t/s"@
        },
        Column::RequestRate => "t/s (req)"@,
        Column::Peak => "peak t/s"@,
        Column::FirstResponse => "ttfr (ms)"@,
        Column::PromptTime => "est_ppt (ms)"@,
        Column::FirstToken => "e2e_ttft (ms)"@,
    }
}

/// The columns of the table. The rate of single requests has one only if there
/// are several at a time somewhere.
pub open spec fn columns(many: bool) -> Seq<Column> {
    if many {
        seq![
            Column::Model,
            Column::Test,
            Column::Rate,
            Column::RequestRate,
            Column::Peak,
            Column::FirstResponse,
            Column::PromptTime,
            Column::FirstToken,
        ]
    } else {
        seq![
            Column::Model,
            Column::Test,
            Column::Rate,
            Column::Peak,
            Column::FirstResponse,
            Column::PromptTime,
            Column::FirstToken,
        ]
    }
}

/// The metric of a run that belongs in a column, in the row on its prompts or
/// in that on its answers.
pub open spec fn metric_in(
    column: Column,
    run: BenchmarkRun<MetricText>,
    answers: bool,
) -> Option<MetricText> {
    match column {
        Column::Rate => if answers {
            run.tg_throughput
        } else {
            run.pp_throughput
        },
        Column::RequestRate => if answers {
            run.tg_req_throughput
        } else {
            run.pp_req_throughput
        },
        Column::Peak => if answers {
            run.peak_throughput
        } else {
            None
        },
        Column::FirstResponse => if answers {
            None
        } else {
            run.ttfr
        },
        Column::PromptTime => if answers {
            None
        } else {
            run.est_ppt
        },
        Column::FirstToken => if answers {
            None
        } else {
            run.e2e_ttft
        },
        _ => None,
    }
}

/// What a test is called: the kind and number of its tokens, or that its
/// context is loaded, and behind how much context it stands.
pub open spec fn title(run: BenchmarkRun<MetricText>, answers: bool) -> Seq<char> {
    let kind = if answers {
        "tg"@
    } else {
        "pp"@
    };
    let size = if answers {
        run.response_size
    } else {
        run.prompt_size
    };
    let depth = " @ d"@ + decimal(run.context_size as nat);
    if run.is_context_prefill_phase {
        "ctx_"@ + kind + depth
    } else if run.context_size > 0 {
        kind + decimal(size as nat) + depth
    } else {
        kind + decimal(size as nat)
    }
}

/// The cell of a run in a column of the table.
pub open spec fn table_cell(
    column: Column,
    run: BenchmarkRun<MetricText>,
    answers: bool,
    many: bool,
    model: Seq<char>,
) -> Seq<char> {
    match column {
        Column::Model => model,
        Column::Test => if many {
            title(run, answers) + (" (c"@ + decimal(run.concurrency as nat) + ")"@)
        } else {
            title(run, answers)
        },
        _ => match metric_in(column, run, answers) {
            Some(text) => text.mean_rounded@ + " ± "@ + text.std_rounded@,
            None => Seq::empty(),
        },
    }
}

/// Cells between bars.
pub open spec fn between_bars(cells: Seq<Seq<char>>) -> Seq<char>
    decreases cells.len(),
{
    if cells.len() == 0 {
        seq!['|']
    } else {
        between_bars(cells.drop_last()) + seq![' '] + cells.last() + seq![' ', '|']
    }
}

/// A line of the table: the cells of a run, one for each column.
pub open spec fn table_line(
    run: BenchmarkRun<MetricText>,
    answers: bool,
    many: bool,
    model: Seq<char>,
) -> Seq<char> {
    between_bars(
        Seq::new(
            columns(many).len(),
            |i: int| table_cell(columns(many)[i], run, answers, many, model),
        ),
    ) + seq!['\n']
}

/// The line below the headings: the first of so many columns is on the left.
pub open spec fn rule(count: nat) -> Seq<char>
    decreases count,
{
    if count == 0 {
        seq!['|']
    } else if count == 1 {
        seq!['|', ':', '-', '-', '|']
    } else {
        rule((count - 1) as nat) + seq!['-', '-', ':', '|']
    }
}

/// What stands below the table.
pub open spec fn closing(report: BenchmarkReport) -> Seq<char> {
    "\nrust-benchy "@ + report.version@ + " | "@ + report.timestamp@ + " | latency: "@
        + report.latency_mode@ + " ("@ + report.latency_ms@ + " ms) | failed requests: "@ + decimal(
        report.failed_requests as nat,
    ) + "\n"@
}

/// A run has a line on its answers.
pub open spec fn has_answers(run: BenchmarkRun<MetricText>) -> bool {
    run.tg_throughput is Some || run.peak_throughput is Some
}

proof fn lemma_bars(cells: Seq<Seq<char>>)
    requires
        cells.len() > 0,
    ensures
        "| "@ + joined(cells, " | "@) + " |\n"@ == between_bars(cells) + seq!['\n'],
    decreases cells.len(),
{
    reveal_strlit("| ");
    reveal_strlit(" | ");
    reveal_strlit(" |\n");
    let ghost line = "| "@ + joined(cells, " | "@) + " |\n"@;
    if cells.len() == 1 {
        assert(between_bars(cells.drop_last()) == seq!['|']);
        assert(line =~= between_bars(cells) + seq!['\n']);
    } else {
        let rest = cells.drop_last();
        lemma_bars(rest);
        let before = "| "@ + joined(rest, " | "@) + " |\n"@;
        assert(before.drop_last() =~= between_bars(rest));
        assert(before.drop_last() =~= "| "@ + joined(rest, " | "@) + seq![' ', '|']);
        assert(line =~= ("| "@ + joined(rest, " | "@) + seq![' ', '|']) + seq![' ']
            + cells.last() + seq![' ', '|', '\n']);
        assert(line =~= between_bars(cells) + seq!['\n']);
    }
}

proof fn lemma_row(run: BenchmarkRun<MetricText>, answers: bool, many: bool, model: Seq<char>)
    ensures
        table_row(
            row_cells(
                many,
                model,
                table_cell(Column::Test, run, answers, many, model),
                (
                    metric_in(Column::Rate, run, answers),
                    metric_in(Column::RequestRate, run, answers),
                    metric_in(Column::Peak, run, answers),
                    metric_in(Column::FirstResponse, run, answers),
                    metric_in(Column::PromptTime, run, answers),
                    metric_in(Column::FirstToken, run, answers),
                ),
            ),
        ) == table_line(run, answers, many, model),
{
    let cells = row_cells(
        many,
        model,
        table_cell(Column::Test, run, answers, many, model),
        (
            metric_in(Column::Rate, run, answers),
            metric_in(Column::RequestRate, run, answers),
            metric_in(Column::Peak, run, answers),
            metric_in(Column::FirstResponse, run, answers),
            metric_in(Column::PromptTime, run, answers),
            metric_in(Column::FirstToken, run, answers),
        ),
    );
    assert(cells =~= Seq::new(
        columns(many).len(),
        |i: int| table_cell(columns(many)[i], run, answers, many, model),
    ));
    lemma_bars(cells);
}

proof fn lemma_title(run: BenchmarkRun<MetricText>, many: bool, model: Seq<char>)
    ensures
        crate::report::test_name(run, "pp"@, run.prompt_size)
            + crate::report::concurrency_suffix(many, run.concurrency) == table_cell(
            Column::Test,
            run,
            false,
            many,
            model,
        ),
        crate::report::test_name(run, "tg"@, run.response_size)
            + crate::report::concurrency_suffix(many, run.concurrency) == table_cell(
            Column::Test,
            run,
            true,
            many,
            model,
        ),
        crate::report::test_name(run, "pp"@, run.prompt_size) == title(run, false),
        crate::report::test_name(run, "tg"@, run.response_size) == title(run, true),
{
    assert(crate::report::test_name(run, "pp"@, run.prompt_size) =~= title(run, false));
    assert(crate::report::test_name(run, "tg"@, run.response_size) =~= title(run, true));
}

/// The reports differ in their benchmarks alone.
pub open spec fn same_but_benchmarks(one: BenchmarkReport, other: BenchmarkReport) -> bool {
    &&& one.version@ == other.version@
    &&& one.timestamp@ == other.timestamp@
    &&& one.latency_mode@ == other.latency_mode@
    &&& one.latency_ms@ == other.latency_ms@
    &&& one.model@ == other.model@
    &&& one.max_concurrency == other.max_concurrency
    &&& one.failed_requests == other.failed_requests
}

/// Another benchmark adds a line on its prompts to the table, and one on its
/// answers if it has any, below the other lines and above the closing line.
/// Every line has a cell for every column of the table, whatever the
/// concurrency of the benchmark, and in the column of a quantity it is that of
/// the benchmark.
pub proof fn law_rows_stand_below_the_headings(
    report: BenchmarkReport,
    longer: BenchmarkReport,
    run: BenchmarkRun<MetricText>,
)
    requires
        same_but_benchmarks(report, longer),
        longer.benchmarks@ == report.benchmarks@.push(run),
    ensures
        ({
            let many = report.max_concurrency > 1;
            let end = closing(report);
            let text = report.markdown_text();
            let table = text.take(text.len() - end.len());
            let rows = table_line(run, false, many, report.model@) + if has_answers(run) {
                table_line(run, true, many, report.model@)
            } else {
                Seq::empty()
            };
            &&& text.len() >= end.len()
            &&& text == table + end
            &&& longer.markdown_text() == table + rows + end
        }),
{
    let many = report.max_concurrency > 1;
    let model = report.model@;
    let end = closing(report);
    let text = report.markdown_text();
    let body = table_head(many) + all_rows(report.benchmarks@, many, model);
    assert(report.footer() =~= end);
    assert(longer.footer() =~= end);
    assert(text.take(text.len() - end.len()) =~= body);
    assert(longer.benchmarks@.drop_last() =~= report.benchmarks@);
    lemma_title(run, many, model);
    lemma_row(run, false, many, model);
    lemma_row(run, true, many, model);
    let rows = table_line(run, false, many, model) + if has_answers(run) {
        table_line(run, true, many, model)
    } else {
        Seq::empty()
    };
    assert(run_rows(run, many, model) =~= rows);
    assert(longer.markdown_text() =~= body + rows + end);
}

/// The headings of the columns.
pub open spec fn headings(many: bool) -> Seq<Seq<char>> {
    Seq::new(columns(many).len(), |i: int| heading(columns(many)[i], many))
}

proof fn lemma_head_many()
    ensures
        table_head(true) == between_bars(headings(true)) + seq!['\n'] + rule(8) + seq!['\n'],
{
    reveal_strlit("| model | test | t/s (total) | t/s (req) | peak t/s | ttfr (ms) | est_ppt (ms) | e2e_ttft (ms) |\n|:--|--:|--:|--:|--:|--:|--:|--:|\n");
    reveal_strlit("model");
    reveal_strlit("test");
    reveal_strlit("t/s (total)");
    reveal_strlit("t/s (req)");
    reveal_strlit("peak t/s");
    reveal_strlit("ttfr (ms)");
    reveal_strlit("est_ppt (ms)");
    reveal_strlit("e2e_ttft (ms)");
    reveal_with_fuel(rule, 9);
    let cells = headings(true);
    assert(cells.take(0) =~= Seq::empty());
    let b0 = between_bars(cells.take(0));
    assert(b0 =~= seq!['|']);
    assert(cells.take(1).drop_last() =~= cells.take(0));
    let b1 = between_bars(cells.take(1));
    assert(b1 =~= b0 + seq![' '] + "model"@ + seq![' ', '|']);
    assert(cells.take(2).drop_last() =~= cells.take(1));
    let b2 = between_bars(cells.take(2));
    assert(b2 =~= b1 + seq![' '] + "test"@ + seq![' ', '|']);
    assert(cells.take(3).drop_last() =~= cells.take(2));
    let b3 = between_bars(cells.take(3));
    assert(b3 =~= b2 + seq![' '] + "t/s (total)"@ + seq![' ', '|']);
    assert(cells.take(4).drop_last() =~= cells.take(3));
    let b4 = between_bars(cells.take(4));
    assert(b4 =~= b3 + seq![' '] + "t/s (req)"@ + seq![' ', '|']);
    assert(cells.take(5).drop_last() =~= cells.take(4));
    let b5 = between_bars(cells.take(5));
    assert(b5 =~= b4 + seq![' '] + "peak t/s"@ + seq![' ', '|']);
    assert(cells.take(6).drop_last() =~= cells.take(5));
    let b6 = between_bars(cells.take(6));
    assert(b6 =~= b5 + seq![' '] + "ttfr (ms)"@ + seq![' ', '|']);
    assert(cells.take(7).drop_last() =~= cells.take(6));
    let b7 = between_bars(cells.take(7));
    assert(b7 =~= b6 + seq![' '] + "est_ppt (ms)"@ + seq![' ', '|']);
    assert(cells.take(8).drop_last() =~= cells.take(7));
    let b8 = between_bars(cells.take(8));
    assert(b8 =~= b7 + seq![' '] + "e2e_ttft (ms)"@ + seq![' ', '|']);
    assert(cells.take(8) =~= cells);
    assert(table_head(true) =~= b8 + seq!['\n'] + rule(8) + seq!['\n']);
}

proof fn lemma_head_few()
    ensures
        table_head(false) == between_bars(headings(false)) + seq!['\n'] + rule(7) + seq!['\n'],
{
    reveal_strlit("| model | test | t/s | peak t/s | ttfr (ms) | est_ppt (ms) | e2e_ttft (ms) |\n|:--|--:|--:|--:|--:|--:|--:|\n");
    reveal_strlit("model");
    reveal_strlit("test");
    reveal_strlit("t/s");
    reveal_strlit("peak t/s");
    reveal_strlit("ttfr (ms)");
    reveal_strlit("est_ppt (ms)");
    reveal_strlit("e2e_ttft (ms)");
    reveal_with_fuel(rule, 8);
    let cells = headings(false);
    assert(cells.take(0) =~= Seq::empty());
    let b0 = between_bars(cells.take(0));
    assert(b0 =~= seq!['|']);
    assert(cells.take(1).drop_last() =~= cells.take(0));
    let b1 = between_bars(cells.take(1));
    assert(b1 =~= b0 + seq![' '] + "model"@ + seq![' ', '|']);
    assert(cells.take(2).drop_last() =~= cells.take(1));
    let b2 = between_bars(cells.take(2));
    assert(b2 =~= b1 + seq![' '] + "test"@ + seq![' ', '|']);
    assert(cells.take(3).drop_last() =~= cells.take(2));
    let b3 = between_bars(cells.take(3));
    assert(b3 =~= b2 + seq![' '] + "t/s"@ + seq![' ', '|']);
    assert(cells.take(4).drop_last() =~= cells.take(3));
    let b4 = between_bars(cells.take(4));
    assert(b4 =~= b3 + seq![' '] + "peak t/s"@ + seq![' ', '|']);
    assert(cells.take(5).drop_last() =~= cells.take(4));
    let b5 = between_bars(cells.take(5));
    assert(b5 =~= b4 + seq![' '] + "ttfr (ms)"@ + seq![' ', '|']);
    assert(cells.take(6).drop_last() =~= cells.take(5));
    let b6 = between_bars(cells.take(6));
    assert(b6 =~= b5 + seq![' '] + "est_ppt (ms)"@ + seq![' ', '|']);
    assert(cells.take(7).drop_last() =~= cells.take(6));
    let b7 = between_bars(cells.take(7));
    assert(b7 =~= b6 + seq![' '] + "e2e_ttft (ms)"@ + seq![' ', '|']);
    assert(cells.take(7) =~= cells);
    assert(table_head(false) =~= b7 + seq!['\n'] + rule(7) + seq!['\n']);
}

/// Without a benchmark the table is the line of headings, one for each column,
/// and the rule below it, which has a part for each of them too.
pub proof fn law_table_begins_with_the_headings(report: BenchmarkReport)
    requires
        report.benchmarks@.len() == 0,
    ensures
        ({
            let many = report.max_concurrency > 1;
            report.markdown_text() == between_bars(headings(many)) + seq!['\n'] + rule(
                columns(many).len(),
            ) + seq!['\n'] + closing(report)
        }),
{
    let many = report.max_concurrency > 1;
    if many {
        lemma_head_many();
    } else {
        lemma_head_few();
    }
    assert(report.footer() =~= closing(report));
    assert(report.markdown_text() =~= table_head(many) + closing(report));
}

/// What a field of a CSV record is: of a metric it is the mean or, if `spread`,
/// the standard deviation.
pub struct Field {
    pub name: Seq<char>,
    pub column: Column,
    pub spread: bool,
}

/// The fields of a CSV record.
pub open spec fn record_layout() -> Seq<Field> {
    seq![
        Field { name: "model"@, column: Column::Model, spread: false },
        Field { name: "test"@, column: Column::Test, spread: false },
        Field { name: "concurrency"@, column: Column::Concurrency, spread: false },
        Field { name: "t_s_mean"@, column: Column::Rate, spread: false },
        Field { name: "t_s_std"@, column: Column::Rate, spread: true },
        Field { name: "t_s_req_mean"@, column: Column::RequestRate, spread: false },
        Field { name: "t_s_req_std"@, column: Column::RequestRate, spread: true },
        Field { name: "peak_t_s_mean"@, column: Column::Peak, spread: false },
        Field { name: "peak_t_s_std"@, column: Column::Peak, spread: true },
        Field { name: "ttfr_ms_mean"@, column: Column::FirstResponse, spread: false },
        Field { name: "ttfr_ms_std"@, column: Column::FirstResponse, spread: true },
        Field { name: "est_ppt_ms_mean"@, column: Column::PromptTime, spread: false },
        Field { name: "est_ppt_ms_std"@, column: Column::PromptTime, spread: true },
        Field { name: "e2e_ttft_ms_mean"@, column: Column::FirstToken, spread: false },
        Field { name: "e2e_ttft_ms_std"@, column: Column::FirstToken, spread: true },
    ]
}

/// What a field of the record of a run says.
pub open spec fn field_text(
    field: Field,
    run: BenchmarkRun<MetricText>,
    answers: bool,
    model: Seq<char>,
) -> Seq<char> {
    match field.column {
        Column::Model => model,
        Column::Test => title(run, answers),
        Column::Concurrency => decimal(run.concurrency as nat),
        _ => match metric_in(field.column, run, answers) {
            Some(text) => if field.spread {
                text.std@
            } else {
                text.mean@
            },
            None => Seq::empty(),
        },
    }
}

/// A record: what the fields of a run say, one for each name.
pub open spec fn record(
    run: BenchmarkRun<MetricText>,
    answers: bool,
    model: Seq<char>,
) -> Seq<Seq<char>> {
    Seq::new(
        record_layout().len(),
        |i: int| field_text(record_layout()[i], run, answers, model),
    )
}

/// Without a benchmark the CSV text is the line of the names of the fields.
pub proof fn law_records_begin_with_their_names(report: BenchmarkReport)
    requires
        report.benchmarks@.len() == 0,
    ensures
        report.csv_text() == csv_line(
            Seq::new(record_layout().len(), |i: int| record_layout()[i].name),
        ),
{
    assert(csv_names() =~= Seq::new(record_layout().len(), |i: int| record_layout()[i].name));
    assert(report.csv_text() =~= csv_line(csv_names()));
}

/// Another benchmark adds a record on its prompts to the CSV text, and one on
/// its answers if it has any, below the other records. In the field of a
/// quantity stands that of the benchmark.
pub proof fn law_records_stand_below_the_names(
    report: BenchmarkReport,
    longer: BenchmarkReport,
    run: BenchmarkRun<MetricText>,
)
    requires
        same_but_benchmarks(report, longer),
        longer.benchmarks@ == report.benchmarks@.push(run),
    ensures
        longer.csv_text() == report.csv_text() + csv_line(record(run, false, report.model@))
            + if has_answers(run) {
            csv_line(record(run, true, report.model@))
        } else {
            Seq::empty()
        },
{
    let model = report.model@;
    assert(longer.benchmarks@.drop_last() =~= report.benchmarks@);
    lemma_title(run, false, model);
    assert(record(run, false, model) =~= record_fields(
        model,
        title(run, false),
        run.concurrency,
        (
            run.pp_throughput,
            run.pp_req_throughput,
            None,
            run.ttfr,
            run.est_ppt,
            run.e2e_ttft,
        ),
    ));
    assert(record(run, true, model) =~= record_fields(
        model,
        title(run, true),
        run.concurrency,
        (run.tg_throughput, run.tg_req_throughput, run.peak_throughput, None, None, None),
    ));
    let more = csv_line(record(run, false, model)) + if has_answers(run) {
        csv_line(record(run, true, model))
    } else {
        Seq::empty()
    };
    assert(run_records(run, model) =~= more);
    assert(longer.csv_text() =~= report.csv_text() + more);
}

/// A text with each two quotes in a row made one, from its end on.
pub open spec fn quotes_halved(s: Seq<char>) -> Seq<char>
    decreases s.len(),
{
    if s.len() == 0 {
        s
    } else if s.last() == '"' && s.len() >= 2 {
        quotes_halved(s.take(s.len() - 2)).push('"')
    } else {
        quotes_halved(s.drop_last()).push(s.last())
    }
}

/// What a CSV field says: what stands between the quotes, or all of it if it
/// does not begin with one.
pub open spec fn unquoted(field: Seq<char>) -> Seq<char> {
    if field.len() >= 2 && field[0] == '"' {
        quotes_halved(field.subrange(1, field.len() - 1))
    } else {
        field
    }
}

proof fn lemma_halved(s: Seq<char>)
    ensures
        quotes_halved(quotes_doubled(s)) == s,
    decreases s.len(),
{
    if s.len() > 0 {
        let rest = quotes_doubled(s.drop_last());
        let all = quotes_doubled(s);
        lemma_halved(s.drop_last());
        assert(s =~= s.drop_last().push(s.last()));
        if s.last() == '"' {
            assert(all.take(all.len() - 2) =~= rest);
        } else {
            assert(all.drop_last() =~= rest);
        }
    }
}

/// A reader of a CSV field gets back the text that was written, and a field
/// without quotes has nothing in it that ends a field or a record.
pub proof fn law_fields_are_read_back(s: Seq<char>)
    ensures
        unquoted(csv_field(s)) == s,
        csv_field(s) != s ==> csv_field(s).first() == '"' && csv_field(s).last() == '"',
        csv_field(s) == s ==> forall|i: int|
            0 <= i < s.len() ==> #[trigger] s[i] != ',' && s[i] != '"' && s[i] != '\n' && s[i]
                != '\r',
{
    lemma_halved(s);
    if exists|i: int| 0 <= i < s.len() && is_csv_special(#[trigger] s[i]) {
        let field = csv_field(s);
        assert(field.subrange(1, field.len() - 1) =~= quotes_doubled(s));
        lemma_doubled_len(s);
        assert(field.len() > s.len());
    } else {
        assert forall|i: int| 0 <= i < s.len() implies #[trigger] s[i] != ',' && s[i] != '"'
            && s[i] != '\n' && s[i] != '\r' by {
            assert(!is_csv_special(s[i]));
        }
    }
}

proof fn lemma_doubled_len(s: Seq<char>)
    ensures
        quotes_doubled(s).len() >= s.len(),
    decreases s.len(),
{
    if s.len() > 0 {
        lemma_doubled_len(s.drop_last());
    }
}

/// A record of one field is the field and the end of the line. Another field
/// comes behind a comma.
pub proof fn law_fields_stand_between_commas(fields: Seq<Seq<char>>, field: Seq<char>)
    ensures
        csv_line(seq![field]) == csv_field(field) + seq!['\n'],
        fields.len() > 0 ==> csv_line(fields.push(field)) == csv_line(fields).drop_last() + seq![
            ',',
        ] + csv_field(field) + seq!['\n'],
{
    let one = Seq::new(1, |i: int| csv_field(seq![field][i]));
    assert(joined(one, seq![',']) =~= csv_field(field));
    assert(csv_line(seq![field]) =~= csv_field(field) + seq!['\n']);
    if fields.len() > 0 {
        let few = Seq::new(fields.len(), |i: int| csv_field(fields[i]));
        let more = fields.push(field);
        let all = Seq::new(more.len(), |i: int| csv_field(more[i]));
        assert(all.drop_last() =~= few);
        assert(csv_line(fields).drop_last() =~= joined(few, seq![',']));
        assert(csv_line(more) =~= csv_line(fields).drop_last() + seq![','] + csv_field(field)
            + seq!['\n']);
    }
}

} // verus!
