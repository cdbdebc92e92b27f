//! What the report on a test shape says of the requests that were made.

use vstd::prelude::*;

use crate::client::RequestResult;
use crate::clock::TICKS_PER_NANOSECOND;
use crate::clock::TICKS_PER_SECOND;
use crate::metrics::after_first;
use crate::metrics::after_first_total;
use crate::metrics::aggregated;
use crate::metrics::all_token_times;
use crate::metrics::busiest;
use crate::metrics::credited_total;
use crate::metrics::earliest;
use crate::metrics::first_token_times;
use crate::metrics::in_window;
use crate::metrics::last_token_times;
use crate::metrics::later_than;
use crate::metrics::latest;
use crate::metrics::law_no_window_is_busier;
use crate::metrics::start_times;
use crate::metrics::tally;
use crate::metrics::AggregatesView;
use crate::metrics::BenchmarkMetric;
use crate::metrics::BenchmarkRun;
use crate::metrics::BenchmarkShape;
use crate::metrics::MetricView;
use crate::metrics::Sample;

verus! {

/// The values of a metric; none where there is no metric.
pub open spec fn values(metric: Option<MetricView>) -> Seq<Sample> {
    match metric {
        Some(metric) => metric.values,
        None => Seq::empty(),
    }
}

/// How much later `b` is than `a`; nothing where it is not.
pub open spec fn ahead(a: u128, b: u128) -> u128 {
    if b > a {
        (b - a) as u128
    } else {
        0
    }
}

/// The sum of the numbers.
pub open spec fn total(numbers: Seq<nat>) -> nat
    decreases numbers.len(),
{
    if numbers.len() == 0 {
        0
    } else {
        total(numbers.drop_last()) + numbers.last()
    }
}

/// Holds of the times after `time`.
pub open spec fn after(time: u128) -> spec_fn(u128) -> bool {
    |t: u128| t > time
}

/// Holds of the times in the second that ends with `end`.
pub open spec fn in_second(end: u128) -> spec_fn(u128) -> bool {
    |t: u128| t <= end && end - t < TICKS_PER_SECOND
}

/// The tokens of a request that came after its first one.
pub open spec fn later_tokens(result: RequestResult) -> nat {
    let times = result.token_timestamps@;
    if times.len() > 0 {
        times.filter(after(times[0])).len()
    } else {
        0
    }
}

/// The tokens of a request in the second that ends with `end`.
pub open spec fn tokens_in_second(result: RequestResult, end: u128) -> nat {
    result.token_timestamps@.filter(in_second(end)).len()
}

/// The tokens of all requests in the second that ends with `end`.
pub open spec fn all_in_second(results: Seq<RequestResult>, end: u128) -> nat {
    total(Seq::new(results.len(), |k: int| tokens_in_second(results[k], end)))
}

/// `most` tokens came in the busiest second of the requests.
pub open spec fn is_peak(results: Seq<RequestResult>, most: nat) -> bool {
    &&& forall|end: u128| #[trigger] all_in_second(results, end) <= most
    &&& exists|end: u128| #[trigger] all_in_second(results, end) == most
}

/// The prompt tokens that a request counts with: the reported ones if they
/// differ by less than a fifth from what is expected, unless a context was
/// loaded before and only what follows it is expected.
pub open spec fn prompt_credit(shape: BenchmarkShape, reported: usize) -> usize {
    let cached = !shape.is_context_phase && shape.context_tokens > 0
        && shape.expected_prompt_tokens == shape.prompt_tokens;
    let expected = shape.expected_prompt_tokens;
    if !cached && reported > 0 && 5 * (reported - expected) < expected && 5 * (expected - reported)
        < expected {
        reported
    } else {
        expected
    }
}

/// When the last token of a request came, or its end where there was none.
pub open spec fn last_heard(result: RequestResult) -> u128 {
    if result.token_timestamps@.len() > 0 {
        result.token_timestamps@.last()
    } else {
        result.end_ts
    }
}

impl AggregatesView {
    /// The samples of both.
    pub open spec fn plus(self, other: AggregatesView) -> AggregatesView {
        AggregatesView {
            pp_req: self.pp_req + other.pp_req,
            tg_req: self.tg_req + other.tg_req,
            pp_batch: self.pp_batch + other.pp_batch,
            tg_batch: self.tg_batch + other.tg_batch,
            peak_batch: self.peak_batch + other.peak_batch,
            peak_req: self.peak_req + other.peak_req,
            ttfr: self.ttfr + other.ttfr,
            est_ppt: self.est_ppt + other.est_ppt,
            e2e_ttft: self.e2e_ttft + other.e2e_ttft,
        }
    }
}

proof fn lemma_request_adds(
    samples: AggregatesView,
    result: RequestResult,
    latency: u128,
    expected: usize,
    uses_reported: bool,
)
    ensures
        samples.with_request(result, latency, expected, uses_reported) == samples.plus(
            AggregatesView::empty().with_request(result, latency, expected, uses_reported),
        ),
{
}

proof fn lemma_requests_add(
    samples: AggregatesView,
    results: Seq<RequestResult>,
    latency: u128,
    expected: usize,
    uses_reported: bool,
)
    ensures
        samples.with_requests(results, latency, expected, uses_reported) == samples.plus(
            AggregatesView::empty().with_requests(results, latency, expected, uses_reported),
        ),
    decreases results.len(),
{
    if results.len() == 0 {
        assert(samples =~= samples.plus(AggregatesView::empty()));
    } else {
        let rest = results.drop_last();
        let none = AggregatesView::empty();
        let before = none.with_requests(rest, latency, expected, uses_reported);
        lemma_requests_add(samples, rest, latency, expected, uses_reported);
        lemma_request_adds(samples.plus(before), results.last(), latency, expected, uses_reported);
        lemma_request_adds(before, results.last(), latency, expected, uses_reported);
        let last = none.with_request(results.last(), latency, expected, uses_reported);
        assert(samples.plus(before).plus(last) =~= samples.plus(before.plus(last)));
    }
}

proof fn lemma_batch_adds(
    samples: AggregatesView,
    results: Seq<RequestResult>,
    latency: u128,
    expected: usize,
    uses_reported: bool,
)
    ensures
        samples.with_batch(results, latency, expected, uses_reported) == samples.plus(
            AggregatesView::empty().with_batch(results, latency, expected, uses_reported),
        ),
{
    lemma_requests_add(samples, results, latency, expected, uses_reported);
    assert(samples.with_batch(results, latency, expected, uses_reported) =~= samples.plus(
        AggregatesView::empty().with_batch(results, latency, expected, uses_reported),
    ));
}

proof fn lemma_batches_add(
    samples: AggregatesView,
    batches: Seq<Vec<RequestResult>>,
    more: Seq<Vec<RequestResult>>,
    latency: u128,
    expected: usize,
    uses_reported: bool,
)
    ensures
        samples.with_batches(batches + more, latency, expected, uses_reported)
            == samples.with_batches(batches, latency, expected, uses_reported).plus(
            AggregatesView::empty().with_batches(more, latency, expected, uses_reported),
        ),
    decreases more.len(),
{
    let none = AggregatesView::empty();
    let first = samples.with_batches(batches, latency, expected, uses_reported);
    if more.len() == 0 {
        assert(batches + more =~= batches);
        assert(first =~= first.plus(none));
    } else {
        let rest = more.drop_last();
        assert((batches + more).drop_last() =~= batches + rest);
        lemma_batches_add(samples, batches, rest, latency, expected, uses_reported);
        let second = none.with_batches(rest, latency, expected, uses_reported);
        lemma_batch_adds(first.plus(second), more.last()@, latency, expected, uses_reported);
        lemma_batch_adds(second, more.last()@, latency, expected, uses_reported);
        let last = none.with_batch(more.last()@, latency, expected, uses_reported);
        assert(first.plus(second).plus(last) =~= first.plus(second.plus(last)));
    }
}

/// The metrics of single requests have the values of both reports.
pub open spec fn joins_requests(
    whole: BenchmarkRun<MetricView>,
    first: BenchmarkRun<MetricView>,
    second: BenchmarkRun<MetricView>,
) -> bool {
    &&& values(whole.pp_req_throughput) == values(first.pp_req_throughput) + values(
        second.pp_req_throughput,
    )
    &&& values(whole.tg_req_throughput) == values(first.tg_req_throughput) + values(
        second.tg_req_throughput,
    )
    &&& values(whole.peak_req_throughput) == values(first.peak_req_throughput) + values(
        second.peak_req_throughput,
    )
    &&& values(whole.ttfr) == values(first.ttfr) + values(second.ttfr)
    &&& values(whole.est_ppt) == values(first.est_ppt) + values(second.est_ppt)
    &&& values(whole.e2e_ttft) == values(first.e2e_ttft) + values(second.e2e_ttft)
}

/// The metrics of batches have the values of both reports.
pub open spec fn joins_batches(
    whole: BenchmarkRun<MetricView>,
    first: BenchmarkRun<MetricView>,
    second: BenchmarkRun<MetricView>,
) -> bool {
    &&& values(whole.pp_throughput) == values(first.pp_throughput) + values(second.pp_throughput)
    &&& values(whole.tg_throughput) == values(first.tg_throughput) + values(second.tg_throughput)
    &&& values(whole.peak_throughput) == values(first.peak_throughput) + values(
        second.peak_throughput,
    )
}

/// The report on some batches and then others has the values of the first
/// ones, and then those of the others.
pub proof fn law_batches_are_reported_one_after_the_other(
    shape: BenchmarkShape,
    batches: Seq<Vec<RequestResult>>,
    more: Seq<Vec<RequestResult>>,
    latency: u128,
)
    ensures
        ({
            let whole = aggregated(shape, batches + more, latency);
            let first = aggregated(shape, batches, latency);
            let second = aggregated(shape, more, latency);
            joins_requests(whole, first, second) && joins_batches(whole, first, second)
        }),
        values(aggregated(shape, Seq::empty(), latency).ttfr).len() == 0,
{
    lemma_batches_add(
        AggregatesView::empty(),
        batches,
        more,
        latency,
        shape.expected_prompt_tokens,
        shape.uses_reported(),
    );
}

proof fn lemma_requests_join(
    samples: AggregatesView,
    results: Seq<RequestResult>,
    more: Seq<RequestResult>,
    latency: u128,
    expected: usize,
    uses_reported: bool,
)
    ensures
        samples.with_requests(results + more, latency, expected, uses_reported)
            == samples.with_requests(results, latency, expected, uses_reported).with_requests(
            more,
            latency,
            expected,
            uses_reported,
        ),
    decreases more.len(),
{
    if more.len() == 0 {
        assert(results + more =~= results);
    } else {
        assert((results + more).drop_last() =~= results + more.drop_last());
        lemma_requests_join(samples, results, more.drop_last(), latency, expected, uses_reported);
    }
}

/// Opens the report on a single batch.
proof fn lemma_one_batch(shape: BenchmarkShape, batch: Vec<RequestResult>, latency: u128)
    ensures
        AggregatesView::empty().with_batches(
            seq![batch],
            latency,
            shape.expected_prompt_tokens,
            shape.uses_reported(),
        ) == AggregatesView::empty().with_batch(
            batch@,
            latency,
            shape.expected_prompt_tokens,
            shape.uses_reported(),
        ),
{
    let none = AggregatesView::empty();
    assert(seq![batch].drop_last() =~= Seq::empty());
    assert(none.with_batches(
        Seq::empty(),
        latency,
        shape.expected_prompt_tokens,
        shape.uses_reported(),
    ) == none);
}

/// What is told of single requests does not depend on which others were made
/// at the same time.
pub proof fn law_requests_are_reported_one_after_the_other(
    shape: BenchmarkShape,
    batch: Vec<RequestResult>,
    first: Vec<RequestResult>,
    second: Vec<RequestResult>,
    latency: u128,
)
    requires
        batch@ == first@ + second@,
    ensures
        joins_requests(
            aggregated(shape, seq![batch], latency),
            aggregated(shape, seq![first], latency),
            aggregated(shape, seq![second], latency),
        ),
{
    let expected = shape.expected_prompt_tokens;
    let uses = shape.uses_reported();
    let none = AggregatesView::empty();
    lemma_one_batch(shape, batch, latency);
    lemma_one_batch(shape, first, latency);
    lemma_one_batch(shape, second, latency);
    lemma_requests_join(none, first@, second@, latency, expected, uses);
    lemma_requests_add(
        none.with_requests(first@, latency, expected, uses),
        second@,
        latency,
        expected,
        uses,
    );
}

/// A tally counts what a filter keeps.
proof fn lemma_tally_filters(
    times: Seq<u128>,
    wanted: spec_fn(u128) -> bool,
    kept: spec_fn(u128) -> bool,
)
    requires
        forall|t: u128| #[trigger] wanted(t) == kept(t),
    ensures
        tally(times, wanted) == times.filter(kept).len(),
    decreases times.len(),
{
    reveal(Seq::filter);
    if times.len() > 0 {
        lemma_tally_filters(times.drop_last(), wanted, kept);
    }
}

proof fn lemma_later_tokens(result: RequestResult)
    ensures
        later_tokens(result) == after_first(result.token_timestamps@),
{
    let times = result.token_timestamps@;
    if times.len() > 0 {
        lemma_tally_filters(times, later_than(times[0]), after(times[0]));
    }
}

proof fn lemma_tally_joins(times: Seq<u128>, more: Seq<u128>, wanted: spec_fn(u128) -> bool)
    ensures
        tally(times + more, wanted) == tally(times, wanted) + tally(more, wanted),
    decreases more.len(),
{
    if more.len() == 0 {
        assert(times + more =~= times);
    } else {
        assert((times + more).drop_last() =~= times + more.drop_last());
        lemma_tally_joins(times, more.drop_last(), wanted);
    }
}

proof fn lemma_all_in_second(results: Seq<RequestResult>, end: u128)
    ensures
        all_in_second(results, end) == tally(
            all_token_times(results),
            in_window(end, TICKS_PER_SECOND),
        ),
    decreases results.len(),
{
    if results.len() > 0 {
        let rest = results.drop_last();
        let wanted = in_window(end, TICKS_PER_SECOND);
        lemma_all_in_second(rest, end);
        lemma_tally_joins(all_token_times(rest), results.last().token_timestamps@, wanted);
        lemma_tally_filters(results.last().token_timestamps@, wanted, in_second(end));
        assert(Seq::new(results.len(), |k: int| tokens_in_second(results[k], end)).drop_last()
            =~= Seq::new(rest.len(), |k: int| tokens_in_second(rest[k], end)));
    }
}

/// The busiest second of the requests holds as many tokens as the busiest
/// window.
proof fn lemma_peak(results: Seq<RequestResult>)
    requires
        all_token_times(results).len() > 0,
    ensures
        is_peak(
            results,
            busiest(all_token_times(results), all_token_times(results), TICKS_PER_SECOND),
        ),
{
    let times = all_token_times(results);
    let most = busiest(times, times, TICKS_PER_SECOND);
    assert forall|end: u128| #[trigger] all_in_second(results, end) <= most by {
        lemma_all_in_second(results, end);
        law_no_window_is_busier(times, end, TICKS_PER_SECOND);
    }
    law_no_window_is_busier(times, 0, TICKS_PER_SECOND);
    let i = choose|i: int|
        0 <= i < times.len() && tally(times, in_window(#[trigger] times[i], TICKS_PER_SECOND))
            == most;
    lemma_all_in_second(results, times[i]);
    assert(all_in_second(results, times[i]) == most);
}

proof fn lemma_one_request(result: RequestResult)
    ensures
        all_token_times(seq![result]) == result.token_timestamps@,
{
    assert(seq![result].drop_last() =~= Seq::empty());
    assert(all_token_times(Seq::empty()) =~= Seq::empty());
    assert(all_token_times(seq![result]) =~= result.token_timestamps@);
}

/// What the report tells of one request: the time to its first response and to
/// its first token; the prompt processing time, which is the former less the
/// latency; the prompt tokens per that time; the tokens after the first one per
/// the time from the first to the last one; and the tokens of its busiest
/// second. Rates are per second, times in milliseconds.
pub proof fn law_report_on_one_request(
    shape: BenchmarkShape,
    batch: Vec<RequestResult>,
    result: RequestResult,
    latency: u128,
)
    requires
        batch@ == seq![result],
    ensures
        ({
            let run = aggregated(shape, seq![batch], latency);
            let times = result.token_timestamps@;
            let waited = ahead(result.start_ts, result.first_response_ts->0);
            let processed = ahead(latency, waited);
            let second = TICKS_PER_SECOND;
            &&& values(run.ttfr) == if result.first_response_ts is Some {
                seq![Sample { amount: waited, per: second }]
            } else {
                Seq::empty()
            }
            &&& values(run.est_ppt) == if result.first_response_ts is Some {
                seq![Sample { amount: processed, per: second }]
            } else {
                Seq::empty()
            }
            &&& values(run.pp_req_throughput) == if result.first_response_ts is Some && processed
                > 0 {
                seq![
                    Sample {
                        amount: prompt_credit(shape, result.prompt_tokens) as u128,
                        per: processed,
                    },
                ]
            } else {
                Seq::empty()
            }
            &&& values(run.e2e_ttft) == if result.first_token_ts is Some {
                seq![
                    Sample {
                        amount: ahead(result.start_ts, result.first_token_ts->0),
                        per: second,
                    },
                ]
            } else {
                Seq::empty()
            }
            &&& values(run.tg_req_throughput) == if later_tokens(result) > 0 && times.last()
                > times[0] {
                seq![
                    Sample {
                        amount: later_tokens(result) as u128,
                        per: (times.last() - times[0]) as u128,
                    },
                ]
            } else {
                Seq::empty()
            }
            &&& times.len() == 0 ==> values(run.peak_req_throughput).len() == 0
            &&& times.len() > 0 ==> exists|most: nat| #[trigger]
                is_peak(seq![result], most) && values(run.peak_req_throughput) == seq![
                    Sample { amount: most as u128, per: second },
                ]
        }),
{
    let none = AggregatesView::empty();
    let expected = shape.expected_prompt_tokens;
    let uses = shape.uses_reported();
    lemma_one_batch(shape, batch, latency);
    assert(seq![result].drop_last() =~= Seq::empty());
    assert(none.with_requests(Seq::empty(), latency, expected, uses) == none);
    assert(none.with_requests(seq![result], latency, expected, uses) == none.with_request(
        result,
        latency,
        expected,
        uses,
    ));
    lemma_later_tokens(result);
    lemma_one_request(result);
    let times = result.token_timestamps@;
    if times.len() > 0 {
        lemma_peak(seq![result]);
        let most = busiest(times, times, TICKS_PER_SECOND);
        assert(is_peak(seq![result], most));
    }
}

/// Rates are given per second and times in milliseconds.
pub proof fn law_units_of_a_report(
    shape: BenchmarkShape,
    batches: Seq<Vec<RequestResult>>,
    latency: u128,
)
    ensures
        ({
            let run = aggregated(shape, batches, latency);
            &&& run.pp_throughput is Some ==> run.pp_throughput->0.multiplier == TICKS_PER_SECOND
            &&& run.pp_req_throughput is Some ==> run.pp_req_throughput->0.multiplier
                == TICKS_PER_SECOND
            &&& run.tg_throughput is Some ==> run.tg_throughput->0.multiplier == TICKS_PER_SECOND
            &&& run.tg_req_throughput is Some ==> run.tg_req_throughput->0.multiplier
                == TICKS_PER_SECOND
            &&& run.peak_throughput is Some ==> run.peak_throughput->0.multiplier
                == TICKS_PER_SECOND
            &&& run.peak_req_throughput is Some ==> run.peak_req_throughput->0.multiplier
                == TICKS_PER_SECOND
            &&& run.ttfr is Some ==> run.ttfr->0.multiplier == 1000
            &&& run.est_ppt is Some ==> run.est_ppt->0.multiplier == 1000
            &&& run.e2e_ttft is Some ==> run.e2e_ttft->0.multiplier == 1000
            &&& run.concurrency == shape.concurrency
            &&& run.context_size == shape.context_tokens
            &&& run.prompt_size == shape.prompt_tokens
            &&& run.response_size == shape.generated_tokens
            &&& run.is_context_prefill_phase == shape.is_context_phase
        }),
{
}

/// Where requests are made one at a time, the rates of the test are those of
/// the requests.
pub proof fn law_single_requests_are_rated_by_themselves(
    shape: BenchmarkShape,
    batches: Seq<Vec<RequestResult>>,
    latency: u128,
)
    requires
        shape.concurrency <= 1,
    ensures
        ({
            let run = aggregated(shape, batches, latency);
            &&& run.pp_throughput == run.pp_req_throughput
            &&& run.tg_throughput == run.tg_req_throughput
        }),
{
}

/// No request starts before the one at `i`.
pub open spec fn starts_first(results: Seq<RequestResult>, i: int) -> bool {
    &&& 0 <= i < results.len()
    &&& forall|k: int| 0 <= k < results.len() ==> results[i].start_ts <= (#[trigger] results[k]).start_ts
}

/// The request at `i` has a first token, and no other has an earlier one.
pub open spec fn speaks_first(results: Seq<RequestResult>, i: int) -> bool {
    &&& 0 <= i < results.len()
    &&& results[i].first_token_ts is Some
    &&& forall|k: int|
        0 <= k < results.len() && (#[trigger] results[k]).first_token_ts is Some
            ==> results[i].first_token_ts->0 <= results[k].first_token_ts->0
}

/// The request at `i` has a first token, and no other has a later one.
pub open spec fn speaks_last(results: Seq<RequestResult>, i: int) -> bool {
    &&& 0 <= i < results.len()
    &&& results[i].first_token_ts is Some
    &&& forall|k: int|
        0 <= k < results.len() && (#[trigger] results[k]).first_token_ts is Some
            ==> results[k].first_token_ts->0 <= results[i].first_token_ts->0
}

/// No request was heard of after the one at `i`.
pub open spec fn heard_last(results: Seq<RequestResult>, i: int) -> bool {
    &&& 0 <= i < results.len()
    &&& forall|k: int|
        0 <= k < results.len() ==> last_heard(#[trigger] results[k]) <= last_heard(results[i])
}

/// One of the requests has a first token.
pub open spec fn any_speaks(results: Seq<RequestResult>) -> bool {
    exists|k: int| 0 <= k < results.len() && (#[trigger] results[k]).first_token_ts is Some
}

proof fn lemma_earliest_is_least(times: Seq<u128>)
    requires
        times.len() > 0,
    ensures
        times.contains(earliest(times)),
        forall|i: int| 0 <= i < times.len() ==> earliest(times) <= #[trigger] times[i],
    decreases times.len(),
{
    if times.len() > 1 {
        let rest = times.drop_last();
        lemma_earliest_is_least(rest);
        let i = choose|i: int| 0 <= i < rest.len() && rest[i] == earliest(rest);
        assert(times[i] == earliest(rest));
        assert(times[times.len() - 1] == times.last());
        assert forall|j: int| 0 <= j < times.len() implies earliest(times) <= #[trigger] times[j] by {
            if j < rest.len() {
                assert(rest[j] == times[j]);
            }
        }
    } else {
        assert(times[0] == earliest(times));
    }
}

proof fn lemma_latest_is_greatest(times: Seq<u128>)
    requires
        times.len() > 0,
    ensures
        times.contains(latest(times)),
        forall|i: int| 0 <= i < times.len() ==> #[trigger] times[i] <= latest(times),
    decreases times.len(),
{
    if times.len() > 1 {
        let rest = times.drop_last();
        lemma_latest_is_greatest(rest);
        let i = choose|i: int| 0 <= i < rest.len() && rest[i] == latest(rest);
        assert(times[i] == latest(rest));
        assert(times[times.len() - 1] == times.last());
        assert forall|j: int| 0 <= j < times.len() implies #[trigger] times[j] <= latest(times) by {
            if j < rest.len() {
                assert(rest[j] == times[j]);
            }
        }
    } else {
        assert(times[0] == latest(times));
    }
}

/// The first token times are those of the requests.
proof fn lemma_first_tokens(results: Seq<RequestResult>)
    ensures
        forall|k: int|
            0 <= k < results.len() && (#[trigger] results[k]).first_token_ts is Some
                ==> first_token_times(results).contains(results[k].first_token_ts->0),
        forall|t: u128| #[trigger]
            first_token_times(results).contains(t) ==> exists|k: int|
                0 <= k < results.len() && (#[trigger] results[k]).first_token_ts == Some(t),
    decreases results.len(),
{
    let firsts = first_token_times(results);
    if results.len() > 0 {
        let rest = results.drop_last();
        let before = first_token_times(rest);
        let last = results.len() - 1;
        lemma_first_tokens(rest);
        assert forall|k: int|
            0 <= k < results.len() && (#[trigger] results[k]).first_token_ts is Some implies firsts.contains(
            results[k].first_token_ts->0,
        ) by {
            if k < rest.len() {
                assert(rest[k] == results[k]);
                let at = choose|at: int|
                    0 <= at < before.len() && before[at] == rest[k].first_token_ts->0;
                assert(firsts[at] == before[at]);
            } else {
                assert(firsts[firsts.len() - 1] == results[k].first_token_ts->0);
            }
        }
        assert forall|t: u128| #[trigger] firsts.contains(t) implies exists|k: int|
            0 <= k < results.len() && (#[trigger] results[k]).first_token_ts == Some(t) by {
            let at = choose|at: int| 0 <= at < firsts.len() && firsts[at] == t;
            if at < before.len() {
                assert(before[at] == t);
                assert(before.contains(t));
                let k = choose|k: int|
                    0 <= k < rest.len() && (#[trigger] rest[k]).first_token_ts == Some(t);
                assert(results[k] == rest[k]);
            } else {
                assert(results[last].first_token_ts == Some(t));
            }
        }
    } else {
        assert(firsts.len() == 0);
    }
}

proof fn lemma_totals(shape: BenchmarkShape, results: Seq<RequestResult>)
    ensures
        credited_total(results, shape.expected_prompt_tokens, shape.uses_reported()) == total(
            Seq::new(
                results.len(),
                |k: int| prompt_credit(shape, results[k].prompt_tokens) as nat,
            ),
        ),
        after_first_total(results) == total(
            Seq::new(results.len(), |k: int| later_tokens(results[k])),
        ),
    decreases results.len(),
{
    if results.len() > 0 {
        let rest = results.drop_last();
        lemma_totals(shape, rest);
        lemma_later_tokens(results.last());
        assert(Seq::new(
            results.len(),
            |k: int| prompt_credit(shape, results[k].prompt_tokens) as nat,
        ).drop_last() =~= Seq::new(
            rest.len(),
            |k: int| prompt_credit(shape, rest[k].prompt_tokens) as nat,
        ));
        assert(Seq::new(results.len(), |k: int| later_tokens(results[k])).drop_last() =~= Seq::new(
            rest.len(),
            |k: int| later_tokens(rest[k]),
        ));
    }
}

proof fn lemma_any_token(results: Seq<RequestResult>)
    ensures
        all_token_times(results).len() > 0 <==> exists|k: int|
            0 <= k < results.len() && (#[trigger] results[k]).token_timestamps@.len() > 0,
    decreases results.len(),
{
    if results.len() > 0 {
        let rest = results.drop_last();
        lemma_any_token(rest);
        assert(results[results.len() - 1] == results.last());
        assert(forall|k: int| 0 <= k < rest.len() ==> rest[k] == #[trigger] results[k]);
        if all_token_times(rest).len() > 0 {
            let k = choose|k: int|
                0 <= k < rest.len() && (#[trigger] rest[k]).token_timestamps@.len() > 0;
            assert(results[k].token_timestamps@.len() > 0);
        }
        if exists|k: int|
            0 <= k < results.len() && (#[trigger] results[k]).token_timestamps@.len() > 0 {
            let k = choose|k: int|
                0 <= k < results.len() && (#[trigger] results[k]).token_timestamps@.len() > 0;
            if k < rest.len() {
                assert(rest[k].token_timestamps@.len() > 0);
            }
        }
    }
}

/// The prompts of requests that are made at the same time are rated together:
/// all of their prompt tokens, per the time from the first start to the first
/// token that comes last. Nothing is said of them where no token came.
pub proof fn law_prompts_of_a_batch_are_done_with_the_last_first_token(
    shape: BenchmarkShape,
    batch: Vec<RequestResult>,
    latency: u128,
)
    requires
        shape.concurrency > 1,
    ensures
        ({
            let results = batch@;
            let rates = values(aggregated(shape, seq![batch], latency).pp_throughput);
            let tokens = total(
                Seq::new(
                    results.len(),
                    |k: int| prompt_credit(shape, results[k].prompt_tokens) as nat,
                ),
            );
            &&& !any_speaks(results) ==> rates.len() == 0
            &&& forall|i: int, j: int| #[trigger]
                starts_first(results, i) && #[trigger] speaks_last(results, j) ==> rates == if results[j].first_token_ts->0
                    > results[i].start_ts {
                    seq![
                        Sample {
                            amount: tokens as u128,
                            per: (results[j].first_token_ts->0 - results[i].start_ts) as u128,
                        },
                    ]
                } else {
                    Seq::empty()
                }
            &&& any_speaks(results) ==> exists|i: int, j: int| #[trigger]
                starts_first(results, i) && #[trigger] speaks_last(results, j)
        }),
{
    let results = batch@;
    let firsts = first_token_times(results);
    let starts = start_times(results);
    lemma_one_batch(shape, batch, latency);
    lemma_totals(shape, results);
    lemma_first_tokens(results);
    lemma_requests_batch_fields(shape, results, latency);
    if any_speaks(results) {
        let k = choose|k: int|
            0 <= k < results.len() && (#[trigger] results[k]).first_token_ts is Some;
        assert(firsts.contains(results[k].first_token_ts->0));
        lemma_latest_is_greatest(firsts);
        lemma_earliest_is_least(starts);
        let j = choose|j: int|
            0 <= j < results.len() && (#[trigger] results[j]).first_token_ts == Some(
                latest(firsts),
            );
        let i = choose|i: int| 0 <= i < starts.len() && starts[i] == earliest(starts);
        assert forall|k: int| 0 <= k < results.len() implies results[i].start_ts <= (
        #[trigger] results[k]).start_ts by {
            assert(starts[k] == results[k].start_ts);
        }
        assert forall|k: int|
            0 <= k < results.len() && (#[trigger] results[k]).first_token_ts is Some implies results[k].first_token_ts->0
            <= results[j].first_token_ts->0 by {
            assert(firsts.contains(results[k].first_token_ts->0));
        }
        assert(starts_first(results, i) && speaks_last(results, j));
        assert forall|a: int, b: int| #[trigger]
            starts_first(results, a) && #[trigger] speaks_last(results, b) implies results[a].start_ts
            == earliest(starts) && results[b].first_token_ts->0 == latest(firsts) by {
            assert(results[a].start_ts <= results[i].start_ts);
            assert(results[i].start_ts <= results[a].start_ts);
            assert(results[b].first_token_ts->0 <= results[j].first_token_ts->0);
            assert(results[j].first_token_ts->0 <= results[b].first_token_ts->0);
        }
    } else if firsts.len() > 0 {
        assert(firsts.contains(firsts[0]));
    }
}

/// A request adds nothing to the samples of batches.
proof fn lemma_requests_batch_fields(
    shape: BenchmarkShape,
    results: Seq<RequestResult>,
    latency: u128,
)
    ensures
        ({
            let each = AggregatesView::empty().with_requests(
                results,
                latency,
                shape.expected_prompt_tokens,
                shape.uses_reported(),
            );
            each.pp_batch.len() == 0 && each.tg_batch.len() == 0 && each.peak_batch.len() == 0
        }),
    decreases results.len(),
{
    if results.len() > 0 {
        lemma_requests_batch_fields(shape, results.drop_last(), latency);
    }
}

/// The answers of requests that are made at the same time are rated together:
/// the tokens after the first one of each, per the time from the first token
/// that comes first to the last time that a token was heard of.
pub proof fn law_answers_of_a_batch_run_from_the_first_to_the_last_token(
    shape: BenchmarkShape,
    batch: Vec<RequestResult>,
    latency: u128,
)
    requires
        shape.concurrency > 1,
    ensures
        ({
            let results = batch@;
            let rates = values(aggregated(shape, seq![batch], latency).tg_throughput);
            let tokens = total(Seq::new(results.len(), |k: int| later_tokens(results[k])));
            &&& !any_speaks(results) ==> rates.len() == 0
            &&& forall|i: int, j: int| #[trigger]
                speaks_first(results, i) && #[trigger] heard_last(results, j) ==> rates == if tokens
                    > 0 && last_heard(results[j]) > results[i].first_token_ts->0 {
                    seq![
                        Sample {
                            amount: tokens as u128,
                            per: (last_heard(results[j]) - results[i].first_token_ts->0) as u128,
                        },
                    ]
                } else {
                    Seq::empty()
                }
            &&& any_speaks(results) ==> exists|i: int, j: int| #[trigger]
                speaks_first(results, i) && #[trigger] heard_last(results, j)
        }),
{
    let results = batch@;
    let firsts = first_token_times(results);
    let lasts = last_token_times(results);
    lemma_one_batch(shape, batch, latency);
    lemma_totals(shape, results);
    lemma_first_tokens(results);
    lemma_requests_batch_fields(shape, results, latency);
    if any_speaks(results) {
        let k = choose|k: int|
            0 <= k < results.len() && (#[trigger] results[k]).first_token_ts is Some;
        assert(firsts.contains(results[k].first_token_ts->0));
        lemma_earliest_is_least(firsts);
        lemma_latest_is_greatest(lasts);
        let i = choose|i: int|
            0 <= i < results.len() && (#[trigger] results[i]).first_token_ts == Some(
                earliest(firsts),
            );
        let j = choose|j: int| 0 <= j < lasts.len() && lasts[j] == latest(lasts);
        assert forall|k: int|
            0 <= k < results.len() && (#[trigger] results[k]).first_token_ts is Some implies results[i].first_token_ts->0
            <= results[k].first_token_ts->0 by {
            assert(firsts.contains(results[k].first_token_ts->0));
        }
        assert forall|k: int| 0 <= k < results.len() implies last_heard(#[trigger] results[k])
            <= last_heard(results[j]) by {
            assert(lasts[k] == last_heard(results[k]));
        }
        assert(speaks_first(results, i) && heard_last(results, j));
        assert forall|a: int, b: int| #[trigger]
            speaks_first(results, a) && #[trigger] heard_last(results, b) implies results[a].first_token_ts->0
            == earliest(firsts) && last_heard(results[b]) == latest(lasts) by {
            assert(results[a].first_token_ts->0 <= results[i].first_token_ts->0);
            assert(results[i].first_token_ts->0 <= results[a].first_token_ts->0);
            assert(last_heard(results[b]) <= last_heard(results[j]));
            assert(last_heard(results[j]) <= last_heard(results[b]));
        }
    } else if firsts.len() > 0 {
        assert(firsts.contains(firsts[0]));
    }
}

/// The peak of requests that are made at the same time is the number of tokens
/// of all of them in their busiest second.
pub proof fn law_peak_of_a_batch_counts_all_requests(
    shape: BenchmarkShape,
    batch: Vec<RequestResult>,
    latency: u128,
)
    ensures
        ({
            let peaks = values(aggregated(shape, seq![batch], latency).peak_throughput);
            let any = exists|k: int|
                0 <= k < batch@.len() && (#[trigger] batch@[k]).token_timestamps@.len() > 0;
            &&& !any ==> peaks.len() == 0
            &&& any ==> exists|most: nat| #[trigger]
                is_peak(batch@, most) && peaks == seq![
                    Sample { amount: most as u128, per: TICKS_PER_SECOND },
                ]
        }),
{
    let results = batch@;
    let times = all_token_times(results);
    lemma_one_batch(shape, batch, latency);
    lemma_any_token(results);
    lemma_requests_batch_fields(shape, results, latency);
    if times.len() > 0 {
        lemma_peak(results);
        let most = busiest(times, times, TICKS_PER_SECOND);
        assert(is_peak(results, most));
    }
}

/// Holds of spans that are not empty.
pub open spec fn lasting() -> spec_fn(u128) -> bool {
    |span: u128| span > 0
}

/// The amounts of the samples.
pub open spec fn amounts(samples: Seq<Sample>) -> Seq<u128> {
    Seq::new(samples.len(), |i: int| samples[i].amount)
}

/// What the samples are measured per.
pub open spec fn spans(samples: Seq<Sample>) -> Seq<u128> {
    Seq::new(samples.len(), |i: int| samples[i].per)
}

/// Each prompt processing time is the time to the first response of the same
/// request less the latency, nothing where that is less than the latency; and
/// each prompt rate is per such a time.
pub open spec fn latency_taken_out(run: BenchmarkRun<MetricView>, latency: u128) -> bool {
    let waits = values(run.ttfr);
    let processing = values(run.est_ppt);
    &&& processing.len() == waits.len()
    &&& forall|i: int|
        0 <= i < waits.len() ==> {
            &&& (#[trigger] processing[i]).amount == ahead(latency, waits[i].amount)
            &&& processing[i].per == waits[i].per
            &&& waits[i].per == TICKS_PER_SECOND
        }
    &&& spans(values(run.pp_req_throughput)) == amounts(processing).filter(lasting())
}

proof fn lemma_latency_in_requests(
    samples: AggregatesView,
    results: Seq<RequestResult>,
    latency: u128,
    expected: usize,
    uses_reported: bool,
)
    requires
        takes_out(samples, latency),
    ensures
        takes_out(samples.with_requests(results, latency, expected, uses_reported), latency),
    decreases results.len(),
{
    reveal(Seq::filter);
    if results.len() > 0 {
        let before = samples.with_requests(results.drop_last(), latency, expected, uses_reported);
        let after = before.with_request(results.last(), latency, expected, uses_reported);
        lemma_latency_in_requests(samples, results.drop_last(), latency, expected, uses_reported);
        if results.last().first_response_ts is Some {
            assert(amounts(after.est_ppt) =~= amounts(before.est_ppt).push(
                after.est_ppt.last().amount,
            ));
            assert(amounts(after.est_ppt).drop_last() =~= amounts(before.est_ppt));
            if after.est_ppt.last().amount > 0 {
                assert(spans(after.pp_req) =~= spans(before.pp_req).push(
                    after.est_ppt.last().amount,
                ));
            }
            assert forall|i: int| 0 <= i < after.ttfr.len() implies {
                &&& (#[trigger] after.est_ppt[i]).amount == ahead(latency, after.ttfr[i].amount)
                &&& after.est_ppt[i].per == after.ttfr[i].per
                &&& after.ttfr[i].per == TICKS_PER_SECOND
            } by {
                if i < before.ttfr.len() {
                    assert(after.est_ppt[i] == before.est_ppt[i]);
                }
            }
        }
    }
}

/// The latency is taken out of the samples.
spec fn takes_out(samples: AggregatesView, latency: u128) -> bool {
    &&& samples.est_ppt.len() == samples.ttfr.len()
    &&& forall|i: int|
        0 <= i < samples.ttfr.len() ==> {
            &&& (#[trigger] samples.est_ppt[i]).amount == ahead(latency, samples.ttfr[i].amount)
            &&& samples.est_ppt[i].per == samples.ttfr[i].per
            &&& samples.ttfr[i].per == TICKS_PER_SECOND
        }
    &&& spans(samples.pp_req) == amounts(samples.est_ppt).filter(lasting())
}

proof fn lemma_latency_in_batches(
    batches: Seq<Vec<RequestResult>>,
    latency: u128,
    expected: usize,
    uses_reported: bool,
)
    ensures
        takes_out(
            AggregatesView::empty().with_batches(batches, latency, expected, uses_reported),
            latency,
        ),
    decreases batches.len(),
{
    let none = AggregatesView::empty();
    if batches.len() == 0 {
        reveal(Seq::filter);
        assert(spans(none.pp_req) =~= Seq::empty());
        assert(amounts(none.est_ppt) =~= Seq::empty());
    } else {
        let rest = batches.drop_last();
        lemma_latency_in_batches(rest, latency, expected, uses_reported);
        lemma_latency_in_requests(
            none.with_batches(rest, latency, expected, uses_reported),
            batches.last()@,
            latency,
            expected,
            uses_reported,
        );
    }
}

/// The latency is taken out of the prompt processing times of every report.
pub proof fn law_latency_is_taken_out(
    shape: BenchmarkShape,
    batches: Seq<Vec<RequestResult>>,
    latency: u128,
)
    ensures
        latency_taken_out(aggregated(shape, batches, latency), latency),
{
    let samples = AggregatesView::empty().with_batches(
        batches,
        latency,
        shape.expected_prompt_tokens,
        shape.uses_reported(),
    );
    let run = aggregated(shape, batches, latency);
    lemma_latency_in_batches(
        batches,
        latency,
        shape.expected_prompt_tokens,
        shape.uses_reported(),
    );
    assert(values(run.ttfr) =~= samples.ttfr);
    assert(values(run.est_ppt) =~= samples.est_ppt);
    assert(values(run.pp_req_throughput) =~= samples.pp_req);
}

/// The content of a metric is its values and their multiplier.
pub open spec fn tells(told: Option<MetricView>, metric: Option<BenchmarkMetric>) -> bool {
    match metric {
        Some(metric) => told is Some && told->0.values == metric.values@ && told->0.multiplier
            == metric.multiplier,
        None => told is None,
    }
}

/// What is said of the content of a report is said of its metrics.
pub proof fn law_content_is_that_of_the_metrics(run: BenchmarkRun<BenchmarkMetric>)
    ensures
        tells(run.content().pp_throughput, run.pp_throughput),
        tells(run.content().pp_req_throughput, run.pp_req_throughput),
        tells(run.content().tg_throughput, run.tg_throughput),
        tells(run.content().tg_req_throughput, run.tg_req_throughput),
        tells(run.content().peak_throughput, run.peak_throughput),
        tells(run.content().peak_req_throughput, run.peak_req_throughput),
        tells(run.content().ttfr, run.ttfr),
        tells(run.content().est_ppt, run.est_ppt),
        tells(run.content().e2e_ttft, run.e2e_ttft),
        run.content().concurrency == run.concurrency,
        run.content().context_size == run.context_size,
        run.content().prompt_size == run.prompt_size,
        run.content().response_size == run.response_size,
        run.content().is_context_prefill_phase == run.is_context_prefill_phase,
{
}

/// A second more is as long as a thousand million nanoseconds more.
pub proof fn law_seconds_have_nanoseconds(seconds: nat, nanoseconds: nat)
    ensures
        (seconds + 1) * TICKS_PER_SECOND + nanoseconds * TICKS_PER_NANOSECOND == seconds
            * TICKS_PER_SECOND + (nanoseconds + 1_000_000_000) * TICKS_PER_NANOSECOND,
{
}

} // verus!
