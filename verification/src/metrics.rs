//! Throughput and latency of measured requests.

use vstd::multiset::Multiset;
use vstd::prelude::*;

use crate::client::RequestResult;
use crate::clock::elapsed;
use crate::clock::TICKS_PER_SECOND;

verus! {

/// A measured number: `amount` for every `per`.
#[derive(Debug, Clone, Copy, PartialEq, Eq, Structural)]
pub struct Sample {
    pub amount: u128,
    pub per: u128,
}

/// How many of the timestamps satisfy `wanted`.
pub open spec fn tally(timestamps: Seq<u128>, wanted: spec_fn(u128) -> bool) -> nat
    decreases timestamps.len(),
{
    if timestamps.len() == 0 {
        0
    } else {
        tally(timestamps.drop_last(), wanted) + if wanted(timestamps.last()) {
            1nat
        } else {
            0
        }
    }
}

/// Holds of the times after `time`.
pub open spec fn later_than(time: u128) -> spec_fn(u128) -> bool {
    |t: u128| t > time
}

/// Holds of the times in the window of length `window` that ends with `end`;
/// the window does not include its other end.
pub open spec fn in_window(end: u128, window: u128) -> spec_fn(u128) -> bool {
    |t: u128| t <= end && end - t < window
}

/// The earliest of the times.
pub open spec fn earliest(times: Seq<u128>) -> u128
    decreases times.len(),
{
    if times.len() == 0 {
        0
    } else if times.len() == 1 {
        times[0]
    } else {
        let rest = earliest(times.drop_last());
        if times.last() < rest {
            times.last()
        } else {
            rest
        }
    }
}

/// The latest of the times.
pub open spec fn latest(times: Seq<u128>) -> u128
    decreases times.len(),
{
    if times.len() == 0 {
        0
    } else if times.len() == 1 {
        times[0]
    } else {
        let rest = latest(times.drop_last());
        if times.last() > rest {
            times.last()
        } else {
            rest
        }
    }
}

/// The most timestamps in any one window that ends with one of `ends`.
pub open spec fn busiest(timestamps: Seq<u128>, ends: Seq<u128>, window: u128) -> nat
    decreases ends.len(),
{
    if ends.len() == 0 {
        0
    } else {
        let rest = busiest(timestamps, ends.drop_last(), window);
        let here = tally(timestamps, in_window(ends.last(), window));
        if here > rest {
            here
        } else {
            rest
        }
    }
}

/// How many timestamps come after the first one.
pub open spec fn after_first(timestamps: Seq<u128>) -> nat {
    if timestamps.len() == 0 {
        0
    } else {
        tally(timestamps, later_than(timestamps[0]))
    }
}

/// The peak rate: the number of timestamps in the busiest window, per window.
pub open spec fn peak(timestamps: Seq<u128>, window: u128) -> Sample {
    Sample { amount: busiest(timestamps, timestamps, window) as u128, per: window }
}

/// `<[u128]>::sort` of std: the same values, in ascending order.
#[verifier::external_body]
fn sort(times: &mut Vec<u128>)
    ensures
        final(times)@.to_multiset() == old(times)@.to_multiset(),
        final(times)@.len() == old(times)@.len(),
        forall|i: int, j: int|
            0 <= i <= j < final(times)@.len() ==> final(times)@[i] <= final(times)@[j],
{
    times.sort()
}

proof fn lemma_busiest(timestamps: Seq<u128>, ends: Seq<u128>, window: u128)
    ensures
        forall|i: int|
            0 <= i < ends.len() ==> tally(timestamps, in_window(#[trigger] ends[i], window))
                <= busiest(timestamps, ends, window),
        busiest(timestamps, ends, window) > 0 ==> exists|i: int|
            0 <= i < ends.len() && tally(timestamps, in_window(#[trigger] ends[i], window))
                == busiest(timestamps, ends, window),
    decreases ends.len(),
{
    if ends.len() > 0 {
        let rest = ends.drop_last();
        lemma_busiest(timestamps, rest, window);
        let most = busiest(timestamps, ends, window);
        assert forall|i: int| 0 <= i < ends.len() implies tally(
            timestamps,
            in_window(#[trigger] ends[i], window),
        ) <= most by {
            if i < rest.len() {
                assert(rest[i] == ends[i]);
            }
        }
        if most > 0 {
            if most == tally(timestamps, in_window(ends.last(), window)) {
                assert(ends[ends.len() - 1] == ends.last());
            } else {
                let i = choose|i: int|
                    0 <= i < rest.len() && tally(timestamps, in_window(#[trigger] rest[i], window))
                        == most;
                assert(ends[i] == rest[i]);
            }
        }
    }
}

/// A tally does not depend on the order.
proof fn lemma_tally_multiset(s: Seq<u128>, wanted: spec_fn(u128) -> bool)
    ensures
        tally(s, wanted) == s.to_multiset().filter(wanted).len(),
    decreases s.len(),
{
    broadcast use vstd::seq_lib::group_to_multiset_ensures;

    if s.len() == 0 {
        assert(s.to_multiset().filter(wanted) =~= Multiset::empty());
    } else {
        let rest = s.drop_last();
        lemma_tally_multiset(rest, wanted);
        assert(s =~= rest.push(s.last()));
        assert(s.to_multiset() =~= rest.to_multiset().insert(s.last()));
        if wanted(s.last()) {
            assert(s.to_multiset().filter(wanted) =~= rest.to_multiset().filter(wanted).insert(
                s.last(),
            ));
        } else {
            assert(s.to_multiset().filter(wanted) =~= rest.to_multiset().filter(wanted));
        }
    }
}

proof fn lemma_same_members(a: Seq<u128>, b: Seq<u128>)
    requires
        a.to_multiset() == b.to_multiset(),
    ensures
        forall|x: u128| #[trigger] a.contains(x) <==> b.contains(x),
{
    broadcast use vstd::seq_lib::group_to_multiset_ensures;

    assert forall|x: u128| #[trigger] a.contains(x) <==> b.contains(x) by {
        assert(a.contains(x) <==> a.to_multiset().count(x) > 0);
        assert(b.contains(x) <==> b.to_multiset().count(x) > 0);
    }
}

/// The wanted timestamps are those from `low` up to `high`.
proof fn lemma_tally_range(s: Seq<u128>, wanted: spec_fn(u128) -> bool, low: int, high: int)
    requires
        0 <= low <= high <= s.len(),
        forall|i: int| 0 <= i < s.len() ==> (wanted(#[trigger] s[i]) <==> low <= i < high),
    ensures
        tally(s, wanted) == high - low,
    decreases s.len(),
{
    if s.len() > 0 {
        let rest = s.drop_last();
        assert forall|i: int| 0 <= i < rest.len() implies (wanted(#[trigger] rest[i]) <==> low <= i
            < high) by {
            assert(rest[i] == s[i]);
        }
        assert(wanted(s[s.len() - 1]) <==> low <= s.len() - 1 < high);
        if high == s.len() {
            if low == s.len() {
                lemma_tally_range(rest, wanted, low - 1, high - 1);
            } else {
                lemma_tally_range(rest, wanted, low, high - 1);
            }
        } else {
            lemma_tally_range(rest, wanted, low, high);
        }
    }
}

/// `start` is where the window that ends with `times[end]` begins.
spec fn opens_at(times: Seq<u128>, start: int, end: int, window: u128) -> bool {
    &&& 0 <= start <= end < times.len()
    &&& times[end] - times[start] < window
    &&& forall|i: int| 0 <= i < start ==> times[end] - #[trigger] times[i] >= window
}

/// The window that ends with `times[end]` holds at most `most` up to there.
spec fn holds_at_most(times: Seq<u128>, end: int, window: u128, most: int) -> bool {
    exists|start: int| #[trigger]
        opens_at(times, start, end, window) && end - start + 1 <= most
}

/// In ascending order the window that ends with `times[end]` holds everything
/// from its begin up to `end`, and what comes after `end` at the same time.
proof fn lemma_window(times: Seq<u128>, start: int, end: int, window: u128)
    requires
        forall|i: int, j: int| 0 <= i <= j < times.len() ==> times[i] <= times[j],
        opens_at(times, start, end, window),
    ensures
        tally(times, in_window(times[end], window)) >= end - start + 1,
        end + 1 == times.len() || times[end + 1] > times[end] ==> tally(
            times,
            in_window(times[end], window),
        ) == end - start + 1,
    decreases times.len() - end,
{
    let wanted = in_window(times[end], window);
    if end + 1 == times.len() || times[end + 1] > times[end] {
        assert forall|i: int| 0 <= i < times.len() implies (wanted(#[trigger] times[i]) <==> start
            <= i < end + 1) by {
            if i < start {
            } else if i <= end {
                assert(times[start] <= times[i] <= times[end]);
            } else {
                assert(times[end + 1] <= times[i]);
            }
        }
        lemma_tally_range(times, wanted, start, end + 1);
    } else {
        assert(times[end] <= times[end + 1]);
        lemma_window(times, start, end + 1, window);
    }
}

/// The peak rate of the timestamps.
pub fn peak_throughput(timestamps: &Vec<u128>, window: u128) -> (r: Sample)
    requires
        window > 0,
    ensures
        r == peak(timestamps@, window),
{
    if timestamps.len() == 0 {
        return Sample { amount: 0, per: window };
    }
    let mut times: Vec<u128> = timestamps.clone();
    assert(times@ == timestamps@);
    sort(&mut times);
    let count: usize = times.len();
    let mut start: usize = 0;
    let mut maximum: usize = 0;
    let mut end: usize = 0;
    while end < count
        invariant
            window > 0,
            count == times.len(),
            forall|i: int, j: int| 0 <= i <= j < times@.len() ==> times@[i] <= times@[j],
            start <= end <= count,
            end < count ==> forall|i: int|
                0 <= i < start ==> times@[end as int] - #[trigger] times@[i] >= window,
            maximum <= end,
            forall|e: int|
                0 <= e < end ==> #[trigger] holds_at_most(times@, e, window, maximum as int),
            end > 0 ==> exists|s: int, e: int| #[trigger]
                opens_at(times@, s, e, window) && maximum == e - s + 1,
        decreases count - end,
    {
        while start < end && times[end] - times[start] >= window
            invariant
                start <= end < count,
                count == times.len(),
                forall|i: int, j: int| 0 <= i <= j < times@.len() ==> times@[i] <= times@[j],
                forall|i: int|
                    0 <= i < start ==> times@[end as int] - #[trigger] times@[i] >= window,
            decreases end - start,
        {
            start += 1;
        }
        assert(opens_at(times@, start as int, end as int, window));
        let size: usize = end - start + 1;
        let ghost before = maximum;
        if size > maximum {
            maximum = size;
        }
        assert forall|e: int| 0 <= e < end + 1 implies #[trigger] holds_at_most(
            times@,
            e,
            window,
            maximum as int,
        ) by {
            if e < end {
                assert(holds_at_most(times@, e, window, before as int));
            }
        }
        end += 1;
        assert(end < count ==> times@[end - 1] <= times@[end as int]);
    }
    proof {
        lemma_peak_found(timestamps@, times@, window, maximum as nat);
    }
    Sample { amount: maximum as u128, per: window }
}

proof fn lemma_peak_found(timestamps: Seq<u128>, times: Seq<u128>, window: u128, maximum: nat)
    requires
        times.len() > 0,
        times.to_multiset() == timestamps.to_multiset(),
        forall|i: int, j: int| 0 <= i <= j < times.len() ==> times[i] <= times[j],
        forall|e: int|
            0 <= e < times.len() ==> #[trigger] holds_at_most(times, e, window, maximum as int),
        exists|s: int, e: int| #[trigger]
            opens_at(times, s, e, window) && maximum == e - s + 1,
    ensures
        busiest(timestamps, timestamps, window) == maximum,
{
    let most = busiest(timestamps, timestamps, window);
    lemma_busiest(timestamps, timestamps, window);
    lemma_same_members(times, timestamps);
    let (s, e) = choose|s: int, e: int| #[trigger]
        opens_at(times, s, e, window) && maximum == e - s + 1;
    lemma_window(times, s, e, window);
    assert(tally(timestamps, in_window(times[e], window)) >= maximum) by {
        lemma_tally_multiset(times, in_window(times[e], window));
        lemma_tally_multiset(timestamps, in_window(times[e], window));
    }
    assert(times.contains(times[e]));
    let j = choose|j: int| 0 <= j < timestamps.len() && timestamps[j] == times[e];
    assert(most >= maximum);
    let i = choose|i: int|
        0 <= i < timestamps.len() && tally(timestamps, in_window(#[trigger] timestamps[i], window))
            == most;
    assert(times.contains(timestamps[i])) by {
        assert(timestamps.contains(timestamps[i]));
    }
    let k = choose|k: int| 0 <= k < times.len() && times[k] == timestamps[i];
    lemma_tally_multiset(times, in_window(times[k], window));
    lemma_tally_multiset(timestamps, in_window(times[k], window));
    let last = lemma_last_equal(times, k);
    assert(holds_at_most(times, last, window, maximum as int));
    let start = choose|start: int| #[trigger]
        opens_at(times, start, last, window) && last - start + 1 <= maximum;
    lemma_window(times, start, last, window);
}

/// The last place that holds the same time as `at`.
proof fn lemma_last_equal(times: Seq<u128>, at: int) -> (last: int)
    requires
        0 <= at < times.len(),
        forall|i: int, j: int| 0 <= i <= j < times.len() ==> times[i] <= times[j],
    ensures
        at <= last < times.len(),
        times[last] == times[at],
        last + 1 == times.len() || times[last + 1] > times[last],
    decreases times.len() - at,
{
    if at + 1 < times.len() && times[at + 1] == times[at] {
        lemma_last_equal(times, at + 1)
    } else {
        at
    }
}

/// How many timestamps come after the first one.
pub fn count_after_first(timestamps: &Vec<u128>) -> (r: usize)
    ensures
        r == after_first(timestamps@),
{
    if timestamps.len() == 0 {
        return 0;
    }
    let first: u128 = timestamps[0];
    let mut count: usize = 0;
    let mut i: usize = 0;
    while i < timestamps.len()
        invariant
            i <= timestamps.len(),
            count <= i,
            count == tally(timestamps@.take(i as int), later_than(first)),
        decreases timestamps.len() - i,
    {
        if timestamps[i] > first {
            count += 1;
        }
        i += 1;
        assert(timestamps@.take(i as int).drop_last() == timestamps@.take(i - 1));
    }
    assert(timestamps@.take(i as int) == timestamps@);
    count
}

/// The measured values of one quantity. In the quantity's unit each value is
/// `multiplier` times the sample.
#[derive(Debug, Clone)]
pub struct BenchmarkMetric {
    pub values: Vec<Sample>,
    pub multiplier: u128,
}

/// The content of a [`BenchmarkMetric`].
#[verifier::ext_equal]
pub struct MetricView {
    pub values: Seq<Sample>,
    pub multiplier: u128,
}

impl View for BenchmarkMetric {
    type V = MetricView;

    open spec fn view(&self) -> MetricView {
        MetricView { values: self.values@, multiplier: self.multiplier }
    }
}

/// What was measured of one test shape, each quantity as an `M`.
#[derive(Debug, Clone)]
pub struct BenchmarkRun<M> {
    pub concurrency: usize,
    pub context_size: usize,
    pub prompt_size: usize,
    pub response_size: usize,
    pub is_context_prefill_phase: bool,
    pub pp_throughput: Option<M>,
    pub pp_req_throughput: Option<M>,
    pub tg_throughput: Option<M>,
    pub tg_req_throughput: Option<M>,
    pub peak_throughput: Option<M>,
    pub peak_req_throughput: Option<M>,
    pub ttfr: Option<M>,
    pub est_ppt: Option<M>,
    pub e2e_ttft: Option<M>,
}

/// What is asked of the endpoint in one test.
#[derive(Debug, Clone, Copy)]
pub struct BenchmarkShape {
    pub prompt_tokens: usize,
    pub generated_tokens: usize,
    pub context_tokens: usize,
    pub concurrency: usize,
    pub expected_prompt_tokens: usize,
    pub is_context_phase: bool,
}

impl BenchmarkShape {
    /// The tokens that the endpoint reports describe what is measured. They do
    /// not where the prompt follows a context that was loaded before: they
    /// cover that context too, but only the prompt is expected.
    pub open spec fn uses_reported(self) -> bool {
        self.is_context_phase || self.context_tokens == 0 || self.expected_prompt_tokens
            != self.prompt_tokens
    }

    /// Whether the reported tokens describe what is measured.
    pub fn counts_reported(&self) -> (r: bool)
        ensures
            r == self.uses_reported(),
    {
        self.is_context_phase || self.context_tokens == 0 || self.expected_prompt_tokens
            != self.prompt_tokens
    }
}

/// The samples of one test shape. Rates are in tokens per tick, times in
/// seconds.
#[derive(Debug)]
pub struct Aggregates {
    pub pp_req: Vec<Sample>,
    pub tg_req: Vec<Sample>,
    pub pp_batch: Vec<Sample>,
    pub tg_batch: Vec<Sample>,
    pub peak_batch: Vec<Sample>,
    pub peak_req: Vec<Sample>,
    pub ttfr: Vec<Sample>,
    pub est_ppt: Vec<Sample>,
    pub e2e_ttft: Vec<Sample>,
}

/// The content of [`Aggregates`].
#[verifier::ext_equal]
pub struct AggregatesView {
    pub pp_req: Seq<Sample>,
    pub tg_req: Seq<Sample>,
    pub pp_batch: Seq<Sample>,
    pub tg_batch: Seq<Sample>,
    pub peak_batch: Seq<Sample>,
    pub peak_req: Seq<Sample>,
    pub ttfr: Seq<Sample>,
    pub est_ppt: Seq<Sample>,
    pub e2e_ttft: Seq<Sample>,
}

impl View for Aggregates {
    type V = AggregatesView;

    open spec fn view(&self) -> AggregatesView {
        AggregatesView {
            pp_req: self.pp_req@,
            tg_req: self.tg_req@,
            pp_batch: self.pp_batch@,
            tg_batch: self.tg_batch@,
            peak_batch: self.peak_batch@,
            peak_req: self.peak_req@,
            ttfr: self.ttfr@,
            est_ppt: self.est_ppt@,
            e2e_ttft: self.e2e_ttft@,
        }
    }
}

/// How many prompt tokens a request is credited with: those that the endpoint
/// reported where they describe what was measured and are within a fifth of
/// what was expected, else the expected ones.
pub open spec fn credited(reported: usize, expected: usize, uses_reported: bool) -> usize {
    let difference = if reported >= expected {
        reported - expected
    } else {
        expected - reported
    };
    if uses_reported && reported > 0 && 5 * difference < expected {
        reported
    } else {
        expected
    }
}

/// A span of time as a sample in seconds.
pub open spec fn seconds(span: u128) -> Sample {
    Sample { amount: span, per: TICKS_PER_SECOND }
}

/// `samples`, and `amount` for every `per` where something was counted in a
/// time that is not zero.
pub open spec fn with_rate(samples: Seq<Sample>, amount: nat, per: int) -> Seq<Sample> {
    if per > 0 {
        samples.push(Sample { amount: amount as u128, per: per as u128 })
    } else {
        samples
    }
}

/// The time of the last token, or of the end where there was none.
pub open spec fn last_token_time(result: RequestResult) -> u128 {
    if result.token_timestamps@.len() > 0 {
        result.token_timestamps@.last()
    } else {
        result.end_ts
    }
}

pub open spec fn start_times(results: Seq<RequestResult>) -> Seq<u128> {
    Seq::new(results.len(), |i: int| results[i].start_ts)
}

pub open spec fn last_token_times(results: Seq<RequestResult>) -> Seq<u128> {
    Seq::new(results.len(), |i: int| last_token_time(results[i]))
}

/// The times of the first tokens of the requests that had one.
pub open spec fn first_token_times(results: Seq<RequestResult>) -> Seq<u128>
    decreases results.len(),
{
    if results.len() == 0 {
        Seq::empty()
    } else {
        let rest = first_token_times(results.drop_last());
        match results.last().first_token_ts {
            Some(first) => rest.push(first),
            None => rest,
        }
    }
}

/// The token times of all requests, one request after the other.
pub open spec fn all_token_times(results: Seq<RequestResult>) -> Seq<u128>
    decreases results.len(),
{
    if results.len() == 0 {
        Seq::empty()
    } else {
        all_token_times(results.drop_last()) + results.last().token_timestamps@
    }
}

/// The prompt tokens that all requests together are credited with.
pub open spec fn credited_total(
    results: Seq<RequestResult>,
    expected: usize,
    uses_reported: bool,
) -> nat
    decreases results.len(),
{
    if results.len() == 0 {
        0
    } else {
        credited_total(results.drop_last(), expected, uses_reported) + credited(
            results.last().prompt_tokens,
            expected,
            uses_reported,
        ) as nat
    }
}

/// The tokens of all requests that came after their request's first one.
pub open spec fn after_first_total(results: Seq<RequestResult>) -> nat
    decreases results.len(),
{
    if results.len() == 0 {
        0
    } else {
        after_first_total(results.drop_last()) + after_first(results.last().token_timestamps@)
    }
}

impl AggregatesView {
    pub open spec fn empty() -> AggregatesView {
        AggregatesView {
            pp_req: Seq::empty(),
            tg_req: Seq::empty(),
            pp_batch: Seq::empty(),
            tg_batch: Seq::empty(),
            peak_batch: Seq::empty(),
            peak_req: Seq::empty(),
            ttfr: Seq::empty(),
            est_ppt: Seq::empty(),
            e2e_ttft: Seq::empty(),
        }
    }

    /// The samples with those of one request.
    pub open spec fn with_request(
        self,
        result: RequestResult,
        latency: u128,
        expected: usize,
        uses_reported: bool,
    ) -> AggregatesView {
        let times = result.token_timestamps@;
        let answered = result.first_response_ts is Some;
        let ttfr = elapsed(result.start_ts, result.first_response_ts->0);
        let est_ppt = elapsed(latency, ttfr);
        let observed = after_first(times);
        AggregatesView {
            ttfr: if answered {
                self.ttfr.push(seconds(ttfr))
            } else {
                self.ttfr
            },
            est_ppt: if answered {
                self.est_ppt.push(seconds(est_ppt))
            } else {
                self.est_ppt
            },
            pp_req: if answered {
                with_rate(
                    self.pp_req,
                    credited(result.prompt_tokens, expected, uses_reported) as nat,
                    est_ppt as int,
                )
            } else {
                self.pp_req
            },
            e2e_ttft: match result.first_token_ts {
                Some(first) => self.e2e_ttft.push(seconds(elapsed(result.start_ts, first))),
                None => self.e2e_ttft,
            },
            tg_req: if times.len() > 0 && observed > 0 {
                with_rate(self.tg_req, observed, times.last() - times[0])
            } else {
                self.tg_req
            },
            peak_req: if times.len() > 0 {
                self.peak_req.push(peak(times, TICKS_PER_SECOND))
            } else {
                self.peak_req
            },
            ..self
        }
    }

    /// The samples with those of each of the requests.
    pub open spec fn with_requests(
        self,
        results: Seq<RequestResult>,
        latency: u128,
        expected: usize,
        uses_reported: bool,
    ) -> AggregatesView
        decreases results.len(),
    {
        if results.len() == 0 {
            self
        } else {
            self.with_requests(results.drop_last(), latency, expected, uses_reported).with_request(
                results.last(),
                latency,
                expected,
                uses_reported,
            )
        }
    }

    /// The samples with those of a batch of concurrent requests.
    pub open spec fn with_batch(
        self,
        results: Seq<RequestResult>,
        latency: u128,
        expected: usize,
        uses_reported: bool,
    ) -> AggregatesView {
        let each = self.with_requests(results, latency, expected, uses_reported);
        let firsts = first_token_times(results);
        let times = all_token_times(results);
        let observed = after_first_total(results);
        AggregatesView {
            pp_batch: if firsts.len() > 0 {
                with_rate(
                    each.pp_batch,
                    credited_total(results, expected, uses_reported),
                    latest(firsts) - earliest(start_times(results)),
                )
            } else {
                each.pp_batch
            },
            tg_batch: if firsts.len() > 0 && observed > 0 {
                with_rate(
                    each.tg_batch,
                    observed,
                    latest(last_token_times(results)) - earliest(firsts),
                )
            } else {
                each.tg_batch
            },
            peak_batch: if times.len() > 0 {
                each.peak_batch.push(peak(times, TICKS_PER_SECOND))
            } else {
                each.peak_batch
            },
            ..each
        }
    }

    /// The samples with those of each of the batches.
    pub open spec fn with_batches(
        self,
        batches: Seq<Vec<RequestResult>>,
        latency: u128,
        expected: usize,
        uses_reported: bool,
    ) -> AggregatesView
        decreases batches.len(),
    {
        if batches.len() == 0 {
            self
        } else {
            self.with_batches(batches.drop_last(), latency, expected, uses_reported).with_batch(
                batches.last()@,
                latency,
                expected,
                uses_reported,
            )
        }
    }
}

/// The earliest of the times, where there is one.
fn minimum(times: &Vec<u128>) -> (r: Option<u128>)
    ensures
        r == if times@.len() > 0 {
            Some(earliest(times@))
        } else {
            None
        },
{
    if times.len() == 0 {
        return None;
    }
    let mut least: u128 = times[0];
    let mut i: usize = 1;
    assert(times@.take(1)[0] == times@[0]);
    while i < times.len()
        invariant
            1 <= i <= times.len(),
            least == earliest(times@.take(i as int)),
        decreases times.len() - i,
    {
        if times[i] < least {
            least = times[i];
        }
        i += 1;
        assert(times@.take(i as int).drop_last() == times@.take(i - 1));
    }
    assert(times@.take(i as int) == times@);
    Some(least)
}

/// The latest of the times, where there is one.
fn maximum(times: &Vec<u128>) -> (r: Option<u128>)
    ensures
        r == if times@.len() > 0 {
            Some(latest(times@))
        } else {
            None
        },
{
    if times.len() == 0 {
        return None;
    }
    let mut most: u128 = times[0];
    let mut i: usize = 1;
    assert(times@.take(1)[0] == times@[0]);
    while i < times.len()
        invariant
            1 <= i <= times.len(),
            most == latest(times@.take(i as int)),
        decreases times.len() - i,
    {
        if times[i] > most {
            most = times[i];
        }
        i += 1;
        assert(times@.take(i as int).drop_last() == times@.take(i - 1));
    }
    assert(times@.take(i as int) == times@);
    Some(most)
}

/// How many prompt tokens a request is credited with.
pub fn credit(reported: usize, expected: usize, uses_reported: bool) -> (r: usize)
    ensures
        r == credited(reported, expected, uses_reported),
{
    let difference: usize = if reported >= expected {
        reported - expected
    } else {
        expected - reported
    };
    if uses_reported && reported > 0 && difference as u128 * 5 < expected as u128 {
        reported
    } else {
        expected
    }
}

impl Aggregates {
    /// No samples.
    pub fn new() -> (r: Aggregates)
        ensures
            r@ == AggregatesView::empty(),
    {
        Aggregates {
            pp_req: Vec::new(),
            tg_req: Vec::new(),
            pp_batch: Vec::new(),
            tg_batch: Vec::new(),
            peak_batch: Vec::new(),
            peak_req: Vec::new(),
            ttfr: Vec::new(),
            est_ppt: Vec::new(),
            e2e_ttft: Vec::new(),
        }
    }

    /// Adds the samples of one request.
    fn add_request(&mut self, result: &RequestResult, latency: u128, expected: usize, uses_reported: bool)
        ensures
            final(self)@ == old(self)@.with_request(*result, latency, expected, uses_reported),
    {
        let prompt_tokens: usize = credit(result.prompt_tokens, expected, uses_reported);
        if let Some(answered) = result.first_response_ts {
            let ttfr: u128 = answered.saturating_sub(result.start_ts);
            self.ttfr.push(Sample { amount: ttfr, per: TICKS_PER_SECOND });
            let est_ppt: u128 = ttfr.saturating_sub(latency);
            self.est_ppt.push(Sample { amount: est_ppt, per: TICKS_PER_SECOND });
            if est_ppt > 0 {
                self.pp_req.push(Sample { amount: prompt_tokens as u128, per: est_ppt });
            }
        }
        if let Some(first) = result.first_token_ts {
            self.e2e_ttft.push(
                Sample {
                    amount: first.saturating_sub(result.start_ts),
                    per: TICKS_PER_SECOND,
                },
            );
        }
        let count: usize = result.token_timestamps.len();
        if count > 0 {
            let first: u128 = result.token_timestamps[0];
            let last: u128 = result.token_timestamps[count - 1];
            let observed: usize = count_after_first(&result.token_timestamps);
            if observed > 0 && last > first {
                self.tg_req.push(Sample { amount: observed as u128, per: last - first });
            }
            self.peak_req.push(peak_throughput(&result.token_timestamps, TICKS_PER_SECOND));
        }
    }
}

/// Adds the samples of a batch of concurrent requests.
pub fn process_batch(
    results: &Vec<RequestResult>,
    latency: u128,
    expected_tokens: usize,
    uses_reported: bool,
    aggregate: &mut Aggregates,
)
    ensures
        final(aggregate)@ == old(aggregate)@.with_batch(results@, latency, expected_tokens, uses_reported),
{
    let mut prompt_tokens_total: u128 = 0;
    let mut observed: u128 = 0;
    let mut all_timestamps: Vec<u128> = Vec::new();
    let mut starts: Vec<u128> = Vec::new();
    let mut first_tokens: Vec<u128> = Vec::new();
    let mut last_tokens: Vec<u128> = Vec::new();
    let mut i: usize = 0;
    while i < results.len()
        invariant
            i <= results.len(),
            aggregate@ == old(aggregate)@.with_requests(
                results@.take(i as int),
                latency,
                expected_tokens,
                uses_reported,
            ),
            prompt_tokens_total == credited_total(
                results@.take(i as int),
                expected_tokens,
                uses_reported,
            ),
            prompt_tokens_total <= i * 0xffff_ffff_ffff_ffff,
            observed == after_first_total(results@.take(i as int)),
            observed <= i * 0xffff_ffff_ffff_ffff,
            all_timestamps@ == all_token_times(results@.take(i as int)),
            starts@ == start_times(results@.take(i as int)),
            first_tokens@ == first_token_times(results@.take(i as int)),
            last_tokens@ == last_token_times(results@.take(i as int)),
        decreases results.len() - i,
    {
        let result = &results[i];
        let ghost before = results@.take(i as int);
        let ghost upto = results@.take(i + 1);
        assert(upto.drop_last() == before);
        assert(upto.last() == *result);
        aggregate.add_request(result, latency, expected_tokens, uses_reported);
        starts.push(result.start_ts);
        let mut more: Vec<u128> = result.token_timestamps.clone();
        assert(more@ == result.token_timestamps@);
        all_timestamps.append(&mut more);
        let count: usize = result.token_timestamps.len();
        if count > 0 {
            last_tokens.push(result.token_timestamps[count - 1]);
        } else {
            last_tokens.push(result.end_ts);
        }
        prompt_tokens_total = prompt_tokens_total + credit(
            result.prompt_tokens,
            expected_tokens,
            uses_reported,
        ) as u128;
        if let Some(first) = result.first_token_ts {
            first_tokens.push(first);
        }
        observed = observed + count_after_first(&result.token_timestamps) as u128;
        assert(start_times(upto) == start_times(before).push(result.start_ts));
        assert(last_token_times(upto) == last_token_times(before).push(last_token_time(*result)));
        i += 1;
    }
    assert(results@.take(i as int) == results@);
    if let (Some(min_start), Some(max_first)) = (minimum(&starts), maximum(&first_tokens)) {
        if max_first > min_start {
            aggregate.pp_batch.push(
                Sample { amount: prompt_tokens_total, per: max_first - min_start },
            );
        }
    }
    if let (Some(min_first), Some(max_last)) = (minimum(&first_tokens), maximum(&last_tokens)) {
        if observed > 0 && max_last > min_first {
            aggregate.tg_batch.push(Sample { amount: observed, per: max_last - min_first });
        }
    }
    if all_timestamps.len() > 0 {
        aggregate.peak_batch.push(peak_throughput(&all_timestamps, TICKS_PER_SECOND));
    }
    proof {
        lemma_more_results_than_firsts(results@);
    }
}

proof fn lemma_more_results_than_firsts(results: Seq<RequestResult>)
    ensures
        first_token_times(results).len() <= results.len(),
    decreases results.len(),
{
    if results.len() > 0 {
        lemma_more_results_than_firsts(results.drop_last());
    }
}

/// The metric of `values`, where there are any.
pub open spec fn metric_of(values: Seq<Sample>, multiplier: u128) -> Option<MetricView> {
    if values.len() == 0 {
        None
    } else {
        Some(MetricView { values, multiplier })
    }
}

/// The content of a metric, where there is one.
pub open spec fn metric_content(metric: Option<BenchmarkMetric>) -> Option<MetricView> {
    match metric {
        Some(metric) => Some(metric@),
        None => None,
    }
}

impl BenchmarkRun<BenchmarkMetric> {
    /// The content of the metrics.
    pub open spec fn content(self) -> BenchmarkRun<MetricView> {
        BenchmarkRun {
            concurrency: self.concurrency,
            context_size: self.context_size,
            prompt_size: self.prompt_size,
            response_size: self.response_size,
            is_context_prefill_phase: self.is_context_prefill_phase,
            pp_throughput: metric_content(self.pp_throughput),
            pp_req_throughput: metric_content(self.pp_req_throughput),
            tg_throughput: metric_content(self.tg_throughput),
            tg_req_throughput: metric_content(self.tg_req_throughput),
            peak_throughput: metric_content(self.peak_throughput),
            peak_req_throughput: metric_content(self.peak_req_throughput),
            ttfr: metric_content(self.ttfr),
            est_ppt: metric_content(self.est_ppt),
            e2e_ttft: metric_content(self.e2e_ttft),
        }
    }
}

/// The report on a test shape from its samples: rates in tokens per second,
/// times in milliseconds. With more than one concurrent request the throughput
/// is that of the batches.
pub open spec fn summary(shape: BenchmarkShape, samples: AggregatesView) -> BenchmarkRun<MetricView> {
    let rate = TICKS_PER_SECOND;
    let many = shape.concurrency > 1;
    BenchmarkRun {
        concurrency: shape.concurrency,
        context_size: shape.context_tokens,
        prompt_size: shape.prompt_tokens,
        response_size: shape.generated_tokens,
        is_context_prefill_phase: shape.is_context_phase,
        pp_throughput: metric_of(
            if many {
                samples.pp_batch
            } else {
                samples.pp_req
            },
            rate,
        ),
        pp_req_throughput: metric_of(samples.pp_req, rate),
        tg_throughput: metric_of(
            if many {
                samples.tg_batch
            } else {
                samples.tg_req
            },
            rate,
        ),
        tg_req_throughput: metric_of(samples.tg_req, rate),
        peak_throughput: metric_of(samples.peak_batch, rate),
        peak_req_throughput: metric_of(samples.peak_req, rate),
        ttfr: metric_of(samples.ttfr, 1000),
        est_ppt: metric_of(samples.est_ppt, 1000),
        e2e_ttft: metric_of(samples.e2e_ttft, 1000),
    }
}

/// The report on a test shape from the requests of its batches.
pub open spec fn aggregated(
    shape: BenchmarkShape,
    batches: Seq<Vec<RequestResult>>,
    latency: u128,
) -> BenchmarkRun<MetricView> {
    summary(
        shape,
        AggregatesView::empty().with_batches(
            batches,
            latency,
            shape.expected_prompt_tokens,
            shape.uses_reported(),
        ),
    )
}

impl BenchmarkMetric {
    /// The metric of `values`, where there are any.
    pub fn new(values: Vec<Sample>, multiplier: u128) -> (r: Option<BenchmarkMetric>)
        ensures
            metric_content(r) == metric_of(values@, multiplier),
    {
        if values.len() == 0 {
            return None;
        }
        Some(BenchmarkMetric { values, multiplier })
    }
}

/// Aggregates the requests of a test shape.
pub fn aggregate(
    shape: BenchmarkShape,
    batches: &Vec<Vec<RequestResult>>,
    latency: u128,
) -> (r: BenchmarkRun<BenchmarkMetric>)
    ensures
        r.content() == aggregated(shape, batches@, latency),
{
    let mut samples = Aggregates::new();
    let uses_reported = shape.counts_reported();
    let mut i: usize = 0;
    while i < batches.len()
        invariant
            i <= batches.len(),
            uses_reported == shape.uses_reported(),
            samples@ == AggregatesView::empty().with_batches(
                batches@.take(i as int),
                latency,
                shape.expected_prompt_tokens,
                shape.uses_reported(),
            ),
        decreases batches.len() - i,
    {
        process_batch(
            &batches[i],
            latency,
            shape.expected_prompt_tokens,
            uses_reported,
            &mut samples,
        );
        i += 1;
        assert(batches@.take(i as int).drop_last() == batches@.take(i - 1));
    }
    assert(batches@.take(i as int) == batches@);
    let ghost all = samples@;
    let pp_values = if shape.concurrency > 1 {
        samples.pp_batch
    } else {
        samples.pp_req.clone()
    };
    let tg_values = if shape.concurrency > 1 {
        samples.tg_batch
    } else {
        samples.tg_req.clone()
    };
    assert(pp_values@ == if shape.concurrency > 1 { all.pp_batch } else { all.pp_req });
    assert(tg_values@ == if shape.concurrency > 1 { all.tg_batch } else { all.tg_req });
    BenchmarkRun {
        concurrency: shape.concurrency,
        context_size: shape.context_tokens,
        prompt_size: shape.prompt_tokens,
        response_size: shape.generated_tokens,
        is_context_prefill_phase: shape.is_context_phase,
        pp_throughput: BenchmarkMetric::new(pp_values, TICKS_PER_SECOND),
        pp_req_throughput: BenchmarkMetric::new(samples.pp_req, TICKS_PER_SECOND),
        tg_throughput: BenchmarkMetric::new(tg_values, TICKS_PER_SECOND),
        tg_req_throughput: BenchmarkMetric::new(samples.tg_req, TICKS_PER_SECOND),
        peak_throughput: BenchmarkMetric::new(samples.peak_batch, TICKS_PER_SECOND),
        peak_req_throughput: BenchmarkMetric::new(samples.peak_req, TICKS_PER_SECOND),
        ttfr: BenchmarkMetric::new(samples.ttfr, 1000),
        est_ppt: BenchmarkMetric::new(samples.est_ppt, 1000),
        e2e_ttft: BenchmarkMetric::new(samples.e2e_ttft, 1000),
    }
}

/// Where every wanted time is also accepted, no more are wanted than accepted.
proof fn lemma_tally_grows(
    times: Seq<u128>,
    wanted: spec_fn(u128) -> bool,
    accepted: spec_fn(u128) -> bool,
)
    requires
        forall|i: int| 0 <= i < times.len() && wanted(#[trigger] times[i]) ==> accepted(times[i]),
    ensures
        tally(times, wanted) <= tally(times, accepted),
    decreases times.len(),
{
    if times.len() > 0 {
        let rest = times.drop_last();
        assert forall|i: int| 0 <= i < rest.len() && wanted(#[trigger] rest[i]) implies accepted(
            rest[i],
        ) by {
            assert(rest[i] == times[i]);
        }
        lemma_tally_grows(rest, wanted, accepted);
        assert(times[times.len() - 1] == times.last());
    }
}

proof fn lemma_tally_bounds(times: Seq<u128>, wanted: spec_fn(u128) -> bool)
    ensures
        tally(times, wanted) <= times.len(),
        (forall|i: int| 0 <= i < times.len() ==> !wanted(#[trigger] times[i])) ==> tally(
            times,
            wanted,
        ) == 0,
    decreases times.len(),
{
    if times.len() > 0 {
        let rest = times.drop_last();
        lemma_tally_bounds(rest, wanted);
        assert(times[times.len() - 1] == times.last());
        if forall|i: int| 0 <= i < times.len() ==> !wanted(#[trigger] times[i]) {
            assert forall|i: int| 0 <= i < rest.len() implies !wanted(#[trigger] rest[i]) by {
                assert(rest[i] == times[i]);
            }
        }
    }
}

/// The last of the times that is not after `end`, where there is one.
proof fn lemma_last_before(times: Seq<u128>, end: u128) -> (at: Option<int>)
    ensures
        match at {
            Some(i) => {
                &&& 0 <= i < times.len()
                &&& times[i] <= end
                &&& forall|j: int|
                    0 <= j < times.len() && #[trigger] times[j] <= end ==> times[j] <= times[i]
            },
            None => forall|j: int| 0 <= j < times.len() ==> #[trigger] times[j] > end,
        },
    decreases times.len(),
{
    if times.len() == 0 {
        None
    } else {
        let rest = times.drop_last();
        let before = lemma_last_before(rest, end);
        assert(forall|j: int| 0 <= j < rest.len() ==> rest[j] == #[trigger] times[j]);
        let last = times.len() - 1;
        if times[last] <= end && (before is None || times[last] >= times[before->0]) {
            Some(last)
        } else {
            before
        }
    }
}

/// No window of the length, wherever it ends, holds more timestamps than the
/// busiest one, and the busiest one is such a window.
pub proof fn law_no_window_is_busier(timestamps: Seq<u128>, end: u128, window: u128)
    ensures
        tally(timestamps, in_window(end, window)) <= busiest(timestamps, timestamps, window),
        timestamps.len() > 0 && window > 0 ==> exists|i: int|
            0 <= i < timestamps.len() && tally(
                timestamps,
                in_window(#[trigger] timestamps[i], window),
            ) == busiest(timestamps, timestamps, window),
{
    lemma_busiest(timestamps, timestamps, window);
    match lemma_last_before(timestamps, end) {
        Some(i) => {
            lemma_tally_grows(
                timestamps,
                in_window(end, window),
                in_window(timestamps[i], window),
            );
        },
        None => {
            lemma_tally_bounds(timestamps, in_window(end, window));
        },
    }
    if timestamps.len() > 0 && window > 0 && busiest(timestamps, timestamps, window) == 0 {
        assert(tally(timestamps, in_window(timestamps[0], window)) == 0);
    }
}

/// All tokens of a request came at the same time.
pub open spec fn is_burst(result: RequestResult) -> bool {
    forall|i: int|
        0 <= i < result.token_timestamps@.len() ==> #[trigger] result.token_timestamps@[i]
            == result.token_timestamps@[0]
}

proof fn lemma_burst(result: RequestResult)
    requires
        is_burst(result),
    ensures
        after_first(result.token_timestamps@) == 0,
{
    let times = result.token_timestamps@;
    if times.len() > 0 {
        lemma_tally_bounds(times, later_than(times[0]));
    }
}

proof fn lemma_burst_requests(
    samples: AggregatesView,
    results: Seq<RequestResult>,
    latency: u128,
    expected: usize,
    uses_reported: bool,
)
    requires
        forall|i: int| 0 <= i < results.len() ==> is_burst(#[trigger] results[i]),
    ensures
        samples.with_requests(results, latency, expected, uses_reported).tg_req == samples.tg_req,
        samples.with_requests(results, latency, expected, uses_reported).tg_batch == samples.tg_batch,
        after_first_total(results) == 0,
    decreases results.len(),
{
    if results.len() > 0 {
        let rest = results.drop_last();
        assert forall|i: int| 0 <= i < rest.len() implies is_burst(#[trigger] rest[i]) by {
            assert(rest[i] == results[i]);
        }
        lemma_burst_requests(samples, rest, latency, expected, uses_reported);
        assert(is_burst(results[results.len() - 1]));
        lemma_burst(results.last());
    }
}

proof fn lemma_burst_batches(
    samples: AggregatesView,
    batches: Seq<Vec<RequestResult>>,
    latency: u128,
    expected: usize,
    uses_reported: bool,
)
    requires
        forall|i: int, j: int|
            0 <= i < batches.len() && 0 <= j < batches[i]@.len() ==> is_burst(
                #[trigger] batches[i]@[j],
            ),
    ensures
        samples.with_batches(batches, latency, expected, uses_reported).tg_req == samples.tg_req,
        samples.with_batches(batches, latency, expected, uses_reported).tg_batch == samples.tg_batch,
    decreases batches.len(),
{
    if batches.len() > 0 {
        let rest = batches.drop_last();
        assert forall|i: int, j: int| 0 <= i < rest.len() && 0 <= j < rest[i]@.len() implies is_burst(
            #[trigger] rest[i]@[j],
        ) by {
            assert(is_burst(batches[i]@[j]));
        }
        lemma_burst_batches(samples, rest, latency, expected, uses_reported);
        let last = batches.len() - 1;
        assert forall|j: int| 0 <= j < batches.last()@.len() implies is_burst(
            #[trigger] batches.last()@[j],
        ) by {
            assert(is_burst(batches[last]@[j]));
        }
        lemma_burst_requests(
            samples.with_batches(rest, latency, expected, uses_reported),
            batches.last()@,
            latency,
            expected,
            uses_reported,
        );
    }
}

/// Answers that were each delivered in one burst have no generation rate.
pub proof fn law_bursts_have_no_rate(
    shape: BenchmarkShape,
    batches: Seq<Vec<RequestResult>>,
    latency: u128,
)
    requires
        forall|i: int, j: int|
            0 <= i < batches.len() && 0 <= j < batches[i]@.len() ==> is_burst(
                #[trigger] batches[i]@[j],
            ),
    ensures
        aggregated(shape, batches, latency).tg_throughput is None,
        aggregated(shape, batches, latency).tg_req_throughput is None,
{
    lemma_burst_batches(
        AggregatesView::empty(),
        batches,
        latency,
        shape.expected_prompt_tokens,
        shape.uses_reported(),
    );
}

proof fn lemma_first_is_not_later(times: Seq<u128>, first: u128)
    requires
        times.len() > 0,
        times[0] == first,
    ensures
        tally(times, later_than(first)) < times.len(),
    decreases times.len(),
{
    if times.len() > 1 {
        lemma_first_is_not_later(times.drop_last(), first);
    } else {
        lemma_tally_bounds(times, later_than(first));
    }
}

/// The first token of a request does not count for the generation rate.
pub proof fn law_first_token_does_not_count(result: RequestResult)
    requires
        result.token_timestamps@.len() > 0,
    ensures
        after_first(result.token_timestamps@) < result.token_timestamps@.len(),
{
    lemma_first_is_not_later(result.token_timestamps@, result.token_timestamps@[0]);
}

/// A request is credited with less than a fifth more, or less, than what was
/// expected.
pub proof fn law_credit_is_plausible(reported: usize, expected: usize, uses_reported: bool)
    requires
        expected > 0,
    ensures
        4 * expected < 5 * credited(reported, expected, uses_reported) < 6 * expected,
        credited(reported, expected, uses_reported) == reported || credited(
            reported,
            expected,
            uses_reported,
        ) == expected,
{
}

/// The result as if the endpoint had reported so many prompt tokens.
pub open spec fn with_reported(result: RequestResult, tokens: usize) -> RequestResult {
    RequestResult { prompt_tokens: tokens, ..result }
}

proof fn lemma_target_counts(
    samples: AggregatesView,
    results: Seq<RequestResult>,
    tokens: spec_fn(int) -> usize,
    latency: u128,
    expected: usize,
)
    ensures
        ({
            let others = Seq::new(
                results.len(),
                |i: int| with_reported(results[i], tokens(i)),
            );
            &&& samples.with_requests(others, latency, expected, false) == samples.with_requests(
                results,
                latency,
                expected,
                false,
            )
            &&& credited_total(others, expected, false) == expected * results.len()
            &&& credited_total(results, expected, false) == expected * results.len()
            &&& first_token_times(others) == first_token_times(results)
            &&& all_token_times(others) == all_token_times(results)
            &&& after_first_total(others) == after_first_total(results)
        }),
    decreases results.len(),
{
    let others = Seq::new(results.len(), |i: int| with_reported(results[i], tokens(i)));
    if results.len() == 0 {
        assert(others =~= results);
        assert(expected * 0 == 0);
    } else {
        let rest = results.drop_last();
        lemma_target_counts(samples, rest, tokens, latency, expected);
        assert(others.drop_last() =~= Seq::new(
            rest.len(),
            |i: int| with_reported(rest[i], tokens(i)),
        ));
        assert(expected * results.len() == expected * rest.len() + expected) by (nonlinear_arith)
            requires
                results.len() == rest.len() + 1,
        ;
    }
}

/// Where the prompt follows a context that was loaded before, what the
/// endpoint reports does not matter: each request of a batch is credited with
/// the expected tokens.
pub proof fn law_cached_prompts_count_as_expected(
    samples: AggregatesView,
    results: Seq<RequestResult>,
    tokens: spec_fn(int) -> usize,
    latency: u128,
    shape: BenchmarkShape,
)
    requires
        !shape.is_context_phase,
        shape.context_tokens > 0,
        shape.expected_prompt_tokens == shape.prompt_tokens,
    ensures
        ({
            let expected = shape.expected_prompt_tokens;
            let others = Seq::new(
                results.len(),
                |i: int| with_reported(results[i], tokens(i)),
            );
            &&& credited_total(results, expected, shape.uses_reported()) == expected
                * results.len()
            &&& samples.with_batch(others, latency, expected, shape.uses_reported())
                == samples.with_batch(results, latency, expected, shape.uses_reported())
        }),
{
    let expected = shape.expected_prompt_tokens;
    let others = Seq::new(results.len(), |i: int| with_reported(results[i], tokens(i)));
    lemma_target_counts(samples, results, tokens, latency, expected);
    assert(start_times(others) =~= start_times(results));
    assert(last_token_times(others) =~= last_token_times(results));
}

/// The number of requests in the batches.
pub open spec fn request_count(batches: Seq<Vec<RequestResult>>) -> nat
    decreases batches.len(),
{
    if batches.len() == 0 {
        0
    } else {
        request_count(batches.drop_last()) + batches.last()@.len()
    }
}

impl AggregatesView {
    /// There are at most so many samples of single requests, and of batches.
    pub open spec fn bounded(self, requests: nat, batches: nat) -> bool {
        &&& self.pp_req.len() <= requests
        &&& self.tg_req.len() <= requests
        &&& self.peak_req.len() <= requests
        &&& self.ttfr.len() <= requests
        &&& self.est_ppt.len() <= requests
        &&& self.e2e_ttft.len() <= requests
        &&& self.pp_batch.len() <= batches
        &&& self.tg_batch.len() <= batches
        &&& self.peak_batch.len() <= batches
    }
}

proof fn lemma_requests_bounded(
    samples: AggregatesView,
    results: Seq<RequestResult>,
    latency: u128,
    expected: usize,
    uses_reported: bool,
    requests: nat,
    batches: nat,
)
    requires
        samples.bounded(requests, batches),
    ensures
        samples.with_requests(results, latency, expected, uses_reported).bounded(
            requests + results.len(),
            batches,
        ),
    decreases results.len(),
{
    if results.len() > 0 {
        lemma_requests_bounded(
            samples,
            results.drop_last(),
            latency,
            expected,
            uses_reported,
            requests,
            batches,
        );
    }
}

/// Every request gives at most one sample of each quantity, and every batch at
/// most one of each quantity that is measured of a batch.
pub proof fn law_samples_are_bounded(
    batches: Seq<Vec<RequestResult>>,
    latency: u128,
    expected: usize,
    uses_reported: bool,
)
    ensures
        AggregatesView::empty().with_batches(batches, latency, expected, uses_reported).bounded(
            request_count(batches),
            batches.len(),
        ),
    decreases batches.len(),
{
    if batches.len() > 0 {
        let rest = batches.drop_last();
        law_samples_are_bounded(rest, latency, expected, uses_reported);
        lemma_requests_bounded(
            AggregatesView::empty().with_batches(rest, latency, expected, uses_reported),
            batches.last()@,
            latency,
            expected,
            uses_reported,
            request_count(rest),
            rest.len(),
        );
    }
}

} // verus!
