//! The course of a benchmark: which requests are made in which order, what is
//! kept of them, and how it ends.

use vstd::arithmetic::div_mod::lemma_fundamental_div_mod_converse;
use vstd::prelude::*;

use crate::client::RequestResult;
use crate::client::CONTEXT_LOAD_USER_MESSAGE;
use crate::config::BenchmarkConfig;
use crate::corpus::cyclic;
use crate::corpus::Corpus;
use crate::error::Error;
use crate::error::ErrorView;
use crate::metrics::aggregate;
use crate::metrics::aggregated;
use crate::metrics::law_samples_are_bounded;
use crate::metrics::request_count;
use crate::metrics::BenchmarkMetric;
use crate::metrics::BenchmarkRun;
use crate::metrics::BenchmarkShape;
use crate::metrics::MetricView;
use crate::prompt::PromptGenerator;
use crate::text::decimal;
use crate::text::decimal_text;

verus! {

/// What came back of a batch of concurrent requests.
#[derive(Debug)]
pub struct BatchOutcome {
    pub results: Vec<RequestResult>,
    pub errors: Vec<Error>,
}

/// The results among the answers, in order.
pub open spec fn successes(answers: Seq<Result<RequestResult, Error>>) -> Seq<RequestResult>
    decreases answers.len(),
{
    if answers.len() == 0 {
        Seq::empty()
    } else {
        let rest = successes(answers.drop_last());
        match answers.last() {
            Ok(result) => rest.push(result),
            Err(_) => rest,
        }
    }
}

/// The errors among the answers, in order.
pub open spec fn failures(answers: Seq<Result<RequestResult, Error>>) -> Seq<Error>
    decreases answers.len(),
{
    if answers.len() == 0 {
        Seq::empty()
    } else {
        let rest = failures(answers.drop_last());
        match answers.last() {
            Ok(_) => rest,
            Err(error) => rest.push(error),
        }
    }
}

/// Sorts the answers to a batch of requests into results and errors.
pub fn execute_batch(answers: Vec<Result<RequestResult, Error>>) -> (r: BatchOutcome)
    ensures
        r.results@ == successes(answers@),
        r.errors@ == failures(answers@),
        r.results@.len() + r.errors@.len() == answers@.len(),
{
    let mut results: Vec<RequestResult> = Vec::new();
    let mut errors: Vec<Error> = Vec::new();
    let ghost all = answers@;
    for answer in iter: answers
        invariant
            iter.seq() == all,
            results@ == successes(all.take(iter.index())),
            errors@ == failures(all.take(iter.index())),
            results@.len() + errors@.len() == iter.index(),
    {
        proof {
            assert(all.take(iter.index() + 1).drop_last() == all.take(iter.index()));
        }
        match answer {
            Ok(result) => results.push(result),
            Err(error) => errors.push(error),
        }
    }
    assert(all.take(all.len() as int) == all);
    BatchOutcome { results, errors }
}

/// How many requests of a batch failed, or, where the benchmark ends with the
/// first failure, that failure.
pub open spec fn failure_outcome(errors: Seq<Error>, exit_on_first: bool) -> Result<
    nat,
    ErrorView,
> {
    if exit_on_first && errors.len() > 0 {
        Err(ErrorView::Benchmark(errors[0]@.message()))
    } else {
        Ok(errors.len())
    }
}

/// Counts the failed requests of a batch; fails with the first of them if
/// `exit_on_first`.
pub fn handle_failures(errors: &Vec<Error>, exit_on_first: bool) -> (r: Result<usize, Error>)
    ensures
        match r {
            Ok(count) => failure_outcome(errors@, exit_on_first) == Ok::<nat, ErrorView>(
                count as nat,
            ),
            Err(error) => failure_outcome(errors@, exit_on_first) == Err::<nat, ErrorView>(error@),
        },
{
    if exit_on_first && errors.len() > 0 {
        return Err(Error::Benchmark(errors[0].message()));
    }
    Ok(errors.len())
}

/// What the exit of a post-run command means.
pub fn check_command(command: &str, success: bool, status: &str) -> (r: Result<(), Error>)
    ensures
        r is Ok <==> success,
        !success ==> r->Err_0@ == (ErrorView::PostRun { command: command@, status: status@ }),
{
    if success {
        return Ok(());
    }
    Err(Error::PostRun { command: command.to_owned(), status: status.to_owned() })
}

/// The contents of contexts and prompts.
pub open spec fn prompt_contents(prompts: Seq<(String, String)>) -> Seq<(Seq<char>, Seq<char>)> {
    Seq::new(prompts.len(), |i: int| (prompts[i].0@, prompts[i].1@))
}

/// What is asked while the contexts are loaded: each context, and nothing
/// more.
pub open spec fn context_loads(prompts: Seq<(Seq<char>, Seq<char>)>) -> Seq<
    (Seq<char>, Seq<char>),
> {
    Seq::new(prompts.len(), |i: int| (prompts[i].0, CONTEXT_LOAD_USER_MESSAGE@))
}

/// What is asked while the contexts are loaded.
pub fn context_prompts(prompts: &Vec<(String, String)>) -> (r: Vec<(String, String)>)
    ensures
        prompt_contents(r@) == context_loads(prompt_contents(prompts@)),
{
    let mut list: Vec<(String, String)> = Vec::new();
    let mut i: usize = 0;
    while i < prompts.len()
        invariant
            i <= prompts.len(),
            list@.len() == i,
            forall|j: int|
                0 <= j < i ==> (#[trigger] list@[j]).0@ == prompts@[j].0@ && list@[j].1@
                    == CONTEXT_LOAD_USER_MESSAGE@,
        decreases prompts.len() - i,
    {
        list.push((prompts[i].0.clone(), CONTEXT_LOAD_USER_MESSAGE.to_owned()));
        i += 1;
    }
    list
}

/// The same contexts and prompts once more.
fn copy_prompts(prompts: &Vec<(String, String)>) -> (r: Vec<(String, String)>)
    ensures
        prompt_contents(r@) == prompt_contents(prompts@),
{
    let mut list: Vec<(String, String)> = Vec::new();
    let mut i: usize = 0;
    while i < prompts.len()
        invariant
            i <= prompts.len(),
            list@.len() == i,
            forall|j: int|
                0 <= j < i ==> (#[trigger] list@[j]).0@ == prompts@[j].0@ && list@[j].1@
                    == prompts@[j].1@,
        decreases prompts.len() - i,
    {
        list.push((prompts[i].0.clone(), prompts[i].1.clone()));
        i += 1;
    }
    list
}

/// The greatest of the values, or one if there is none.
pub open spec fn greatest(values: Seq<usize>) -> usize
    decreases values.len(),
{
    if values.len() == 0 {
        1
    } else if values.len() == 1 {
        values[0]
    } else {
        let rest = greatest(values.drop_last());
        if values.last() > rest {
            values.last()
        } else {
            rest
        }
    }
}

/// The most requests that are made at a time.
pub fn max_concurrency(levels: &Vec<usize>) -> (r: usize)
    ensures
        r == greatest(levels@),
{
    if levels.len() == 0 {
        return 1;
    }
    let mut most: usize = levels[0];
    let mut i: usize = 1;
    assert(levels@.take(1)[0] == levels@[0]);
    while i < levels.len()
        invariant
            1 <= i <= levels.len(),
            most == greatest(levels@.take(i as int)),
        decreases levels.len() - i,
    {
        if levels[i] > most {
            most = levels[i];
        }
        i += 1;
        assert(levels@.take(i as int).drop_last() == levels@.take(i - 1));
    }
    assert(levels@.take(i as int) == levels@);
    most
}

/// Refuses a report if requests failed and the user wants none then.
pub fn check_report(no_results_on_fail: bool, failed_requests: usize) -> (r: Result<(), Error>)
    ensures
        r is Ok <==> !(no_results_on_fail && failed_requests > 0),
        r is Err ==> r->Err_0@ == ErrorView::Benchmark(
            decimal(failed_requests as nat)
                + " request(s) failed; report suppressed by --no-results-on-fail"@,
        ),
{
    if no_results_on_fail && failed_requests > 0 {
        let mut text = decimal_text(failed_requests as u64);
        text.append(" request(s) failed; report suppressed by --no-results-on-fail");
        return Err(Error::Benchmark(text));
    }
    Ok(())
}

/// The end of a benchmark whose report was written: a failure if a request
/// failed.
pub fn check_failed(failed_requests: usize) -> (r: Result<(), Error>)
    ensures
        r is Ok <==> failed_requests == 0,
        r is Err ==> r->Err_0@ == ErrorView::Benchmark(
            decimal(failed_requests as nat) + " request(s) failed"@,
        ),
{
    if failed_requests > 0 {
        let mut text = decimal_text(failed_requests as u64);
        text.append(" request(s) failed");
        return Err(Error::Benchmark(text));
    }
    Ok(())
}

/// The batches that are discarded, of the latency measurement and of each test
/// shape.
pub open spec fn discarded(config: BenchmarkConfig) -> usize {
    if config.no_warmup {
        0
    } else {
        config.warmup_runs
    }
}

/// The batches that are discarded.
fn warmups(config: &BenchmarkConfig) -> (r: usize)
    ensures
        r == discarded(*config),
{
    if config.no_warmup {
        0
    } else {
        config.warmup_runs
    }
}

/// How many characters the short text of the calibration has.
pub const SHORT_SAMPLE: usize = 512;

/// How many characters the long text of the calibration has.
pub const LONG_SAMPLE: usize = 8192;

/// What comes before the tests, in this order.
#[derive(Debug, Clone, Copy, PartialEq, Eq, Structural)]
pub struct Preparation {
    /// Calibrate against the endpoint; else four characters make a token.
    pub calibrate: bool,
    /// Check that the model answers sensibly.
    pub check_coherence: bool,
    /// Discarded requests of the latency measurement.
    pub latency_warmups: usize,
}

/// What comes before the tests.
pub fn preparation(config: &BenchmarkConfig) -> (r: Preparation)
    ensures
        r.calibrate == !config.no_warmup,
        r.check_coherence == !config.skip_coherence,
        r.latency_warmups == discarded(*config),
{
    Preparation {
        calibrate: !config.no_warmup,
        check_coherence: !config.skip_coherence,
        latency_warmups: warmups(config),
    }
}

/// The short and the long text of the calibration.
pub fn calibration_samples(corpus: &Corpus) -> (r: (String, String))
    ensures
        r.0@ == cyclic(corpus@, 0, SHORT_SAMPLE as nat),
        r.1@ == cyclic(corpus@, 0, LONG_SAMPLE as nat),
{
    (corpus.calibration_sample(SHORT_SAMPLE), corpus.calibration_sample(LONG_SAMPLE))
}

/// The tests of a benchmark and how each is made.
#[derive(Debug)]
pub struct Plan {
    pub depths: Vec<usize>,
    pub pp_counts: Vec<usize>,
    pub tg_counts: Vec<usize>,
    pub concurrency_levels: Vec<usize>,
    /// Measured batches per test shape.
    pub num_runs: usize,
    /// Discarded batches per test shape.
    pub warmup_runs: usize,
    pub enable_prefix_caching: bool,
    pub exit_on_first_fail: bool,
    /// A command follows every batch.
    pub has_post_command: bool,
    /// The latency, in ticks, that does not count as prompt processing.
    pub latency: u128,
}

/// Where a benchmark stands: the test shape, by its places in the plan's
/// lists, and how many of its batches are done.
#[derive(Debug, Clone, Copy, PartialEq, Eq, Structural)]
pub struct Place {
    pub depth: usize,
    pub pp: usize,
    pub tg: usize,
    pub level: usize,
    pub warmups: usize,
    pub runs: usize,
}

/// What is to be done next.
#[derive(Debug, Clone, Copy, PartialEq, Eq, Structural)]
pub enum Stage {
    /// Generate the prompts of a batch.
    Prepare,
    /// Load the contexts of the prompts.
    ContextLoad,
    /// Ask the prompts.
    Inference,
    /// Run the user's command.
    PostRun,
    /// Aggregate the batches of the test shape.
    Conclude,
    /// Nothing: all tests are made.
    Finished,
}

impl Plan {
    /// The place is one of a test shape of the plan.
    pub open spec fn has(self, place: Place) -> bool {
        &&& place.depth < self.depths@.len()
        &&& place.pp < self.pp_counts@.len()
        &&& place.tg < self.tg_counts@.len()
        &&& place.level < self.concurrency_levels@.len()
    }

    pub open spec fn depth(self, place: Place) -> usize {
        self.depths@[place.depth as int]
    }

    pub open spec fn pp(self, place: Place) -> usize {
        self.pp_counts@[place.pp as int]
    }

    pub open spec fn tg(self, place: Place) -> usize {
        self.tg_counts@[place.tg as int]
    }

    pub open spec fn concurrency(self, place: Place) -> usize {
        self.concurrency_levels@[place.level as int]
    }

    /// The next batch is a discarded one.
    pub open spec fn warming(self, place: Place) -> bool {
        place.warmups < self.warmup_runs
    }

    /// The test shape has another batch.
    pub open spec fn has_batch(self, place: Place) -> bool {
        self.warming(place) || place.runs < self.num_runs
    }

    /// The contexts of the test shape are loaded in a phase of their own.
    pub open spec fn loads_context(self, place: Place) -> bool {
        self.enable_prefix_caching && self.depth(place) > 0
    }

    /// What a test shape goes on with between two batches.
    pub open spec fn between(self, place: Place) -> Stage {
        if self.has_batch(place) {
            Stage::Prepare
        } else {
            Stage::Conclude
        }
    }

    /// The place after a batch.
    pub open spec fn after_batch(self, place: Place) -> Place {
        if self.warming(place) {
            Place { warmups: (place.warmups + 1) as usize, ..place }
        } else {
            Place { runs: (place.runs + 1) as usize, ..place }
        }
    }

    /// The first place.
    pub open spec fn first(self) -> Option<Place> {
        let place = Place { depth: 0, pp: 0, tg: 0, level: 0, warmups: 0, runs: 0 };
        if self.has(place) {
            Some(place)
        } else {
            None
        }
    }

    /// The next test shape: the concurrency changes fastest, then the
    /// generated tokens, then the prompt tokens, then the depth.
    pub open spec fn next_shape(self, place: Place) -> Option<Place> {
        let fresh = Place { warmups: 0, runs: 0, ..place };
        if place.level + 1 < self.concurrency_levels@.len() {
            Some(Place { level: (place.level + 1) as usize, ..fresh })
        } else if place.tg + 1 < self.tg_counts@.len() {
            Some(Place { level: 0, tg: (place.tg + 1) as usize, ..fresh })
        } else if place.pp + 1 < self.pp_counts@.len() {
            Some(Place { level: 0, tg: 0, pp: (place.pp + 1) as usize, ..fresh })
        } else if place.depth + 1 < self.depths@.len() {
            Some(Place { level: 0, tg: 0, pp: 0, depth: (place.depth + 1) as usize, ..fresh })
        } else {
            None
        }
    }

    /// The test shape as it is measured. While a context is loaded only the
    /// context is expected in the prompt; after that only what follows it.
    pub open spec fn shape(self, place: Place, is_context_phase: bool) -> BenchmarkShape {
        BenchmarkShape {
            prompt_tokens: self.pp(place),
            generated_tokens: self.tg(place),
            context_tokens: self.depth(place),
            concurrency: self.concurrency(place),
            expected_prompt_tokens: if is_context_phase {
                self.depth(place)
            } else if self.loads_context(place) {
                self.pp(place)
            } else {
                (self.pp(place) + self.depth(place)) as usize
            },
            is_context_phase,
        }
    }

    /// What is reported on a test shape.
    pub open spec fn conclusions(
        self,
        place: Place,
        standard: Seq<Vec<RequestResult>>,
        context: Seq<Vec<RequestResult>>,
    ) -> Seq<BenchmarkRun<MetricView>> {
        let main = aggregated(self.shape(place, false), standard, self.latency);
        if self.loads_context(place) {
            seq![aggregated(self.shape(place, true), context, self.latency), main]
        } else {
            seq![main]
        }
    }
}

/// Which test a report is on.
pub struct Label {
    pub context_size: usize,
    pub prompt_size: usize,
    pub response_size: usize,
    pub concurrency: usize,
    pub is_context_prefill_phase: bool,
}

/// Which tests the reports are on.
pub open spec fn labels(runs: Seq<BenchmarkRun<MetricView>>) -> Seq<Label> {
    Seq::new(
        runs.len(),
        |i: int|
            Label {
                context_size: runs[i].context_size,
                prompt_size: runs[i].prompt_size,
                response_size: runs[i].response_size,
                concurrency: runs[i].concurrency,
                is_context_prefill_phase: runs[i].is_context_prefill_phase,
            },
    )
}

impl Plan {
    /// The number of test shapes.
    pub open spec fn size(self) -> nat {
        self.depths@.len() * self.pp_counts@.len() * self.tg_counts@.len()
            * self.concurrency_levels@.len()
    }

    /// How many test shapes come before that of the place.
    pub open spec fn rank(self, place: Place) -> nat {
        ((place.depth as nat * self.pp_counts@.len() + place.pp as nat) * self.tg_counts@.len()
            + place.tg as nat) * self.concurrency_levels@.len() + place.level as nat
    }

    /// The test shape that comes after `n` others.
    pub open spec fn shape_at(self, n: nat) -> Place {
        let levels = self.concurrency_levels@.len();
        let tgs = self.tg_counts@.len();
        let pps = self.pp_counts@.len();
        Place {
            depth: (n / levels / tgs / pps) as usize,
            pp: (n / levels / tgs % pps) as usize,
            tg: (n / levels % tgs) as usize,
            level: (n % levels) as usize,
            warmups: 0,
            runs: 0,
        }
    }

    /// Which tests are made of a test shape.
    pub open spec fn tests_of(self, place: Place) -> Seq<Label> {
        let main = Label {
            context_size: self.depth(place),
            prompt_size: self.pp(place),
            response_size: self.tg(place),
            concurrency: self.concurrency(place),
            is_context_prefill_phase: false,
        };
        if self.loads_context(place) {
            seq![Label { is_context_prefill_phase: true, ..main }, main]
        } else {
            seq![main]
        }
    }

    /// Which tests are made of the first `n` test shapes.
    pub open spec fn tests(self, n: nat) -> Seq<Label>
        decreases n,
    {
        if n == 0 {
            Seq::empty()
        } else {
            self.tests((n - 1) as nat) + self.tests_of(self.shape_at((n - 1) as nat))
        }
    }
}

/// The state of a benchmark.
#[verifier::ext_equal]
pub struct SuiteView {
    pub place: Place,
    pub stage: Stage,
    /// The contexts and prompts of the current batch.
    pub prompts: Seq<(Seq<char>, Seq<char>)>,
    pub standard_batches: Seq<Vec<RequestResult>>,
    pub context_batches: Seq<Vec<RequestResult>>,
    pub benchmarks: Seq<BenchmarkRun<MetricView>>,
    pub failed_requests: nat,
}

/// No batch has more than so many results.
pub open spec fn at_most(batches: Seq<Vec<RequestResult>>, most: usize) -> bool {
    forall|i: int| 0 <= i < batches.len() ==> (#[trigger] batches[i])@.len() <= most
}

/// The batches with another one, unless that is a discarded one.
pub open spec fn kept(
    batches: Seq<Vec<RequestResult>>,
    results: Vec<RequestResult>,
    warming: bool,
) -> Seq<Vec<RequestResult>> {
    if warming {
        batches
    } else {
        batches.push(results)
    }
}

impl SuiteView {
    /// The start of a benchmark.
    pub open spec fn start(plan: Plan) -> SuiteView {
        SuiteView {
            place: Place { depth: 0, pp: 0, tg: 0, level: 0, warmups: 0, runs: 0 },
            stage: match plan.first() {
                Some(place) => plan.between(place),
                None => Stage::Finished,
            },
            prompts: Seq::empty(),
            standard_batches: Seq::empty(),
            context_batches: Seq::empty(),
            benchmarks: Seq::empty(),
            failed_requests: 0,
        }
    }

    /// The prompts are generated.
    pub open spec fn prepared(
        self,
        plan: Plan,
        prompts: Seq<(Seq<char>, Seq<char>)>,
    ) -> SuiteView {
        SuiteView {
            prompts,
            stage: if plan.loads_context(self.place) {
                Stage::ContextLoad
            } else {
                Stage::Inference
            },
            ..self
        }
    }

    /// What is asked of the endpoint now, all of it at a time: the contexts
    /// while they are loaded, and then the prompts behind these very contexts.
    pub open spec fn questions(self) -> Seq<(Seq<char>, Seq<char>)> {
        if self.stage == Stage::ContextLoad {
            context_loads(self.prompts)
        } else {
            self.prompts
        }
    }

    /// The batch is over.
    pub open spec fn batch_over(self, plan: Plan) -> SuiteView {
        let place = plan.after_batch(self.place);
        SuiteView { place, stage: plan.between(place), ..self }
    }

    /// The requests of the context phase, or of the inference phase, were
    /// made, with these results and as many failures.
    pub open spec fn requested(
        self,
        plan: Plan,
        results: Vec<RequestResult>,
        failed: nat,
    ) -> SuiteView {
        let warming = plan.warming(self.place);
        if self.stage == Stage::ContextLoad {
            SuiteView {
                stage: Stage::Inference,
                context_batches: kept(self.context_batches, results, warming),
                failed_requests: self.failed_requests + failed,
                ..self
            }
        } else {
            let done = SuiteView {
                standard_batches: kept(self.standard_batches, results, warming),
                failed_requests: self.failed_requests + failed,
                ..self
            };
            if plan.has_post_command {
                SuiteView { stage: Stage::PostRun, ..done }
            } else {
                done.batch_over(plan)
            }
        }
    }

    /// The batches of the test shape are aggregated.
    pub open spec fn concluded(self, plan: Plan) -> SuiteView {
        SuiteView {
            place: match plan.next_shape(self.place) {
                Some(place) => place,
                None => self.place,
            },
            stage: match plan.next_shape(self.place) {
                Some(place) => plan.between(place),
                None => Stage::Finished,
            },
            standard_batches: Seq::empty(),
            context_batches: Seq::empty(),
            benchmarks: self.benchmarks + plan.conclusions(
                self.place,
                self.standard_batches,
                self.context_batches,
            ),
            ..self
        }
    }

    /// How many test shapes are reported on.
    pub open spec fn shapes_done(self, plan: Plan) -> nat {
        if self.stage == Stage::Finished {
            plan.size()
        } else {
            plan.rank(self.place)
        }
    }

    /// Discarded batches come first and are not kept; of the measured ones
    /// each phase is kept as soon as its requests were made. A phase asks as
    /// many questions as requests are to be made at a time, and no more results
    /// are kept of it. There is a report on every test of the test shapes that
    /// are done, in their order.
    pub open spec fn wf(self, plan: Plan) -> bool {
        let place = self.place;
        let measuring = !plan.warming(place);
        let begun = self.stage == Stage::Inference || self.stage == Stage::PostRun;
        &&& labels(self.benchmarks) == plan.tests(self.shapes_done(plan))
        &&& self.stage != Stage::Finished ==> {
            &&& plan.has(place)
            &&& place.warmups <= plan.warmup_runs
            &&& place.runs <= plan.num_runs
            &&& plan.warming(place) ==> place.runs == 0
            &&& self.stage != Stage::Conclude <==> plan.has_batch(place)
            &&& self.stage == Stage::ContextLoad ==> plan.loads_context(place)
            &&& self.stage == Stage::PostRun ==> plan.has_post_command
            &&& self.stage == Stage::ContextLoad || self.stage == Stage::Inference
                ==> self.prompts.len() == plan.concurrency(place)
            &&& at_most(self.standard_batches, plan.concurrency(place))
            &&& at_most(self.context_batches, plan.concurrency(place))
            &&& self.standard_batches.len() == place.runs + if measuring && self.stage
                == Stage::PostRun {
                1int
            } else {
                0
            }
            &&& self.context_batches.len() == if plan.loads_context(place) {
                place.runs + if measuring && begun {
                    1int
                } else {
                    0
                }
            } else {
                0
            }
        }
    }
}

/// The first test shape comes after no other; a plan without one is done.
proof fn lemma_first_shape(plan: Plan)
    ensures
        labels(Seq::<BenchmarkRun<MetricView>>::empty()) == plan.tests(0),
        plan.rank(Place { depth: 0, pp: 0, tg: 0, level: 0, warmups: 0, runs: 0 }) == 0,
        plan.first() is None ==> plan.size() == 0,
{
    let (d, p, t, c) = (
        plan.depths@.len(),
        plan.pp_counts@.len(),
        plan.tg_counts@.len(),
        plan.concurrency_levels@.len(),
    );
    assert(d == 0 || p == 0 || t == 0 || c == 0 ==> d * p * t * c == 0) by (nonlinear_arith);
    assert(((0 * p + 0) * t + 0) * c == 0) by (nonlinear_arith);
}

/// The places of a test shape in the lists can be found from its rank.
proof fn lemma_shape_at_rank(plan: Plan, place: Place)
    requires
        plan.has(place),
    ensures
        plan.shape_at(plan.rank(place)) == (Place { warmups: 0, runs: 0, ..place }),
{
    let levels = plan.concurrency_levels@.len();
    let tgs = plan.tg_counts@.len();
    let pps = plan.pp_counts@.len();
    let upper = place.depth as nat * pps + place.pp as nat;
    let middle = upper * tgs + place.tg as nat;
    lemma_fundamental_div_mod_converse(
        plan.rank(place) as int,
        levels as int,
        middle as int,
        place.level as int,
    );
    lemma_fundamental_div_mod_converse(
        middle as int,
        tgs as int,
        upper as int,
        place.tg as int,
    );
    lemma_fundamental_div_mod_converse(
        upper as int,
        pps as int,
        place.depth as int,
        place.pp as int,
    );
}

/// The next test shape comes right after this one; if there is none, this one
/// is the last.
proof fn lemma_next_rank(plan: Plan, place: Place)
    requires
        plan.has(place),
    ensures
        match plan.next_shape(place) {
            Some(next) => plan.has(next) && plan.rank(next) == plan.rank(place) + 1,
            None => plan.rank(place) + 1 == plan.size(),
        },
{
    let c = plan.concurrency_levels@.len();
    let t = plan.tg_counts@.len();
    let p = plan.pp_counts@.len();
    let d = plan.depths@.len();
    let upper = place.depth as nat * p + place.pp as nat;
    assert(c == plan.concurrency_levels.len() && t == plan.tg_counts.len() && p
        == plan.pp_counts.len() && d == plan.depths.len());
    if place.level + 1 < c {
    } else if place.tg + 1 < t {
        assert((upper * t + place.tg) * c + place.level + 1 == (upper * t + (place.tg + 1)) * c)
            by (nonlinear_arith)
            requires
                place.level + 1 == c,
        ;
    } else if place.pp + 1 < p {
        assert((upper * t + place.tg) * c + place.level + 1 == ((upper + 1) * t + 0) * c)
            by (nonlinear_arith)
            requires
                place.level + 1 == c,
                place.tg + 1 == t,
        ;
    } else if place.depth + 1 < d {
        assert(upper + 1 == (place.depth + 1) * p + 0) by (nonlinear_arith)
            requires
                upper == place.depth * p + place.pp,
                place.pp + 1 == p,
        ;
        assert((upper * t + place.tg) * c + place.level + 1 == ((upper + 1) * t + 0) * c)
            by (nonlinear_arith)
            requires
                place.level + 1 == c,
                place.tg + 1 == t,
        ;
    } else {
        assert(upper + 1 == d * p) by (nonlinear_arith)
            requires
                upper == place.depth * p + place.pp,
                place.pp + 1 == p,
                place.depth + 1 == d,
        ;
        assert((upper * t + place.tg) * c + place.level + 1 == (upper + 1) * t * c)
            by (nonlinear_arith)
            requires
                place.level + 1 == c,
                place.tg + 1 == t,
        ;
    }
}

/// A conclusion reports on the tests of the test shape.
proof fn lemma_conclusion(suite: SuiteView, plan: Plan)
    requires
        suite.wf(plan),
        suite.stage == Stage::Conclude,
    ensures
        suite.concluded(plan).wf(plan),
{
    let place = suite.place;
    lemma_next_rank(plan, place);
    lemma_shape_at_rank(plan, place);
    let more = plan.conclusions(place, suite.standard_batches, suite.context_batches);
    assert(labels(suite.benchmarks + more) == labels(suite.benchmarks) + labels(more));
    assert(labels(more) == plan.tests_of(plan.shape_at(plan.rank(place))));
}

/// A benchmark under way. Whoever runs it does what `stage` asks for: `prepare`,
/// then make the requests that it `asks` for and say what was `requested`, run
/// the command and say that it was `commanded`, and `conclude`.
#[derive(Debug)]
pub struct Suite {
    pub plan: Plan,
    pub place: Place,
    pub stage: Stage,
    /// The contexts and prompts of the current batch.
    pub prompts: Vec<(String, String)>,
    pub standard_batches: Vec<Vec<RequestResult>>,
    pub context_batches: Vec<Vec<RequestResult>>,
    pub benchmarks: Vec<BenchmarkRun<BenchmarkMetric>>,
    pub failed_requests: usize,
}

/// The content of the reports.
pub open spec fn run_contents(runs: Seq<BenchmarkRun<BenchmarkMetric>>) -> Seq<
    BenchmarkRun<MetricView>,
> {
    Seq::new(runs.len(), |i: int| runs[i].content())
}

impl View for Suite {
    type V = SuiteView;

    open spec fn view(&self) -> SuiteView {
        SuiteView {
            place: self.place,
            stage: self.stage,
            prompts: prompt_contents(self.prompts@),
            standard_batches: self.standard_batches@,
            context_batches: self.context_batches@,
            benchmarks: run_contents(self.benchmarks@),
            failed_requests: self.failed_requests as nat,
        }
    }
}

/// What one test asks of the endpoint.
#[derive(Debug, Clone, Copy, PartialEq, Eq, Structural)]
pub struct Test {
    pub pp: usize,
    pub tg: usize,
    pub depth: usize,
    pub concurrency: usize,
}

/// The plan for a configuration.
pub open spec fn planned(plan: Plan, config: BenchmarkConfig, latency: u128) -> bool {
    &&& plan.depths@ == config.depths@
    &&& plan.pp_counts@ == config.pp_counts@
    &&& plan.tg_counts@ == config.tg_counts@
    &&& plan.concurrency_levels@ == config.concurrency_levels@
    &&& plan.num_runs == config.num_runs
    &&& plan.warmup_runs == discarded(config)
    &&& plan.enable_prefix_caching == config.enable_prefix_caching
    &&& plan.exit_on_first_fail == config.exit_on_first_fail
    &&& plan.has_post_command == (config.post_run_cmd is Some)
    &&& plan.latency == latency
}

/// Starts a benchmark.
pub fn run(config: &BenchmarkConfig, latency: u128) -> (r: Suite)
    ensures
        planned(r.plan, *config, latency),
        r@ == SuiteView::start(r.plan),
        r@.wf(r.plan),
{
    let plan = Plan {
        depths: config.depths.clone(),
        pp_counts: config.pp_counts.clone(),
        tg_counts: config.tg_counts.clone(),
        concurrency_levels: config.concurrency_levels.clone(),
        num_runs: config.num_runs,
        warmup_runs: warmups(config),
        enable_prefix_caching: config.enable_prefix_caching,
        exit_on_first_fail: config.exit_on_first_fail,
        has_post_command: config.post_run_cmd.is_some(),
        latency,
    };
    let empty = plan.depths.len() == 0 || plan.pp_counts.len() == 0 || plan.tg_counts.len() == 0
        || plan.concurrency_levels.len() == 0;
    let place = Place { depth: 0, pp: 0, tg: 0, level: 0, warmups: 0, runs: 0 };
    let stage = if empty {
        Stage::Finished
    } else {
        plan.stage_between(place)
    };
    assert(plan.depths@ == config.depths@);
    assert(plan.pp_counts@ == config.pp_counts@);
    assert(plan.tg_counts@ == config.tg_counts@);
    assert(plan.concurrency_levels@ == config.concurrency_levels@);
    proof {
        lemma_first_shape(plan);
        assert(run_contents(Seq::empty()) == Seq::<BenchmarkRun<MetricView>>::empty());
        assert(prompt_contents(Seq::empty()) == Seq::<(Seq<char>, Seq<char>)>::empty());
    }
    Suite {
        plan,
        place,
        stage,
        prompts: Vec::new(),
        standard_batches: Vec::new(),
        context_batches: Vec::new(),
        benchmarks: Vec::new(),
        failed_requests: 0,
    }
}

impl Plan {
    /// What a test shape goes on with between two batches.
    fn stage_between(&self, place: Place) -> (r: Stage)
        ensures
            r == self.between(place),
    {
        if place.warmups < self.warmup_runs || place.runs < self.num_runs {
            Stage::Prepare
        } else {
            Stage::Conclude
        }
    }

    /// The next test shape.
    fn following(&self, place: Place) -> (r: Option<Place>)
        requires
            self.has(place),
        ensures
            r == self.next_shape(place),
    {
        let mut next = Place { warmups: 0, runs: 0, ..place };
        if place.level < self.concurrency_levels.len() - 1 {
            next.level = place.level + 1;
            return Some(next);
        }
        next.level = 0;
        if place.tg < self.tg_counts.len() - 1 {
            next.tg = place.tg + 1;
            return Some(next);
        }
        next.tg = 0;
        if place.pp < self.pp_counts.len() - 1 {
            next.pp = place.pp + 1;
            return Some(next);
        }
        next.pp = 0;
        if place.depth < self.depths.len() - 1 {
            next.depth = place.depth + 1;
            return Some(next);
        }
        None
    }
}

impl Suite {
    /// The current test.
    pub fn test(&self) -> (r: Test)
        requires
            self@.wf(self.plan),
            self.stage != Stage::Finished,
        ensures
            r.pp == self.plan.pp(self.place),
            r.tg == self.plan.tg(self.place),
            r.depth == self.plan.depth(self.place),
            r.concurrency == self.plan.concurrency(self.place),
    {
        Test {
            pp: self.plan.pp_counts[self.place.pp],
            tg: self.plan.tg_counts[self.place.tg],
            depth: self.plan.depths[self.place.depth],
            concurrency: self.plan.concurrency_levels[self.place.level],
        }
    }

    /// What the current test is called while the benchmark runs.
    pub fn test_line(&self) -> (r: String)
        requires
            self@.wf(self.plan),
            self.stage != Stage::Finished,
        ensures
            r@ == "Test pp="@ + decimal(self.plan.pp(self.place) as nat) + ", tg="@ + decimal(
                self.plan.tg(self.place) as nat,
            ) + ", depth="@ + decimal(self.plan.depth(self.place) as nat) + ", concurrency="@
                + decimal(self.plan.concurrency(self.place) as nat),
    {
        let test = self.test();
        let mut text = "Test pp=".to_owned();
        text.append(decimal_text(test.pp as u64).as_str());
        text.append(", tg=");
        text.append(decimal_text(test.tg as u64).as_str());
        text.append(", depth=");
        text.append(decimal_text(test.depth as u64).as_str());
        text.append(", concurrency=");
        text.append(decimal_text(test.concurrency as u64).as_str());
        text
    }

    /// What the current batch is called while the benchmark runs.
    pub fn run_label(&self) -> (r: String)
        requires
            self@.wf(self.plan),
            self.plan.has_batch(self.place),
        ensures
            r@ == if self.plan.warming(self.place) {
                "warmup "@ + decimal((self.place.warmups + 1) as nat) + "/"@ + decimal(
                    self.plan.warmup_runs as nat,
                )
            } else {
                "run "@ + decimal((self.place.runs + 1) as nat) + "/"@ + decimal(
                    self.plan.num_runs as nat,
                )
            },
    {
        if self.place.warmups < self.plan.warmup_runs {
            let mut text = "warmup ".to_owned();
            text.append(decimal_text((self.place.warmups + 1) as u64).as_str());
            text.append("/");
            text.append(decimal_text(self.plan.warmup_runs as u64).as_str());
            text
        } else {
            let mut text = "run ".to_owned();
            text.append(decimal_text((self.place.runs + 1) as u64).as_str());
            text.append("/");
            text.append(decimal_text(self.plan.num_runs as u64).as_str());
            text
        }
    }

    /// Whether the contexts are loaded in a phase of their own.
    fn context_first(&self) -> (r: bool)
        requires
            self@.wf(self.plan),
            self.stage != Stage::Finished,
        ensures
            r == self.plan.loads_context(self.place),
    {
        self.plan.enable_prefix_caching && self.plan.depths[self.place.depth] > 0
    }

    /// Takes over the prompts of the next batch.
    pub fn prepared(&mut self, prompts: Vec<(String, String)>)
        requires
            old(self)@.wf(old(self).plan),
            old(self).stage == Stage::Prepare,
            prompts@.len() == old(self).plan.concurrency(old(self).place),
        ensures
            final(self).plan == old(self).plan,
            final(self)@ == old(self)@.prepared(old(self).plan, prompt_contents(prompts@)),
            final(self)@.wf(final(self).plan),
    {
        if self.context_first() {
            self.stage = Stage::ContextLoad;
        } else {
            self.stage = Stage::Inference;
        }
        self.prompts = prompts;
    }

    /// Generates the prompts of the next batch: one for each request that is
    /// made at a time, of the sizes of the current test.
    pub fn prepare(&mut self, generator: &PromptGenerator, no_cache: bool)
        requires
            old(self)@.wf(old(self).plan),
            old(self).stage == Stage::Prepare,
            generator.wf(),
        ensures
            final(self).plan == old(self).plan,
            final(self)@ == old(self)@.prepared(old(self).plan, final(self)@.prompts),
            final(self)@.wf(final(self).plan),
            forall|i: int|
                0 <= i < final(self)@.prompts.len() ==> generator.can_generate(
                    (#[trigger] final(self)@.prompts[i]).0,
                    final(self)@.prompts[i].1,
                    old(self).plan.pp(old(self).place),
                    old(self).plan.depth(old(self).place),
                    no_cache,
                ),
    {
        let test = self.test();
        let prompts = generator.generate_batch(test.concurrency, test.pp, test.depth, no_cache);
        self.prepared(prompts);
    }

    /// What is to be asked of the endpoint, all of it at a time: contexts and
    /// prompts.
    pub fn asks(&self) -> (r: Vec<(String, String)>)
        requires
            self@.wf(self.plan),
            self.stage == Stage::ContextLoad || self.stage == Stage::Inference,
        ensures
            prompt_contents(r@) == self@.questions(),
            r@.len() == self.plan.concurrency(self.place),
    {
        let questions = if self.stage == Stage::ContextLoad {
            context_prompts(&self.prompts)
        } else {
            copy_prompts(&self.prompts)
        };
        assert(prompt_contents(questions@).len() == questions@.len());
        questions
    }

    /// Goes on to the next batch.
    fn end_batch(&mut self)
        requires
            old(self).place.warmups < old(self).plan.warmup_runs || old(self).place.runs < old(
                self,
            ).plan.num_runs,
        ensures
            final(self).plan == old(self).plan,
            final(self)@ == old(self)@.batch_over(old(self).plan),
    {
        if self.place.warmups < self.plan.warmup_runs {
            self.place.warmups = self.place.warmups + 1;
        } else {
            self.place.runs = self.place.runs + 1;
        }
        self.stage = self.plan.stage_between(self.place);
    }

    /// The requests of a phase were made. Fails with the first failed one if
    /// the benchmark is to end there.
    pub fn requested(&mut self, outcome: BatchOutcome) -> (r: Result<(), Error>)
        requires
            old(self)@.wf(old(self).plan),
            old(self).stage == Stage::ContextLoad || old(self).stage == Stage::Inference,
            outcome.results@.len() + outcome.errors@.len() == old(self).plan.concurrency(
                old(self).place,
            ),
            old(self).failed_requests + outcome.errors@.len() <= usize::MAX,
        ensures
            final(self).plan == old(self).plan,
            final(self)@.wf(final(self).plan),
            match failure_outcome(outcome.errors@, old(self).plan.exit_on_first_fail) {
                Err(error) => {
                    &&& r is Err
                    &&& r->Err_0@ == error
                    &&& final(self)@ == old(self)@
                },
                Ok(failed) => {
                    &&& r is Ok
                    &&& final(self)@ == old(self)@.requested(
                        old(self).plan,
                        outcome.results,
                        failed,
                    )
                },
            },
    {
        let failed: usize = match handle_failures(&outcome.errors, self.plan.exit_on_first_fail) {
            Ok(failed) => failed,
            Err(error) => {
                return Err(error);
            },
        };
        self.failed_requests = self.failed_requests + failed;
        let warming = self.place.warmups < self.plan.warmup_runs;
        if self.stage == Stage::ContextLoad {
            if !warming {
                self.context_batches.push(outcome.results);
            }
            self.stage = Stage::Inference;
        } else {
            if !warming {
                self.standard_batches.push(outcome.results);
            }
            if self.plan.has_post_command {
                self.stage = Stage::PostRun;
            } else {
                self.end_batch();
            }
        }
        Ok(())
    }

    /// The user's command was run.
    pub fn commanded(&mut self)
        requires
            old(self)@.wf(old(self).plan),
            old(self).stage == Stage::PostRun,
        ensures
            final(self).plan == old(self).plan,
            final(self)@ == old(self)@.batch_over(old(self).plan),
            final(self)@.wf(final(self).plan),
    {
        self.end_batch();
    }

    /// The prompt tokens that are expected where prompt and context are sent
    /// together can be counted.
    pub open spec fn countable(self) -> bool {
        self.plan.loads_context(self.place) || self.plan.pp(self.place) + self.plan.depth(
            self.place,
        ) <= usize::MAX
    }

    /// Whether the prompt tokens can be counted.
    pub fn is_countable(&self) -> (r: bool)
        requires
            self@.wf(self.plan),
            self.stage != Stage::Finished,
        ensures
            r == self.countable(),
    {
        let test = self.test();
        self.context_first() || test.pp.checked_add(test.depth).is_some()
    }

    /// Aggregates the batches of the test shape and goes on to the next one.
    pub fn conclude(&mut self)
        requires
            old(self)@.wf(old(self).plan),
            old(self).stage == Stage::Conclude,
            old(self).countable(),
        ensures
            final(self).plan == old(self).plan,
            final(self)@ == old(self)@.concluded(old(self).plan),
            final(self)@.wf(final(self).plan),
    {
        let test = self.test();
        let context_first = self.context_first();
        let latency: u128 = self.plan.latency;
        let ghost before = run_contents(self.benchmarks@);
        proof {
            lemma_conclusion(self@, self.plan);
        }
        if context_first {
            let shape = BenchmarkShape {
                prompt_tokens: test.pp,
                generated_tokens: test.tg,
                context_tokens: test.depth,
                concurrency: test.concurrency,
                expected_prompt_tokens: test.depth,
                is_context_phase: true,
            };
            self.benchmarks.push(aggregate(shape, &self.context_batches, latency));
        }
        let expected: usize = if context_first {
            test.pp
        } else {
            test.pp + test.depth
        };
        let shape = BenchmarkShape {
            prompt_tokens: test.pp,
            generated_tokens: test.tg,
            context_tokens: test.depth,
            concurrency: test.concurrency,
            expected_prompt_tokens: expected,
            is_context_phase: false,
        };
        self.benchmarks.push(aggregate(shape, &self.standard_batches, latency));
        assert(run_contents(self.benchmarks@) == before + self.plan.conclusions(
            self.place,
            self.standard_batches@,
            self.context_batches@,
        ));
        self.standard_batches = Vec::new();
        self.context_batches = Vec::new();
        match self.plan.following(self.place) {
            Some(place) => {
                self.place = place;
                self.stage = self.plan.stage_between(place);
            },
            None => {
                self.stage = Stage::Finished;
            },
        }
    }
}

/// What a benchmark found.
#[derive(Debug)]
pub struct Findings {
    pub prefix_caching_enabled: bool,
    pub max_concurrency: usize,
    pub failed_requests: usize,
    pub benchmarks: Vec<BenchmarkRun<BenchmarkMetric>>,
}

/// How a benchmark ends.
#[derive(Debug)]
pub struct Ending {
    /// What is reported, unless there is to be no report.
    pub report: Option<Findings>,
    /// The outcome, once the report is written.
    pub outcome: Result<(), Error>,
}

/// What the user is told of failed requests in the end.
pub open spec fn final_complaint(no_results_on_fail: bool, failed: nat) -> ErrorView {
    if no_results_on_fail {
        ErrorView::Benchmark(
            decimal(failed) + " request(s) failed; report suppressed by --no-results-on-fail"@,
        )
    } else {
        ErrorView::Benchmark(decimal(failed) + " request(s) failed"@)
    }
}

impl Suite {
    /// Ends a benchmark whose tests are all made. Failed requests make it
    /// fail; there is a report all the same unless the user wants none then.
    pub fn finish(self, no_results_on_fail: bool) -> (r: Ending)
        requires
            self@.wf(self.plan),
            self.stage == Stage::Finished,
        ensures
            r.report is Some <==> !(no_results_on_fail && self.failed_requests > 0),
            r.report is Some ==> {
                let report = r.report->0;
                &&& report.prefix_caching_enabled == self.plan.enable_prefix_caching
                &&& report.max_concurrency == greatest(self.plan.concurrency_levels@)
                &&& report.failed_requests == self.failed_requests
                &&& run_contents(report.benchmarks@) == self@.benchmarks
                &&& labels(run_contents(report.benchmarks@)) == self.plan.tests(self.plan.size())
            },
            r.outcome is Err <==> self.failed_requests > 0,
            r.outcome is Err ==> r.outcome->Err_0@ == final_complaint(
                no_results_on_fail,
                self.failed_requests as nat,
            ),
    {
        if let Err(error) = check_report(no_results_on_fail, self.failed_requests) {
            return Ending { report: None, outcome: Err(error) };
        }
        let findings = Findings {
            prefix_caching_enabled: self.plan.enable_prefix_caching,
            max_concurrency: max_concurrency(&self.plan.concurrency_levels),
            failed_requests: self.failed_requests,
            benchmarks: self.benchmarks,
        };
        Ending { report: Some(findings), outcome: check_failed(self.failed_requests) }
    }
}

/// What the endpoint reports is used in every phase but that in which a prompt
/// follows a context that was loaded before.
pub proof fn law_reports_are_used_unless_cached(plan: Plan, place: Place)
    requires
        plan.has(place),
        plan.loads_context(place) || plan.pp(place) + plan.depth(place) <= usize::MAX,
    ensures
        plan.shape(place, false).uses_reported() <==> !plan.loads_context(place),
        plan.shape(place, true).uses_reported(),
{
}

/// A finished benchmark has a report on every test shape of the plan, in the
/// order of the lists.
pub proof fn law_report_is_complete(suite: SuiteView, plan: Plan)
    requires
        suite.wf(plan),
        suite.stage == Stage::Finished,
    ensures
        labels(suite.benchmarks) == plan.tests(plan.size()),
{
}

/// Every combination of the lists is one of the test shapes, and the only one
/// at its rank.
pub proof fn law_every_combination_is_a_shape(plan: Plan, place: Place)
    requires
        plan.has(place),
    ensures
        plan.rank(place) < plan.size(),
        plan.shape_at(plan.rank(place)) == (Place { warmups: 0, runs: 0, ..place }),
{
    lemma_shape_at_rank(plan, place);
    let c = plan.concurrency_levels@.len();
    let t = plan.tg_counts@.len();
    let p = plan.pp_counts@.len();
    let d = plan.depths@.len();
    let upper = place.depth as nat * p + place.pp as nat;
    let middle = upper * t + place.tg as nat;
    assert(upper + 1 <= d * p) by (nonlinear_arith)
        requires
            upper == place.depth as nat * p + place.pp as nat,
            place.pp < p,
            place.depth < d,
    ;
    assert(middle + 1 <= d * p * t) by (nonlinear_arith)
        requires
            middle == upper * t + place.tg as nat,
            place.tg < t,
            upper + 1 <= d * p,
    ;
    assert(middle * c + place.level + 1 <= d * p * t * c) by (nonlinear_arith)
        requires
            place.level < c,
            middle + 1 <= d * p * t,
    ;
}

/// The report on a test shape rests on as many batches as the user asked for,
/// of each phase, and the discarded batches were made.
pub proof fn law_measured_batches(suite: SuiteView, plan: Plan)
    requires
        suite.wf(plan),
        suite.stage == Stage::Conclude,
    ensures
        suite.standard_batches.len() == plan.num_runs,
        suite.context_batches.len() == if plan.loads_context(suite.place) {
            plan.num_runs as nat
        } else {
            0
        },
        suite.place.warmups == plan.warmup_runs,
{
}

/// Without warmups no batch is discarded.
pub proof fn law_no_warmup(plan: Plan, config: BenchmarkConfig, latency: u128, place: Place)
    requires
        planned(plan, config, latency),
        config.no_warmup,
    ensures
        !plan.warming(place),
{
}

impl SuiteView {
    /// An upper bound of the steps that a benchmark still takes: at most four
    /// for every batch, and one for every test shape.
    pub open spec fn steps_left(self, plan: Plan) -> int {
        let batches = plan.warmup_runs + plan.num_runs;
        let shapes = plan.size() - plan.rank(self.place) - 1;
        let left = batches - self.place.warmups - self.place.runs;
        let taken: int = match self.stage {
            Stage::ContextLoad => 1,
            Stage::Inference => 2,
            Stage::PostRun => 3,
            _ => 0,
        };
        if self.stage == Stage::Finished {
            0
        } else {
            shapes * (4 * batches + 1) + 4 * left + 1 - taken
        }
    }
}

/// Every step brings a benchmark nearer to its end, whatever the endpoint
/// answers.
pub proof fn law_benchmark_ends(
    suite: SuiteView,
    plan: Plan,
    prompts: Seq<(Seq<char>, Seq<char>)>,
    results: Vec<RequestResult>,
    failed: nat,
)
    requires
        suite.wf(plan),
        suite.stage != Stage::Finished,
    ensures
        suite.steps_left(plan) > 0,
        match suite.stage {
            Stage::Prepare => suite.prepared(plan, prompts),
            Stage::PostRun => suite.batch_over(plan),
            Stage::Conclude => suite.concluded(plan),
            _ => suite.requested(plan, results, failed),
        }.steps_left(plan) < suite.steps_left(plan),
{
    let batches = plan.warmup_runs + plan.num_runs;
    let shapes = plan.size() - plan.rank(suite.place) - 1;
    let each = 4 * batches + 1;
    law_every_combination_is_a_shape(plan, suite.place);
    lemma_next_rank(plan, suite.place);
    assert(shapes * each >= 0) by (nonlinear_arith)
        requires
            shapes >= 0,
            each >= 0,
    ;
    if suite.stage == Stage::Conclude {
        assert((shapes - 1) * each + each == shapes * each) by (nonlinear_arith);
    }
}

/// While a context is loaded and while the prompts are asked behind it the
/// contexts are the same, one for one; the load asks nothing more.
pub proof fn law_prompts_follow_the_loaded_contexts(
    suite: SuiteView,
    plan: Plan,
    results: Vec<RequestResult>,
    failed: nat,
)
    requires
        suite.wf(plan),
        suite.stage == Stage::ContextLoad,
    ensures
        ({
            let loaded = suite.questions();
            let next = suite.requested(plan, results, failed);
            &&& next.stage == Stage::Inference
            &&& next.questions() == suite.prompts
            &&& loaded.len() == next.questions().len() == plan.concurrency(suite.place)
            &&& forall|i: int|
                0 <= i < loaded.len() ==> (#[trigger] loaded[i]).0 == next.questions()[i].0
                    && loaded[i].1 == CONTEXT_LOAD_USER_MESSAGE@
        }),
{
}

impl Plan {
    /// How many times the endpoint is asked for a batch of the test shape.
    pub open spec fn phases(self, place: Place) -> nat {
        if self.loads_context(place) {
            2
        } else {
            1
        }
    }
}

impl SuiteView {
    /// The batches of the test shape that are over, discarded ones included.
    pub open spec fn batches_over(self) -> nat {
        self.place.warmups as nat + self.place.runs as nat
    }

    /// The requests that were made for the test shape.
    pub open spec fn requests_made(self, plan: Plan) -> nat {
        let phases = plan.phases(self.place);
        let begun: nat = match self.stage {
            Stage::Inference => (phases - 1) as nat,
            Stage::PostRun => phases,
            _ => 0,
        };
        (phases * self.batches_over() + begun) * plan.concurrency(self.place) as nat
    }

    /// The commands that were run for the test shape.
    pub open spec fn commands_run(self, plan: Plan) -> nat {
        if plan.has_post_command {
            self.batches_over()
        } else {
            0
        }
    }
}

/// A test shape begins with no requests made and no command run.
pub proof fn law_shapes_begin_afresh(suite: SuiteView, plan: Plan)
    requires
        suite.wf(plan),
        suite.stage == Stage::Conclude,
    ensures
        SuiteView::start(plan).requests_made(plan) == 0,
        SuiteView::start(plan).commands_run(plan) == 0,
        plan.next_shape(suite.place) is Some ==> {
            &&& suite.concluded(plan).requests_made(plan) == 0
            &&& suite.concluded(plan).commands_run(plan) == 0
        },
{
    let start = SuiteView::start(plan).place;
    let next = suite.concluded(plan).place;
    assert((plan.phases(start) * 0 + 0) * plan.concurrency(start) == 0) by (nonlinear_arith);
    assert((plan.phases(next) * 0 + 0) * plan.concurrency(next) == 0) by (nonlinear_arith);
}

/// Every phase of requests makes as many of them as are asked at a time;
/// nothing else makes any. Every command that is run counts as one.
pub proof fn law_steps_are_counted(
    suite: SuiteView,
    plan: Plan,
    prompts: Seq<(Seq<char>, Seq<char>)>,
    results: Vec<RequestResult>,
    failed: nat,
)
    requires
        suite.wf(plan),
        suite.stage != Stage::Finished,
        suite.stage != Stage::Conclude,
    ensures
        suite.stage == Stage::Prepare ==> {
            let next = suite.prepared(plan, prompts);
            &&& next.requests_made(plan) == suite.requests_made(plan)
            &&& next.commands_run(plan) == suite.commands_run(plan)
        },
        suite.stage == Stage::ContextLoad || suite.stage == Stage::Inference ==> {
            let next = suite.requested(plan, results, failed);
            &&& next.requests_made(plan) == suite.requests_made(plan) + suite.questions().len()
            &&& next.commands_run(plan) == suite.commands_run(plan)
        },
        suite.stage == Stage::PostRun ==> {
            let next = suite.batch_over(plan);
            &&& next.requests_made(plan) == suite.requests_made(plan)
            &&& next.commands_run(plan) == suite.commands_run(plan) + 1
        },
{
    let phases = plan.phases(suite.place);
    let over = suite.batches_over();
    let each = plan.concurrency(suite.place) as nat;
    assert(phases * (over + 1) == phases * over + phases) by (nonlinear_arith);
    assert((phases * over + phases) * each == (phases * over + (phases - 1)) * each + each)
        by (nonlinear_arith);
    assert((phases * over + 1) * each == (phases * over + 0) * each + each) by (nonlinear_arith);
}

/// Of a test shape there are as many batches as the user asked for, discarded
/// and measured ones together: each makes as many requests as are to be made
/// at a time, and as many again to load the contexts where these are loaded in
/// a phase of their own. After each of them the command is run, if there is
/// one.
pub proof fn law_requests_of_a_shape(suite: SuiteView, plan: Plan)
    requires
        suite.wf(plan),
        suite.stage == Stage::Conclude,
    ensures
        suite.requests_made(plan) == plan.phases(suite.place) * (plan.warmup_runs + plan.num_runs)
            * plan.concurrency(suite.place),
        suite.commands_run(plan) == if plan.has_post_command {
            plan.warmup_runs + plan.num_runs
        } else {
            0
        },
{
}

proof fn lemma_request_count(batches: Seq<Vec<RequestResult>>, most: usize)
    requires
        at_most(batches, most),
    ensures
        request_count(batches) <= batches.len() * most,
    decreases batches.len(),
{
    if batches.len() == 0 {
        assert(0 * most == 0);
    } else {
        let rest = batches.drop_last();
        assert forall|i: int| 0 <= i < rest.len() implies (#[trigger] rest[i])@.len() <= most by {
            assert(rest[i] == batches[i]);
        }
        lemma_request_count(rest, most);
        assert(batches[batches.len() - 1]@.len() <= most);
        assert(batches.len() * most == rest.len() * most + most) by (nonlinear_arith)
            requires
                batches.len() == rest.len() + 1,
        ;
    }
}

/// The number of values that a metric has.
pub open spec fn value_count(metric: Option<MetricView>) -> nat {
    match metric {
        Some(metric) => metric.values.len(),
        None => 0,
    }
}

/// Discarded batches add nothing to a report: its metrics have at most one
/// value for each request of the measured batches, and those of batches at
/// most one for each of these.
pub proof fn law_discarded_batches_add_nothing(suite: SuiteView, plan: Plan)
    requires
        suite.wf(plan),
        suite.stage == Stage::Conclude,
    ensures
        ({
            let reports = plan.conclusions(
                suite.place,
                suite.standard_batches,
                suite.context_batches,
            );
            let requests = plan.num_runs * plan.concurrency(suite.place);
            forall|i: int|
                0 <= i < reports.len() ==> {
                    &&& value_count((#[trigger] reports[i]).ttfr) <= requests
                    &&& value_count(reports[i].est_ppt) <= requests
                    &&& value_count(reports[i].e2e_ttft) <= requests
                    &&& value_count(reports[i].pp_req_throughput) <= requests
                    &&& value_count(reports[i].tg_req_throughput) <= requests
                    &&& value_count(reports[i].peak_req_throughput) <= requests
                    &&& value_count(reports[i].peak_throughput) <= plan.num_runs
                }
        }),
{
    let most = plan.concurrency(suite.place);
    let main = plan.shape(suite.place, false);
    law_samples_are_bounded(
        suite.standard_batches,
        plan.latency,
        main.expected_prompt_tokens,
        main.uses_reported(),
    );
    lemma_request_count(suite.standard_batches, most);
    let load = plan.shape(suite.place, true);
    law_samples_are_bounded(
        suite.context_batches,
        plan.latency,
        load.expected_prompt_tokens,
        load.uses_reported(),
    );
    lemma_request_count(suite.context_batches, most);
}

} // verus!
