//! What the course of a benchmark makes of what the endpoint answers.

use vstd::prelude::*;

use crate::client::RequestResult;
use crate::client::CONTEXT_LOAD_USER_MESSAGE;
use crate::config::BenchmarkConfig;
use crate::error::Error;
use crate::error::ErrorView;
use crate::laws::metrics::latency_taken_out;
use crate::laws::metrics::law_latency_is_taken_out;
use crate::metrics::aggregated;
use crate::metrics::BenchmarkShape;
use crate::runner::failure_outcome;
use crate::runner::failures;
use crate::runner::final_complaint;
use crate::runner::greatest;
use crate::runner::planned;
use crate::runner::successes;
use crate::runner::Place;
use crate::runner::Plan;
use crate::runner::Stage;
use crate::runner::SuiteView;
use crate::text::decimal;

verus! {

/// The contexts of the place's test shape are loaded before they are used.
pub open spec fn caches(plan: Plan, place: Place) -> bool {
    plan.enable_prefix_caching && plan.depths@[place.depth as int] > 0
}

/// The next batch of the place is a measured one.
pub open spec fn measures(plan: Plan, place: Place) -> bool {
    place.warmups >= plan.warmup_runs
}

/// The test shape of a place, with so many prompt tokens expected.
pub open spec fn shape_of(
    plan: Plan,
    place: Place,
    expected: usize,
    is_context_phase: bool,
) -> BenchmarkShape {
    BenchmarkShape {
        prompt_tokens: plan.pp_counts@[place.pp as int],
        generated_tokens: plan.tg_counts@[place.tg as int],
        context_tokens: plan.depths@[place.depth as int],
        concurrency: plan.concurrency_levels@[place.level as int],
        expected_prompt_tokens: expected,
        is_context_phase,
    }
}

/// A conclusion adds the report on the measured batches of the test shape, with
/// the latency of the plan. Where contexts were loaded before they were used,
/// the report on the loads comes first: of these the context is expected, of
/// the answers behind them the prompt alone. Otherwise both are expected
/// together. Earlier reports stay.
pub proof fn law_conclusion_reports_the_kept_batches(suite: SuiteView, plan: Plan)
    requires
        suite.wf(plan),
        suite.stage == Stage::Conclude,
        caches(plan, suite.place) || plan.pp_counts@[suite.place.pp as int]
            + plan.depths@[suite.place.depth as int] <= usize::MAX,
    ensures
        ({
            let place = suite.place;
            let depth = plan.depths@[place.depth as int];
            let pp = plan.pp_counts@[place.pp as int];
            let after = suite.concluded(plan).benchmarks;
            if caches(plan, place) {
                after == suite.benchmarks + seq![
                    aggregated(
                        shape_of(plan, place, depth, true),
                        suite.context_batches,
                        plan.latency,
                    ),
                    aggregated(
                        shape_of(plan, place, pp, false),
                        suite.standard_batches,
                        plan.latency,
                    ),
                ]
            } else {
                after == suite.benchmarks + seq![
                    aggregated(
                        shape_of(plan, place, (pp + depth) as usize, false),
                        suite.standard_batches,
                        plan.latency,
                    ),
                ]
            }
        }),
        suite.concluded(plan).failed_requests == suite.failed_requests,
        suite.concluded(plan).standard_batches.len() == 0,
        suite.concluded(plan).context_batches.len() == 0,
{
}

/// Of every test that a suite concludes, each prompt processing time is the
/// time to the first response of the same request less the latency of the plan,
/// and each prompt rate of a request is per that time.
pub proof fn law_conclusions_leave_out_the_latency(suite: SuiteView, plan: Plan)
    requires
        suite.wf(plan),
        suite.stage == Stage::Conclude,
    ensures
        ({
            let after = suite.concluded(plan).benchmarks;
            &&& after.len() > suite.benchmarks.len()
            &&& forall|i: int|
                suite.benchmarks.len() <= i < after.len() ==> latency_taken_out(
                    #[trigger] after[i],
                    plan.latency,
                )
        }),
{
    law_latency_is_taken_out(
        plan.shape(suite.place, false),
        suite.standard_batches,
        plan.latency,
    );
    law_latency_is_taken_out(plan.shape(suite.place, true), suite.context_batches, plan.latency);
}

/// The results of a measured phase are kept as they are, after those of earlier
/// batches: those of a context load with the context loads, those of the
/// prompts with the others. Those of a discarded batch are not. Every failure
/// counts, and nothing that was reported changes.
pub proof fn law_results_of_measured_batches_are_kept(
    suite: SuiteView,
    plan: Plan,
    results: Vec<RequestResult>,
    failed: nat,
)
    requires
        suite.wf(plan),
        suite.stage == Stage::ContextLoad || suite.stage == Stage::Inference,
    ensures
        ({
            let next = suite.requested(plan, results, failed);
            let keeps = measures(plan, suite.place);
            &&& next.failed_requests == suite.failed_requests + failed
            &&& next.benchmarks == suite.benchmarks
            &&& next.prompts == suite.prompts
            &&& next.context_batches == if keeps && suite.stage == Stage::ContextLoad {
                suite.context_batches.push(results)
            } else {
                suite.context_batches
            }
            &&& next.standard_batches == if keeps && suite.stage == Stage::Inference {
                suite.standard_batches.push(results)
            } else {
                suite.standard_batches
            }
            &&& suite.stage == Stage::ContextLoad ==> next.stage == Stage::Inference && next.place
                == suite.place
            &&& suite.stage == Stage::Inference && plan.has_post_command ==> next.stage
                == Stage::PostRun && next.place == suite.place
        }),
{
}

/// After a batch, and after the command that follows it, the next batch of the
/// same test shape is prepared, discarded ones first; after the last one the
/// test shape is concluded.
pub proof fn law_batches_follow_one_another(
    suite: SuiteView,
    plan: Plan,
    results: Vec<RequestResult>,
    failed: nat,
)
    requires
        suite.wf(plan),
        suite.stage == Stage::PostRun || suite.stage == Stage::Inference
            && !plan.has_post_command,
    ensures
        ({
            let next = if suite.stage == Stage::PostRun {
                suite.batch_over(plan)
            } else {
                suite.requested(plan, results, failed)
            };
            let keeps = measures(plan, suite.place);
            let (old_place, new_place) = (suite.place, next.place);
            &&& new_place.depth == old_place.depth && new_place.pp == old_place.pp
            &&& new_place.tg == old_place.tg && new_place.level == old_place.level
            &&& new_place.warmups == old_place.warmups + if keeps {
                0int
            } else {
                1
            }
            &&& new_place.runs == old_place.runs + if keeps {
                1int
            } else {
                0
            }
            &&& next.stage == if new_place.warmups == plan.warmup_runs && new_place.runs
                == plan.num_runs {
                Stage::Conclude
            } else {
                Stage::Prepare
            }
            &&& next.benchmarks == suite.benchmarks
            &&& suite.stage == Stage::PostRun ==> next.standard_batches == suite.standard_batches
                && next.context_batches == suite.context_batches && next.failed_requests
                == suite.failed_requests
        }),
{
}

/// Prepared prompts are loaded where contexts are cached, else asked at once.
pub proof fn law_prepared_prompts_are_asked(
    suite: SuiteView,
    plan: Plan,
    prompts: Seq<(Seq<char>, Seq<char>)>,
)
    requires
        suite.wf(plan),
        suite.stage == Stage::Prepare,
    ensures
        ({
            let next = suite.prepared(plan, prompts);
            &&& next.place == suite.place
            &&& next.benchmarks == suite.benchmarks
            &&& next.standard_batches == suite.standard_batches
            &&& next.context_batches == suite.context_batches
            &&& next.failed_requests == suite.failed_requests
            &&& next.questions().len() == prompts.len()
            &&& caches(plan, suite.place) ==> next.stage == Stage::ContextLoad && forall|i: int|
                0 <= i < prompts.len() ==> #[trigger] next.questions()[i] == (
                    prompts[i].0,
                    CONTEXT_LOAD_USER_MESSAGE@,
                )
            &&& !caches(plan, suite.place) ==> next.stage == Stage::Inference && next.questions()
                == prompts
        }),
{
}

/// A test shape comes before another one if its depth does in the list of
/// depths, or for the same depth its prompt, or for the same prompt its answer,
/// or for the same answer its concurrency.
pub open spec fn precedes(a: Place, b: Place) -> bool {
    ||| a.depth < b.depth
    ||| a.depth == b.depth && a.pp < b.pp
    ||| a.depth == b.depth && a.pp == b.pp && a.tg < b.tg
    ||| a.depth == b.depth && a.pp == b.pp && a.tg == b.tg && a.level < b.level
}

/// The places are in the same test shape.
pub open spec fn same_shape(a: Place, b: Place) -> bool {
    a.depth == b.depth && a.pp == b.pp && a.tg == b.tg && a.level == b.level
}

/// The place stands in the lists of the plan.
pub open spec fn listed_place(plan: Plan, place: Place) -> bool {
    &&& place.depth < plan.depths@.len()
    &&& place.pp < plan.pp_counts@.len()
    &&& place.tg < plan.tg_counts@.len()
    &&& place.level < plan.concurrency_levels@.len()
}

/// A benchmark starts with the first test shape of its plan, and after each
/// conclusion it goes on with the next one: none is left out, and none comes
/// twice. It is finished after the last one.
pub proof fn law_shapes_are_tested_in_order(suite: SuiteView, plan: Plan, other: Place)
    requires
        suite.wf(plan),
        suite.stage == Stage::Conclude,
        listed_place(plan, other),
    ensures
        ({
            let start = SuiteView::start(plan);
            let next = suite.concluded(plan);
            &&& start.stage != Stage::Finished
            &&& listed_place(plan, start.place)
            &&& same_shape(start.place, other) || precedes(start.place, other)
            &&& next.stage != Stage::Finished ==> {
                &&& listed_place(plan, next.place)
                &&& precedes(suite.place, next.place)
                &&& next.place.warmups == 0 && next.place.runs == 0
                &&& next.stage == if plan.warmup_runs == 0 && plan.num_runs == 0 {
                    Stage::Conclude
                } else {
                    Stage::Prepare
                }
                &&& precedes(suite.place, other) ==> same_shape(next.place, other) || precedes(
                    next.place,
                    other,
                )
            }
            &&& next.stage == Stage::Finished ==> !precedes(suite.place, other)
        }),
{
    assert(plan.depths.len() == plan.depths@.len() && plan.pp_counts.len() == plan.pp_counts@.len()
        && plan.tg_counts.len() == plan.tg_counts@.len() && plan.concurrency_levels.len()
        == plan.concurrency_levels@.len());
}

/// A benchmark that has just started has made nothing, and without a test shape
/// it is finished.
pub proof fn law_benchmarks_start_empty(plan: Plan)
    ensures
        ({
            let start = SuiteView::start(plan);
            &&& start.benchmarks.len() == 0
            &&& start.standard_batches.len() == 0
            &&& start.context_batches.len() == 0
            &&& start.failed_requests == 0
            &&& start.place.warmups == 0 && start.place.runs == 0
            &&& start.stage == Stage::Finished <==> plan.depths@.len() == 0
                || plan.pp_counts@.len() == 0 || plan.tg_counts@.len() == 0
                || plan.concurrency_levels@.len() == 0
            &&& start.stage == Stage::Finished || start.stage == if plan.warmup_runs == 0
                && plan.num_runs == 0 {
                Stage::Conclude
            } else {
                Stage::Prepare
            }
        }),
{
}

/// A plan does what the user configured, and discards no batch if there are to
/// be no warmups.
pub proof fn law_plan_follows_the_configuration(
    plan: Plan,
    config: BenchmarkConfig,
    latency: u128,
)
    requires
        planned(plan, config, latency),
    ensures
        plan.depths@ == config.depths@,
        plan.pp_counts@ == config.pp_counts@,
        plan.tg_counts@ == config.tg_counts@,
        plan.concurrency_levels@ == config.concurrency_levels@,
        plan.num_runs == config.num_runs,
        config.no_warmup ==> plan.warmup_runs == 0,
        !config.no_warmup ==> plan.warmup_runs == config.warmup_runs,
        plan.enable_prefix_caching == config.enable_prefix_caching,
        plan.exit_on_first_fail == config.exit_on_first_fail,
        plan.has_post_command <==> config.post_run_cmd is Some,
        plan.latency == latency,
{
}

/// Every answer of a batch is a result or an error, and both keep the order of
/// the answers.
pub proof fn law_answers_are_sorted_in_order(
    answers: Seq<Result<RequestResult, Error>>,
    more: Seq<Result<RequestResult, Error>>,
    answer: Result<RequestResult, Error>,
)
    ensures
        successes(answers + more) == successes(answers) + successes(more),
        failures(answers + more) == failures(answers) + failures(more),
        match answer {
            Ok(result) => successes(seq![answer]) == seq![result] && failures(seq![answer]).len()
                == 0,
            Err(error) => successes(seq![answer]).len() == 0 && failures(seq![answer]) == seq![
                error,
            ],
        },
    decreases more.len(),
{
    assert(seq![answer].drop_last() =~= Seq::empty());
    assert(successes(Seq::empty()) =~= Seq::empty());
    assert(failures(Seq::empty()) =~= Seq::empty());
    if more.len() == 0 {
        assert(answers + more =~= answers);
    } else {
        assert((answers + more).drop_last() =~= answers + more.drop_last());
        law_answers_are_sorted_in_order(answers, more.drop_last(), answer);
    }
}

/// A benchmark that ends with the first failure ends with the first failed
/// request of the batch, in its own words; otherwise, and without a failure, it
/// goes on and all failures count.
pub proof fn law_first_failure_ends_the_benchmark(errors: Seq<Error>, exit_on_first: bool)
    ensures
        match failure_outcome(errors, exit_on_first) {
            Err(error) => exit_on_first && errors.len() > 0 && error == ErrorView::Benchmark(
                errors[0]@.message(),
            ),
            Ok(failed) => failed == errors.len() && !(exit_on_first && failed > 0),
        },
{
}

/// The greatest of the values is one of them, and none is greater.
pub proof fn law_greatest_is_the_maximum(values: Seq<usize>)
    ensures
        values.len() == 0 ==> greatest(values) == 1,
        values.len() > 0 ==> values.contains(greatest(values)),
        forall|i: int| 0 <= i < values.len() ==> #[trigger] values[i] <= greatest(values),
    decreases values.len(),
{
    if values.len() > 1 {
        let rest = values.drop_last();
        law_greatest_is_the_maximum(rest);
        let i = choose|i: int| 0 <= i < rest.len() && rest[i] == greatest(rest);
        assert(values[i] == greatest(rest));
        assert(values[values.len() - 1] == values.last());
        assert forall|j: int| 0 <= j < values.len() implies #[trigger] values[j] <= greatest(
            values,
        ) by {
            if j < rest.len() {
                assert(rest[j] == values[j]);
            }
        }
    } else if values.len() == 1 {
        assert(values[0] == greatest(values));
    }
}

/// The last complaint says how many requests failed, and whether that is why
/// there is no report.
pub proof fn law_complaint_counts_the_failures(no_results_on_fail: bool, failed: nat)
    ensures
        final_complaint(no_results_on_fail, failed) == ErrorView::Benchmark(
            decimal(failed) + if no_results_on_fail {
                " request(s) failed; report suppressed by --no-results-on-fail"@
            } else {
                " request(s) failed"@
            },
        ),
{
}

} // verus!
