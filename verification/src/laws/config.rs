//! What becomes of what the user asks for.

use vstd::prelude::*;

use crate::config::acceptable;
use crate::config::extra_entries;
use crate::config::extra_entry;
use crate::config::extra_fields;
use crate::config::only_model;
use crate::config::takes_over;
use crate::config::Args;
use crate::config::BenchmarkConfig;
use crate::config::ExtraEntry;
use crate::config::LatencyMode;
use crate::config::ModelEntry;
use crate::config::ModelsResponse;
use crate::error::ErrorView;
use crate::json::reading;
use crate::json::JsonTree;
use crate::laws::text::blank;
use crate::laws::text::copies;
use crate::laws::text::lacks;
use crate::laws::text::law_texts_are_cut_at_separators;
use crate::laws::text::law_trimming_leaves_the_middle;
use crate::text::decimal;
use crate::text::is_space;
use crate::text::joined;
use crate::text::position;
use crate::text::trimmed;
use crate::text::trimmed_end;

verus! {

/// There are values, all of them greater than zero.
pub open spec fn all_positive(values: Seq<usize>) -> bool {
    values.len() > 0 && forall|i: int| 0 <= i < values.len() ==> #[trigger] values[i] > 0
}

/// The text with slashes behind it, none of them in the text's own end.
pub open spec fn is_without_slashes(url: Seq<char>, s: Seq<char>) -> bool {
    &&& s.len() <= url.len()
    &&& url.take(s.len() as int) == s
    &&& copies(url.skip(s.len() as int), '/')
    &&& s.len() > 0 ==> s.last() != '/'
}

proof fn lemma_slashes(url: Seq<char>)
    ensures
        is_without_slashes(url, trimmed_end(url, '/')),
    decreases url.len(),
{
    let s = trimmed_end(url, '/');
    if url.len() > 0 && url.last() == '/' {
        let rest = url.drop_last();
        lemma_slashes(rest);
        let t = trimmed_end(rest, '/');
        assert(s == t);
        assert(url.take(s.len() as int) =~= rest.take(s.len() as int));
        assert forall|i: int| 0 <= i < url.skip(s.len() as int).len() implies #[trigger] url.skip(
            s.len() as int,
        )[i] == '/' by {
            if i < rest.skip(s.len() as int).len() {
                assert(rest.skip(s.len() as int)[i] == '/');
            }
        }
    } else {
        assert(s == url);
        assert(url.take(s.len() as int) =~= url);
    }
}

proof fn lemma_positive(values: Seq<usize>)
    ensures
        all_positive(values) <==> !(values.len() == 0 || values.contains(0)),
{
    if values.contains(0) {
        let i = choose|i: int| 0 <= i < values.len() && values[i] == 0;
        assert(!(values[i] > 0));
    } else if values.len() > 0 {
        assert forall|i: int| 0 <= i < values.len() implies #[trigger] values[i] > 0 by {
            assert(values.contains(values[i]));
        }
    }
}

/// Options are accepted if they ask for something and name an endpoint, whose
/// address loses the slashes at its end. Of several faults the first one is
/// told.
pub proof fn law_options_are_accepted_or_their_first_fault_told(args: Args)
    ensures
        match acceptable(args) {
            Ok(url) => {
                &&& all_positive(args.pp_counts@)
                &&& all_positive(args.tg_counts@)
                &&& all_positive(args.concurrency_levels@)
                &&& args.num_runs > 0
                &&& url.len() > 0
                &&& is_without_slashes(args.base_url@, url)
            },
            Err(error) => {
                ||| !all_positive(args.pp_counts@) && error == ErrorView::Config(
                    "--pp values must be greater than zero"@,
                )
                ||| all_positive(args.pp_counts@) && !all_positive(args.tg_counts@) && error
                    == ErrorView::Config("--tg values must be greater than zero"@)
                ||| all_positive(args.pp_counts@) && all_positive(args.tg_counts@)
                    && !all_positive(args.concurrency_levels@) && error == ErrorView::Config(
                    "--concurrency values must be greater than zero"@,
                )
                ||| all_positive(args.pp_counts@) && all_positive(args.tg_counts@) && all_positive(
                    args.concurrency_levels@,
                ) && args.num_runs == 0 && error == ErrorView::Config(
                    "--runs must be greater than zero"@,
                )
                ||| all_positive(args.pp_counts@) && all_positive(args.tg_counts@) && all_positive(
                    args.concurrency_levels@,
                ) && args.num_runs > 0 && copies(args.base_url@, '/') && error
                    == ErrorView::Config("--base-url cannot be empty"@)
            },
        },
{
    lemma_positive(args.pp_counts@);
    lemma_positive(args.tg_counts@);
    lemma_positive(args.concurrency_levels@);
    lemma_slashes(args.base_url@);
    assert(args.base_url@.skip(0) =~= args.base_url@);
    reveal_strlit("--pp");
    reveal_strlit("--tg");
    reveal_strlit("--concurrency");
    reveal_strlit(" values must be greater than zero");
    reveal_strlit("--pp values must be greater than zero");
    reveal_strlit("--tg values must be greater than zero");
    reveal_strlit("--concurrency values must be greater than zero");
    assert("--pp"@ + " values must be greater than zero"@
        =~= "--pp values must be greater than zero"@);
    assert("--tg"@ + " values must be greater than zero"@
        =~= "--tg values must be greater than zero"@);
    assert("--concurrency"@ + " values must be greater than zero"@
        =~= "--concurrency values must be greater than zero"@);
}

/// A benchmark does what the options say. It stops with the first failure also
/// if a failure leaves no results, and its prompts are adapted unless that was
/// turned off. A model that was given goes before a detected one, and it is
/// also what the endpoint is asked for unless another name was given for that.
pub proof fn law_configuration_follows_the_options(
    config: BenchmarkConfig,
    args: Args,
    detected: Option<(String, String)>,
)
    requires
        takes_over(config, args, detected),
    ensures
        config.api_key@ == args.api_key@,
        args.model is Some ==> config.model@ == args.model->0@,
        args.model is None && detected is Some ==> config.model@ == (detected->0).0@,
        args.served_model_name is Some ==> config.served_model_name@ == args.served_model_name->0@,
        args.served_model_name is None && args.model is Some ==> config.served_model_name@
            == config.model@,
        args.served_model_name is None && args.model is None && detected is Some
            ==> config.served_model_name@ == (detected->0).1@,
        config.pp_counts@ == args.pp_counts@,
        config.tg_counts@ == args.tg_counts@,
        config.depths@ == args.depths@,
        config.concurrency_levels@ == args.concurrency_levels@,
        config.num_runs == args.num_runs,
        config.warmup_runs == args.warmup_runs,
        config.exact_tg <==> args.exact_tg,
        config.no_cache <==> args.no_cache,
        config.enable_prefix_caching <==> args.enable_prefix_caching,
        config.latency_mode == args.latency_mode,
        config.no_warmup <==> args.no_warmup,
        config.adapt_prompt <==> !args.no_adapt_prompt,
        config.skip_coherence <==> args.skip_coherence,
        config.prompt_file == args.prompt_file,
        config.book_url@ == args.book_url@,
        config.post_run_cmd == args.post_run_cmd,
        config.exit_on_first_fail <==> args.exit_on_first_fail || args.no_results_on_fail,
        config.no_results_on_fail ==> config.exit_on_first_fail,
        config.no_results_on_fail <==> args.no_results_on_fail,
        config.save_result == args.save_result,
        config.output_format == args.output_format,
        config.timeout == args.timeout,
{
}

/// Every latency mode has its own name.
pub proof fn law_latency_modes_are_named(mode: LatencyMode)
    ensures
        mode.name() == match mode {
            LatencyMode::Api => seq!['a', 'p', 'i'],
            LatencyMode::Generation => seq!['g', 'e', 'n', 'e', 'r', 'a', 't', 'i', 'o', 'n'],
            LatencyMode::Disabled => seq!['n', 'o', 'n', 'e'],
        },
{
    reveal_strlit("api");
    reveal_strlit("generation");
    reveal_strlit("none");
}

/// The text has no white space at its ends.
pub open spec fn is_tight(s: Seq<char>) -> bool {
    s.len() > 0 ==> !is_space(s[0]) && !is_space(s.last())
}

proof fn lemma_tight(s: Seq<char>, behind: Seq<char>)
    requires
        is_tight(s),
        blank(behind),
    ensures
        trimmed(s + behind) == s,
        trimmed(behind + s) == s,
        trimmed(behind) == Seq::<char>::empty(),
{
    let none = Seq::<char>::empty();
    law_trimming_leaves_the_middle(none, s, behind);
    assert(none + s + behind =~= s + behind);
    law_trimming_leaves_the_middle(behind, s, none);
    assert(behind + s + none =~= behind + s);
    law_trimming_leaves_the_middle(behind, none, none);
    assert(behind + none + none =~= behind);
}

/// An extra field is a key and a value with `=` or `:` between them and white
/// space around each of them. The value is what it is as JSON, or else the
/// text. A `:` does not count if there is a `=`.
pub proof fn law_extra_fields_have_a_key_and_a_value(
    spaces: (Seq<char>, Seq<char>, Seq<char>, Seq<char>),
    key: Seq<char>,
    sep: char,
    value: Seq<char>,
)
    requires
        blank(spaces.0) && blank(spaces.1) && blank(spaces.2) && blank(spaces.3),
        is_tight(key),
        is_tight(value),
        lacks(key, '='),
        sep == '=' || (sep == ':' && lacks(key, ':') && lacks(value, '=')),
    ensures
        ({
            let entry = spaces.0 + key + spaces.1 + seq![sep] + spaces.2 + value + spaces.3;
            extra_entry(entry) == if key.len() == 0 {
                ExtraEntry::Refused(ErrorView::Config("--extra-body contains an empty key"@))
            } else {
                ExtraEntry::Field(
                    key,
                    match reading(value) {
                        Ok(tree) => tree,
                        Err(_) => JsonTree::Text(value),
                    },
                )
            }
        }),
{
    let entry = spaces.0 + key + spaces.1 + seq![sep] + spaces.2 + value + spaces.3;
    // Around the separator, without the space at the ends of the entry.
    let (first, left) = if key.len() > 0 {
        (spaces.0, key + spaces.1)
    } else {
        (spaces.0 + spaces.1, Seq::<char>::empty())
    };
    let (right, end) = if value.len() > 0 {
        (spaces.2 + value, spaces.3)
    } else {
        (Seq::<char>::empty(), spaces.2 + spaces.3)
    };
    let middle = left + seq![sep] + right;
    assert(entry =~= first + middle + end);
    assert(blank(first));
    assert(blank(end));
    assert(middle[0] == if key.len() > 0 {
        key[0]
    } else {
        sep
    });
    assert(middle.last() == if value.len() > 0 {
        value.last()
    } else {
        sep
    });
    law_trimming_leaves_the_middle(first, middle, end);
    lemma_tight(key, spaces.1);
    lemma_tight(value, spaces.2);
    assert(trimmed(Seq::<char>::empty()) =~= Seq::empty());
    assert forall|i: int| 0 <= i < left.len() implies #[trigger] left[i] != '=' by {
        if i < key.len() {
            assert(key[i] != '=');
        } else {
            assert(is_space(spaces.1[i - key.len()]));
        }
    }
    if sep == ':' {
        assert forall|i: int| 0 <= i < left.len() implies #[trigger] left[i] != ':' by {
            if i < key.len() {
                assert(key[i] != ':');
            } else {
                assert(is_space(spaces.1[i - key.len()]));
            }
        }
        assert forall|i: int| 0 <= i < middle.len() implies #[trigger] middle[i] != '=' by {
            if i < left.len() {
                assert(left[i] != '=');
            } else if i > left.len() {
                let j = i - left.len() - 1;
                assert(middle[i] == right[j]);
                if j < spaces.2.len() {
                    assert(is_space(spaces.2[j]));
                } else {
                    assert(value[j - spaces.2.len()] != '=');
                }
            }
        }
        law_texts_are_cut_at_separators(middle, '=', Seq::empty());
    }
    law_texts_are_cut_at_separators(left, sep, right);
    assert(left =~= key + spaces.1 || left =~= Seq::empty());
    assert(trimmed(left) == key);
    assert(trimmed(right) == value);
}

/// White space is no extra field, and anything else without a `=` or a `:` is
/// refused.
pub proof fn law_extra_fields_have_a_separator(
    before: Seq<char>,
    s: Seq<char>,
    behind: Seq<char>,
)
    requires
        blank(before),
        blank(behind),
        is_tight(s),
        lacks(s, '='),
        lacks(s, ':'),
    ensures
        extra_entry(before + s + behind) == if s.len() == 0 {
            ExtraEntry::Nothing
        } else {
            ExtraEntry::Refused(
                ErrorView::Config("invalid --extra-body entry '"@ + s + "'; expected key=value"@),
            )
        },
{
    law_trimming_leaves_the_middle(before, s, behind);
    law_texts_are_cut_at_separators(s, '=', Seq::empty());
    law_texts_are_cut_at_separators(s, ':', Seq::empty());
}

/// The entries of an item stand between its commas, behind those of the items
/// before it. An item without a comma is one entry.
pub proof fn law_entries_stand_between_commas(
    items: Seq<Seq<char>>,
    entry: Seq<char>,
    rest: Seq<char>,
)
    requires
        lacks(entry, ','),
    ensures
        extra_entries(Seq::empty()).len() == 0,
        extra_entries(items.push(entry)) == extra_entries(items).push(entry),
        extra_entries(items.push(entry + seq![','] + rest)) == extra_entries(
            items.push(entry).push(rest),
        ),
{
    law_texts_are_cut_at_separators(entry, ',', rest);
    assert(items.push(entry).drop_last() =~= items);
    assert(items.push(entry).push(rest).drop_last() =~= items.push(entry));
    assert(items.push(entry + seq![','] + rest).drop_last() =~= items);
    assert(extra_entries(items.push(entry)) =~= extra_entries(items).push(entry));
    assert(extra_entries(items.push(entry + seq![','] + rest)) =~= extra_entries(
        items.push(entry).push(rest),
    ));
}

/// Without entries there are no extra fields, and nothing follows on a refusal.
pub proof fn law_first_refusal_is_told(entries: Seq<Seq<char>>, entry: Seq<char>)
    ensures
        extra_fields(Seq::empty()) == Ok::<Map<Seq<char>, JsonTree>, ErrorView>(Map::empty()),
        extra_fields(entries) is Err ==> extra_fields(entries.push(entry)) == extra_fields(entries),
{
    assert(entries.push(entry).drop_last() =~= entries);
}

proof fn lemma_position(s: Seq<char>, c: char)
    ensures
        position(s, c) is Some <==> !lacks(s, c),
    decreases s.len(),
{
    if s.len() > 0 {
        let rest = s.drop_first();
        lemma_position(rest, c);
        assert(s.first() == s[0]);
        if lacks(s, c) {
            assert forall|i: int| 0 <= i < rest.len() implies #[trigger] rest[i] != c by {
                assert(s[i + 1] != c);
            }
        } else if !lacks(rest, c) {
            let i = choose|i: int| 0 <= i < rest.len() && #[trigger] rest[i] == c;
            assert(s[i + 1] == c);
        } else {
            let i = choose|i: int| 0 <= i < s.len() && #[trigger] s[i] == c;
            if i > 0 {
                assert(rest[i - 1] == c);
            }
            assert(s[0] == c);
        }
    }
}

/// The name of a model, from its `id` if it has one, else from its `model`.
pub open spec fn names(entry: ModelEntry, name: Seq<char>) -> bool {
    &&& entry.id@.len() > 0 ==> name == entry.id@
    &&& entry.id@.len() == 0 ==> name == entry.model@
}

/// The models are those under `data`, or under `models` if there are no others.
/// A single one with a name is asked for by that name, and reported by its root
/// if that is a path. One without a name, or any other number of models, is
/// refused.
pub proof fn law_single_model_is_detected(
    response: ModelsResponse,
    url: Seq<char>,
    models: Seq<ModelEntry>,
    called: Seq<Seq<char>>,
)
    requires
        response.data@.len() > 0 ==> models == response.data@,
        response.data@.len() == 0 ==> models == response.models@,
        called.len() == models.len(),
        forall|i: int| 0 <= i < models.len() ==> names(models[i], #[trigger] called[i]),
    ensures
        match only_model(response, url) {
            Ok((model, served)) => {
                &&& models.len() == 1
                &&& served == called[0]
                &&& served.len() > 0
                &&& model == if lacks(models[0].root@, '/') {
                    served
                } else {
                    models[0].root@
                }
            },
            Err(ErrorView::Protocol { endpoint, message }) => {
                &&& models.len() == 1
                &&& called[0].len() == 0
                &&& endpoint == url
                &&& message == "model entry has no id"@
            },
            Err(error) => {
                &&& models.len() != 1
                &&& error == ErrorView::Config(
                    "model auto-detection requires exactly one endpoint model (found "@ + decimal(
                        models.len(),
                    ) + ": "@ + joined(called, ", "@) + "); pass --model"@,
                )
            },
        },
{
    let served = Seq::new(models.len(), |i: int| crate::config::served_name(models[i]));
    assert forall|i: int| 0 <= i < models.len() implies served[i] == called[i] by {
        assert(names(models[i], called[i]));
    }
    assert(served =~= called);
    if models.len() == 1 {
        lemma_position(models[0].root@, '/');
    }
}

} // verus!
