//! What the user reads of an error.

use vstd::prelude::*;

use crate::error::ErrorView;

verus! {

/// The text begins with `lead`, and all of `parts` follow, in this order, with
/// `gaps` between them.
pub open spec fn tells_in_order(
    text: Seq<char>,
    lead: Seq<char>,
    parts: Seq<Seq<char>>,
    gaps: Seq<Seq<char>>,
) -> bool
    decreases parts.len(),
{
    if parts.len() == 0 {
        text == lead
    } else if parts.len() == 1 {
        text == lead + parts[0]
    } else {
        let rest = (text.len() - gaps.last().len() - parts.last().len()) as int;
        &&& rest >= 0
        &&& text.skip(rest) == gaps.last() + parts.last()
        &&& tells_in_order(text.take(rest), lead, parts.drop_last(), gaps.drop_last())
    }
}

proof fn lemma_two(lead: Seq<char>, first: Seq<char>, gap: Seq<char>, second: Seq<char>)
    ensures
        tells_in_order(lead + first + gap + second, lead, seq![first, second], seq![gap]),
{
    let text = lead + first + gap + second;
    let parts = seq![first, second];
    let rest = text.len() - gap.len() - second.len();
    assert(text.skip(rest) =~= gap + second);
    assert(text.take(rest) =~= lead + first);
    assert(parts.drop_last() =~= seq![first]);
    assert(tells_in_order(text.take(rest), lead, parts.drop_last(), seq![gap].drop_last()));
}

/// The message on an error says what failed, with what, and why: all that is
/// known of it.
pub proof fn law_messages_tell_all_that_is_known(error: ErrorView)
    ensures
        match error {
            ErrorView::Config(text) => tells_in_order(
                error.message(),
                "invalid configuration: "@,
                seq![text],
                seq![],
            ),
            ErrorView::Request { url, source } => tells_in_order(
                error.message(),
                "request to "@,
                seq![url, source],
                seq![" failed: "@],
            ),
            ErrorView::HttpStatus { url, status, body } => tells_in_order(
                error.message(),
                "endpoint returned HTTP "@,
                seq![status, url, body],
                seq![" for "@, ": "@],
            ),
            ErrorView::Protocol { endpoint, message } => tells_in_order(
                error.message(),
                "invalid response from "@,
                seq![endpoint, message],
                seq![": "@],
            ),
            ErrorView::Json { context, source } => tells_in_order(
                error.message(),
                "failed to parse JSON from "@,
                seq![context, source],
                seq![": "@],
            ),
            ErrorView::Tokenizer { name, message } => tells_in_order(
                error.message(),
                "failed to load tokenizer '"@,
                seq![name, message],
                seq!["': "@],
            ),
            ErrorView::ReadFile { path, source } => tells_in_order(
                error.message(),
                "failed to read "@,
                seq![path, source],
                seq![": "@],
            ),
            ErrorView::WriteFile { path, source } => tells_in_order(
                error.message(),
                "failed to write "@,
                seq![path, source],
                seq![": "@],
            ),
            ErrorView::Csv(text) => tells_in_order(
                error.message(),
                "failed to serialize CSV report: "@,
                seq![text],
                seq![],
            ),
            ErrorView::PostRun { command, status } => tells_in_order(
                error.message(),
                "post-run command failed with status "@,
                seq![status, command],
                seq![": "@],
            ),
            ErrorView::StartPostRun { command, source } => tells_in_order(
                error.message(),
                "failed to start post-run command '"@,
                seq![command, source],
                seq!["': "@],
            ),
            ErrorView::Benchmark(text) => tells_in_order(
                error.message(),
                "benchmark request failed: "@,
                seq![text],
                seq![],
            ),
            ErrorView::Interrupted => error.message() == "benchmark was interrupted"@,
        },
{
    match error {
        ErrorView::Request { url, source } => lemma_two("request to "@, url, " failed: "@, source),
        ErrorView::HttpStatus { url, status, body } => {
            let text = error.message();
            let parts = seq![status, url, body];
            let gaps = seq![" for "@, ": "@];
            let rest = text.len() - ": "@.len() - body.len();
            lemma_two("endpoint returned HTTP "@, status, " for "@, url);
            assert(text.skip(rest) =~= ": "@ + body);
            assert(text.take(rest) =~= "endpoint returned HTTP "@ + status + " for "@ + url);
            assert(parts.drop_last() =~= seq![status, url]);
            assert(gaps.drop_last() =~= seq![" for "@]);
        },
        ErrorView::Protocol { endpoint, message } => lemma_two(
            "invalid response from "@,
            endpoint,
            ": "@,
            message,
        ),
        ErrorView::Json { context, source } => lemma_two(
            "failed to parse JSON from "@,
            context,
            ": "@,
            source,
        ),
        ErrorView::Tokenizer { name, message } => lemma_two(
            "failed to load tokenizer '"@,
            name,
            "': "@,
            message,
        ),
        ErrorView::ReadFile { path, source } => lemma_two(
            "failed to read "@,
            path,
            ": "@,
            source,
        ),
        ErrorView::WriteFile { path, source } => lemma_two(
            "failed to write "@,
            path,
            ": "@,
            source,
        ),
        ErrorView::PostRun { command, status } => lemma_two(
            "post-run command failed with status "@,
            status,
            ": "@,
            command,
        ),
        ErrorView::StartPostRun { command, source } => lemma_two(
            "failed to start post-run command '"@,
            command,
            "': "@,
            source,
        ),
        _ => {},
    }
}

} // verus!
