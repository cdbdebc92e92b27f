//! What the requests say, and what is read from the answers.

use vstd::arithmetic::div_mod::lemma_fundamental_div_mod;
use vstd::arithmetic::div_mod::lemma_mod_bound;
use vstd::prelude::*;

use crate::client::address;
use crate::client::answer;
use crate::client::asked;
use crate::client::authorized;
use crate::client::chat;
use crate::client::chat_tree;
use crate::client::incoherent;
use crate::client::line_end;
use crate::client::listed_token_times;
use crate::client::probed;
use crate::client::read_lines;
use crate::client::read_tail;
use crate::client::request_fields;
use crate::client::sum;
use crate::client::ChunkView;
use crate::client::LatencyStep;
use crate::client::LatencyView;
use crate::client::LlmClient;
use crate::client::NonStreamingResponse;
use crate::client::RequestResult;
use crate::client::StreamView;
use crate::client::CONTEXT_LOAD_USER_MESSAGE;
use crate::client::MEASURED_RUNS;
use crate::config::LatencyMode;
use crate::error::ErrorView;
use crate::json::lookup;
use crate::json::reading;
use crate::json::JsonTree;
use crate::laws::text::blank;
use crate::laws::text::copies;
use crate::laws::text::law_copies_are_trimmed;
use crate::laws::text::law_first_occurrence_is_found;
use crate::laws::text::law_prefixes_are_taken_off;
use crate::laws::text::law_trimming_leaves_the_middle;
use crate::laws::text::stands_at;
use crate::text::is_space;
use crate::text::lossy;
use crate::text::quoted;
use crate::text::trimmed;

verus! {

/// `x` is the whole part of `whole * part / count`.
pub open spec fn is_share(x: int, whole: int, part: int, count: int) -> bool {
    count * x <= whole * part < count * x + count
}

proof fn lemma_quotient_is_share(whole: int, part: int, count: int)
    requires
        count > 0,
    ensures
        is_share((whole * part) / count, whole, part, count),
{
    lemma_fundamental_div_mod(whole * part, count);
    lemma_mod_bound(whole * part, count);
}

/// One of the chunks does not list its tokens.
pub open spec fn some_unlisted(chunks: Seq<ChunkView>) -> bool {
    exists|k: int| 0 <= k < chunks.len() && (#[trigger] chunks[k]).token_ids is None
}

/// Where the endpoint reports how many tokens there are and not every chunk
/// lists its own, these many are spread evenly from the first chunk to the
/// last: the first token comes with the first chunk, the last token with the
/// last one, and neighbouring tokens are equally far apart, up to a tick.
/// Tokens of one chunk, or of chunks that came at once, come with it.
pub proof fn law_reported_tokens_span_all_chunks(stream: StreamView)
    requires
        some_unlisted(stream.content_chunks),
        stream.usage_completion_tokens is Some,
    ensures
        ({
            let chunks = stream.content_chunks;
            let first = chunks[0].timestamp;
            let last = chunks.last().timestamp;
            let count = stream.usage_completion_tokens->0 as nat;
            let times = stream.tokens().1;
            &&& stream.tokens().0 == count
            &&& times.len() == count
            &&& count > 0 ==> times[0] == first
            &&& count > 1 && last >= first ==> times.last() == last
            &&& last <= first ==> forall|i: int|
                0 <= i < count ==> #[trigger] times[i] == first
            &&& count > 1 && last > first ==> forall|i: int|
                0 <= i < count ==> first <= #[trigger] times[i] <= last && is_share(
                    times[i] - first,
                    last - first,
                    i,
                    count - 1,
                )
            &&& last >= first ==> forall|i: int, j: int|
                0 <= i < count - 1 && 0 <= j < count - 1 ==> (#[trigger] times[i + 1] - times[i])
                    - (#[trigger] times[j + 1] - times[j]) <= 1
        }),
{
    let chunks = stream.content_chunks;
    let chunk_times = stream.chunk_times();
    let first = chunks[0].timestamp;
    let last = chunks.last().timestamp;
    let count = stream.usage_completion_tokens->0 as nat;
    let times = stream.tokens().1;
    let k = choose|k: int| 0 <= k < chunks.len() && (#[trigger] chunks[k]).token_ids is None;
    assert(!stream.lists_tokens());
    assert(chunk_times[0] == first && chunk_times.last() == last);
    if count > 1 && last > first {
        let n = count - 1;
        let w = last - first;
        assert(chunks.len() > 1);
        assert forall|i: int| 0 <= i < count implies first <= #[trigger] times[i] <= last && is_share(
            times[i] - first,
            w,
            i,
            n,
        ) by {
            lemma_quotient_is_share(w, i, n);
            let x = (w * i) / n;
            assert(0 <= x <= w) by (nonlinear_arith)
                requires
                    n * x <= w * i < n * x + n,
                    0 <= i <= n,
                    n > 0,
                    w > 0,
            ;
        }
        assert(is_share(times[0] - first, w, 0, n));
        assert(times[0] == first) by (nonlinear_arith)
            requires
                n * (times[0] - first) <= w * 0 < n * (times[0] - first) + n,
                n > 0,
        ;
        assert(is_share(times[n] - first, w, n, n));
        assert(times[n] == last) by (nonlinear_arith)
            requires
                n * (times[n] - first) <= w * n < n * (times[n] - first) + n,
                n > 0,
                w == last - first,
        ;
        assert forall|i: int, j: int| 0 <= i < count - 1 && 0 <= j < count - 1 implies (
        #[trigger] times[i + 1] - times[i]) - (#[trigger] times[j + 1] - times[j]) <= 1 by {
            let (a, b) = (times[i] - first, times[i + 1] - first);
            let (c, d) = (times[j] - first, times[j + 1] - first);
            assert(is_share(a, w, i, n) && is_share(b, w, i + 1, n));
            assert(is_share(c, w, j, n) && is_share(d, w, j + 1, n));
            assert((b - a) - (d - c) <= 1) by (nonlinear_arith)
                requires
                    n * a <= w * i < n * a + n,
                    n * b <= w * (i + 1) < n * b + n,
                    n * c <= w * j < n * c + n,
                    n * d <= w * (j + 1) < n * d + n,
                    n > 0,
            ;
        }
    } else if last <= first {
        assert forall|i: int| 0 <= i < count implies #[trigger] times[i] == first by {}
        assert forall|i: int, j: int| 0 <= i < count - 1 && 0 <= j < count - 1 implies (
        #[trigger] times[i + 1] - times[i]) - (#[trigger] times[j + 1] - times[j]) <= 1 by {
            assert(times[i] == first && times[j] == first);
        }
    }
}

/// Where nothing else is known, each chunk counts as a token that came with
/// it. Without any chunk there are no times, and as many tokens as the endpoint
/// reports.
pub proof fn law_chunks_stand_for_tokens(stream: StreamView)
    ensures
        some_unlisted(stream.content_chunks) && stream.usage_completion_tokens is None ==> {
            &&& stream.tokens().0 == stream.content_chunks.len()
            &&& stream.tokens().1.len() == stream.content_chunks.len()
            &&& forall|i: int|
                0 <= i < stream.content_chunks.len() ==> #[trigger] stream.tokens().1[i]
                    == stream.content_chunks[i].timestamp
        },
        stream.content_chunks.len() == 0 ==> {
            &&& stream.tokens().1.len() == 0
            &&& stream.tokens().0 == match stream.usage_completion_tokens {
                Some(count) => count as nat,
                None => 0,
            }
        },
{
    if some_unlisted(stream.content_chunks) {
        assert(!stream.lists_tokens());
    }
}

/// Where every chunk lists its tokens, what the endpoint reports does not
/// matter. The tokens of a further chunk come behind those of the others,
/// spread evenly over the time since the last of these, or since the first
/// token of the stream where there is none yet; the last one comes with the
/// chunk.
pub proof fn law_listed_tokens_follow_the_last_one(stream: StreamView, usage: Option<usize>)
    requires
        stream.content_chunks.len() > 0,
        !some_unlisted(stream.content_chunks),
    ensures
        ({
            let before = StreamView {
                content_chunks: stream.content_chunks.drop_last(),
                ..stream
            }.tokens().1;
            let chunk = stream.content_chunks.last();
            let count = chunk.token_ids->0.len();
            let times = stream.tokens().1;
            let since = if before.len() > 0 {
                before.last()
            } else if stream.first_token_ts is Some {
                stream.first_token_ts->0
            } else {
                chunk.timestamp
            };
            let width = if chunk.timestamp > since {
                chunk.timestamp - since
            } else {
                0
            };
            &&& stream.tokens() == (StreamView {
                usage_completion_tokens: usage,
                ..stream
            }).tokens()
            &&& stream.tokens().0 == times.len()
            &&& times.len() == before.len() + count
            &&& times.take(before.len() as int) == before
            &&& forall|i: int|
                0 <= i < count ==> is_share(
                    #[trigger] times[before.len() + i] - since,
                    width,
                    i + 1,
                    count as int,
                )
            &&& count > 0 && chunk.timestamp >= since ==> times.last() == chunk.timestamp
        }),
{
    let chunks = stream.content_chunks;
    let other = StreamView { usage_completion_tokens: usage, ..stream };
    let less = StreamView { content_chunks: chunks.drop_last(), ..stream };
    assert forall|i: int| 0 <= i < chunks.len() implies (#[trigger] chunks[i]).token_ids is Some by {}
    assert(stream.lists_tokens() && other.lists_tokens());
    assert forall|i: int| 0 <= i < less.content_chunks.len() implies (
    #[trigger] less.content_chunks[i]).token_ids is Some by {
        assert(less.content_chunks[i] == chunks[i]);
    }
    assert(less.lists_tokens());
    let before = listed_token_times(chunks.drop_last(), stream.first_token_ts);
    assert(less.tokens().1 =~= before);
    let chunk = chunks.last();
    let count = chunk.token_ids->0.len();
    let times = stream.tokens().1;
    let since = if before.len() > 0 {
        before.last()
    } else if stream.first_token_ts is Some {
        stream.first_token_ts->0
    } else {
        chunk.timestamp
    };
    let width: int = if chunk.timestamp > since {
        chunk.timestamp - since
    } else {
        0
    };
    assert(times.take(before.len() as int) =~= before);
    assert forall|i: int| 0 <= i < count implies is_share(
        #[trigger] times[before.len() + i] - since,
        width,
        i + 1,
        count as int,
    ) && times[before.len() + i] - since <= width by {
        lemma_quotient_is_share(width, i + 1, count as int);
        let x = (width * (i + 1)) / (count as int);
        assert(0 <= x <= width) by (nonlinear_arith)
            requires
                count * x <= width * (i + 1) < count * x + count,
                0 <= i < count,
                width >= 0,
        ;
    }
    if count > 0 {
        let x = times[before.len() + (count - 1)] - since;
        assert(is_share(x, width, count - 1 + 1, count as int));
        assert(x == width) by (nonlinear_arith)
            requires
                count * x <= width * count < count * x + count,
                x <= width,
                count > 0,
        ;
    }
}

/// The tree has a text under the key that is not empty.
pub open spec fn holds_text(tree: JsonTree, key: Seq<char>) -> bool {
    tree.member(key) is Some && tree.member(key)->0 is Text && tree.member(key)->0->Text_0.len() > 0
}

/// The content or the reasoning of the choice goes on.
pub open spec fn says_something(choice: JsonTree) -> bool {
    let delta = choice.member("delta"@);
    delta is Some && (holds_text(delta->0, "content"@) || holds_text(delta->0, "reasoning_content"@)
        || holds_text(delta->0, "reasoning"@))
}

/// What an event tells of the answer. The first response is that of the first
/// event with a choice, the first token that of the first event whose choice
/// says something; both stay. Such an event is a chunk of content, with the
/// tokens that it lists. The latest reported counts hold.
pub proof fn law_events_tell_of_the_answer(
    stream: StreamView,
    event: JsonTree,
    choices: Seq<JsonTree>,
    now: u128,
)
    ensures
        ({
            let next = stream.after_event(event, now);
            let chosen = event.member("choices"@) == Some(JsonTree::List(choices))
                && choices.len() > 0;
            let said = chosen && says_something(choices[0]);
            &&& stream.first_response_ts is Some ==> next.first_response_ts
                == stream.first_response_ts
            &&& stream.first_token_ts is Some ==> next.first_token_ts == stream.first_token_ts
            &&& chosen && stream.first_response_ts is None ==> next.first_response_ts == Some(now)
            &&& said && stream.first_token_ts is None ==> next.first_token_ts == Some(now)
            &&& said ==> next.content_chunks == stream.content_chunks.push(
                ChunkView {
                    timestamp: now,
                    token_ids: match choices[0].member("token_ids"@) {
                        Some(JsonTree::List(ids)) => Some(ids),
                        _ => None,
                    },
                },
            )
            &&& chosen && !said ==> next.content_chunks == stream.content_chunks
                && next.first_token_ts == stream.first_token_ts
            &&& event.member("choices"@) is None || event.member("choices"@) == Some(
                JsonTree::List(Seq::empty()),
            ) ==> {
                &&& next.first_response_ts == stream.first_response_ts
                &&& next.first_token_ts == stream.first_token_ts
                &&& next.content_chunks == stream.content_chunks
            }
        }),
{
}

/// The latest counts that an event reports hold, and without one those before
/// it.
pub proof fn law_latest_counts_hold(
    stream: StreamView,
    event: JsonTree,
    usage: JsonTree,
    tokens: u64,
    now: u128,
)
    requires
        event.member("usage"@) == Some(usage) || event.member("usage"@) is None,
    ensures
        ({
            let next = stream.after_event(event, now);
            let told = event.member("usage"@) is Some;
            &&& told && usage.member("prompt_tokens"@) == Some(JsonTree::Count(tokens))
                ==> next.prompt_tokens == tokens as usize
            &&& !told || usage.member("prompt_tokens"@) is None ==> next.prompt_tokens
                == stream.prompt_tokens
            &&& told && usage.member("completion_tokens"@) == Some(JsonTree::Count(tokens))
                ==> next.usage_completion_tokens == Some(tokens as usize)
            &&& !told || usage.member("completion_tokens"@) is None
                ==> next.usage_completion_tokens == stream.usage_completion_tokens
        }),
{
}

/// The member of an object is the first one with its key.
pub proof fn law_members_are_found_by_key(
    members: Seq<(Seq<char>, JsonTree)>,
    key: Seq<char>,
    at: int,
)
    ensures
        0 <= at < members.len() && members[at].0 == key && (forall|i: int|
            0 <= i < at ==> (#[trigger] members[i]).0 != key) ==> JsonTree::Members(members).member(
            key,
        ) == Some(members[at].1),
        (forall|i: int| 0 <= i < members.len() ==> (#[trigger] members[i]).0 != key)
            ==> JsonTree::Members(members).member(key) is None,
    decreases members.len(),
{
    if members.len() > 0 {
        let rest = members.drop_first();
        law_members_are_found_by_key(rest, key, at - 1);
        assert(forall|i: int| 0 <= i < rest.len() ==> rest[i] == #[trigger] members[i + 1]);
        if 0 < at < members.len() && members[at].0 == key && (forall|i: int|
            0 <= i < at ==> (#[trigger] members[i]).0 != key) {
            assert(members[0].0 != key);
            assert forall|i: int| 0 <= i < at - 1 implies (#[trigger] rest[i]).0 != key by {
                assert(members[i + 1].0 != key);
            }
            assert(rest[at - 1] == members[at]);
            assert(lookup(rest, key) == Some(members[at].1));
        }
        if forall|i: int| 0 <= i < members.len() ==> (#[trigger] members[i]).0 != key {
            assert(members[0].0 != key);
            assert forall|i: int| 0 <= i < rest.len() implies (#[trigger] rest[i]).0 != key by {
                assert(members[i + 1].0 != key);
            }
        }
    }
}

/// A line tells of an event if it starts with `data:`; white space around the
/// rest does not matter. `[DONE]` and nothing are no events. A rest that is no
/// JSON is a failure.
pub proof fn law_lines_carry_events(
    stream: StreamView,
    before: Seq<char>,
    data: Seq<char>,
    behind: Seq<char>,
    now: u128,
    endpoint: Seq<char>,
)
    requires
        blank(before),
        blank(behind),
        data.len() > 0 ==> !is_space(data[0]) && !is_space(data.last()),
    ensures
        ({
            let line = "data:"@ + (before + data + behind);
            stream.after_line(line, now, endpoint) == if data.len() == 0 || data == "[DONE]"@ {
                Ok::<StreamView, ErrorView>(stream)
            } else {
                match reading(data) {
                    Ok(event) => Ok(stream.after_event(event, now)),
                    Err(words) => Err(
                        ErrorView::Json { context: "SSE event from "@ + endpoint, source: words },
                    ),
                }
            }
        }),
{
    law_prefixes_are_taken_off("data:"@, before + data + behind, Seq::empty());
    law_trimming_leaves_the_middle(before, data, behind);
}

/// Other lines tell nothing.
pub proof fn law_other_lines_tell_nothing(
    stream: StreamView,
    line: Seq<char>,
    now: u128,
    endpoint: Seq<char>,
)
    requires
        forall|rest: Seq<char>| line != #[trigger] ("data:"@ + rest),
    ensures
        stream.after_line(line, now, endpoint) == Ok::<StreamView, ErrorView>(stream),
{
    law_prefixes_are_taken_off("data:"@, Seq::empty(), line);
    if let Some(rest) = crate::text::stripped(line, "data:"@) {
        assert(line == "data:"@ + rest);
    }
}

proof fn lemma_first_line(line: Seq<u8>, rest: Seq<u8>)
    requires
        forall|i: int| 0 <= i < line.len() ==> #[trigger] line[i] != 0x0a,
    ensures
        line_end(line) is None,
        line_end(line + seq![0x0au8] + rest) == Some(line.len() as int),
    decreases line.len(),
{
    let bytes = line + seq![0x0au8] + rest;
    if line.len() > 0 {
        assert(bytes.first() == line[0]);
        assert(bytes.drop_first() =~= line.drop_first() + seq![0x0au8] + rest);
        lemma_first_line(line.drop_first(), rest);
    } else {
        assert(bytes.first() == 0x0a);
    }
}

/// Bytes are read line by line, each up to its line feed and without carriage
/// returns at its end; a line that is wrong ends the reading. What no line
/// feed ends is kept.
pub proof fn law_bytes_are_read_line_by_line(
    stream: StreamView,
    line: Seq<u8>,
    text: Seq<char>,
    ends: Seq<char>,
    rest: Seq<u8>,
    now: u128,
    endpoint: Seq<char>,
)
    requires
        forall|i: int| 0 <= i < line.len() ==> #[trigger] line[i] != 0x0a,
        lossy(line) == text + ends,
        copies(ends, '\r'),
        text.len() > 0 ==> text.last() != '\r',
    ensures
        ({
            let read = read_lines(stream, line + seq![0x0au8] + rest, now, endpoint);
            match stream.after_line(text, now, endpoint) {
                Ok(next) => read == read_lines(next, rest, now, endpoint),
                Err(error) => read.failure == Some(error) && read.stream == stream && read.rest
                    == rest,
            }
        }),
        read_lines(stream, line, now, endpoint).stream == stream,
        read_lines(stream, line, now, endpoint).rest == line,
        read_lines(stream, line, now, endpoint).failure is None,
{
    let bytes = line + seq![0x0au8] + rest;
    lemma_first_line(line, rest);
    assert(bytes.take(line.len() as int) =~= line);
    assert(bytes.skip(line.len() + 1int) =~= rest);
    law_copies_are_trimmed(ends, text, '\r');
}

/// What no line feed ends is read as a line in the end, without the white space
/// around it; if there is nothing else, it tells nothing.
pub proof fn law_the_last_line_is_read_in_the_end(
    stream: StreamView,
    bytes: Seq<u8>,
    before: Seq<char>,
    line: Seq<char>,
    behind: Seq<char>,
    now: u128,
    endpoint: Seq<char>,
)
    requires
        bytes.len() > 0,
        lossy(bytes) == before + line + behind,
        blank(before),
        blank(behind),
        line.len() > 0 ==> !is_space(line[0]) && !is_space(line.last()),
    ensures
        read_tail(stream, bytes, now, endpoint) == if line.len() > 0 {
            stream.after_line(line, now, endpoint)
        } else {
            Ok::<StreamView, ErrorView>(stream)
        },
        read_tail(stream, Seq::empty(), now, endpoint) == Ok::<StreamView, ErrorView>(stream),
{
    law_trimming_leaves_the_middle(before, line, behind);
}

/// A result tells what its stream tells.
pub proof fn law_results_tell_what_the_stream_tells(
    result: RequestResult,
    stream: StreamView,
    start_ts: u128,
    end_ts: u128,
)
    requires
        result.tells(stream, start_ts, end_ts),
    ensures
        result.start_ts == start_ts,
        result.end_ts == end_ts,
        result.first_token_ts == stream.first_token_ts,
        result.first_response_ts == stream.first_response_ts,
        result.prompt_tokens == stream.prompt_tokens,
        result.total_tokens == stream.tokens().0,
        result.token_timestamps@ == stream.tokens().1,
{
}

/// Holds of the keys that every request has.
pub open spec fn is_common_key(key: Seq<char>) -> bool {
    key == "model"@ || key == "messages"@ || key == "max_tokens"@ || key == "stream"@
}

proof fn lemma_common_keys()
    ensures
        "model"@ != "messages"@,
        "model"@ != "max_tokens"@,
        "model"@ != "stream"@,
        "messages"@ != "max_tokens"@,
        "messages"@ != "stream"@,
        "max_tokens"@ != "stream"@,
        !is_common_key("return_token_ids"@),
        !is_common_key("stream_options"@),
        !is_common_key("cache_prompt"@),
        !is_common_key("min_tokens"@),
        !is_common_key("ignore_eos"@),
        "return_token_ids"@ != "stream_options"@,
        "return_token_ids"@ != "cache_prompt"@,
        "stream_options"@ != "cache_prompt"@,
        "min_tokens"@ != "ignore_eos"@,
{
    reveal_strlit("model");
    reveal_strlit("messages");
    reveal_strlit("max_tokens");
    reveal_strlit("stream");
    reveal_strlit("return_token_ids");
    reveal_strlit("stream_options");
    reveal_strlit("cache_prompt");
    reveal_strlit("min_tokens");
    reveal_strlit("ignore_eos");
    assert("model"@.len() == 5 && "messages"@.len() == 8 && "max_tokens"@.len() == 10
        && "stream"@.len() == 6 && "return_token_ids"@.len() == 16 && "stream_options"@.len() == 14
        && "cache_prompt"@.len() == 12 && "min_tokens"@.len() == 10 && "ignore_eos"@.len() == 10);
    assert("max_tokens"@[1] == 'a' && "min_tokens"@[1] == 'i' && "ignore_eos"@[1] == 'g');
}

/// The body of a plain request has the model, the messages, the most tokens and
/// whether to stream, and nothing else.
pub proof fn law_plain_requests_say_four_things(
    model: Seq<char>,
    messages: Seq<(Seq<char>, Seq<char>)>,
    max_tokens: usize,
    stream: bool,
    key: Seq<char>,
)
    ensures
        ({
            let fields = request_fields(model, messages, max_tokens, stream);
            &&& fields.contains_key(key) <==> is_common_key(key)
            &&& fields["model"@] == JsonTree::Text(model)
            &&& fields["messages"@] == chat_tree(messages)
            &&& fields["max_tokens"@] == JsonTree::Count(max_tokens as u64)
            &&& fields["stream"@] == JsonTree::Flag(stream)
        }),
{
    lemma_common_keys();
}

/// The body of a generation request: what the user's own fields do not say, and
/// an exact length does not force, is the model, the messages, the wanted
/// tokens, that the answer is streamed with token identifiers and usage, and
/// that it is not to be cached if the user wants that. There is nothing else.
pub proof fn law_generations_are_streamed_with_usage(
    client: LlmClient,
    messages: Seq<(Seq<char>, Seq<char>)>,
    max_tokens: usize,
    no_cache: bool,
    key: Seq<char>,
)
    ensures
        ({
            let fields = client.generation_fields(messages, max_tokens, no_cache);
            let own = client.extra_body@;
            let forced = key == "max_tokens"@ || key == "min_tokens"@ || key == "ignore_eos"@;
            let open = !own.contains_key(key) && !(client.exact_tg && forced);
            &&& open && key == "model"@ ==> fields.contains_pair(key, JsonTree::Text(client.model@))
            &&& open && key == "messages"@ ==> fields.contains_pair(key, chat_tree(messages))
            &&& open && key == "max_tokens"@ ==> fields.contains_pair(
                key,
                JsonTree::Count(max_tokens as u64),
            )
            &&& open && (key == "stream"@ || key == "return_token_ids"@) ==> fields.contains_pair(
                key,
                JsonTree::Flag(true),
            )
            &&& open && key == "stream_options"@ ==> fields.contains_pair(
                key,
                JsonTree::Members(seq![("include_usage"@, JsonTree::Flag(true))]),
            )
            &&& open && key == "cache_prompt"@ ==> (fields.contains_key(key) <==> no_cache)
            &&& open && !is_common_key(key) && key != "return_token_ids"@ && key
                != "stream_options"@ && key != "cache_prompt"@ ==> !fields.contains_key(key)
        }),
{
    lemma_common_keys();
}

/// The messages of a request, each with its role and what it says, and nothing
/// else.
pub proof fn law_messages_have_role_and_content(messages: Seq<(Seq<char>, Seq<char>)>, i: int)
    requires
        0 <= i < messages.len(),
    ensures
        chat_tree(messages) is List,
        chat_tree(messages)->List_0.len() == messages.len(),
        chat_tree(messages)->List_0[i] is Members,
        chat_tree(messages)->List_0[i]->Members_0.len() == 2,
        chat_tree(messages)->List_0[i].member("role"@) == Some(JsonTree::Text(messages[i].0)),
        chat_tree(messages)->List_0[i].member("content"@) == Some(JsonTree::Text(messages[i].1)),
{
    reveal_strlit("role");
    reveal_strlit("content");
    assert("role"@.len() == 4 && "content"@.len() == 7);
    let members = chat_tree(messages)->List_0[i]->Members_0;
    law_members_are_found_by_key(members, "role"@, 0);
    law_members_are_found_by_key(members, "content"@, 1);
}

/// The user says the prompt, after the context of the system if there is one.
/// A blank prompt is replaced by a full stop.
pub proof fn law_context_comes_before_the_prompt(context: Seq<char>, prompt: Seq<char>)
    ensures
        ({
            let messages = chat(context, prompt);
            &&& messages.last() == ("user"@, prompt)
            &&& messages.len() == if context.len() > 0 {
                2nat
            } else {
                1
            }
            &&& context.len() > 0 ==> messages[0] == ("system"@, context)
        }),
        blank(prompt) ==> asked(prompt) == seq!['.'],
        !blank(prompt) ==> asked(prompt) == prompt,
{
    lemma_full_stop();
    if blank(prompt) {
        law_trimming_leaves_the_middle(prompt, Seq::empty(), Seq::empty());
        assert(prompt + Seq::<char>::empty() + Seq::<char>::empty() =~= prompt);
    } else {
        lemma_trimmed_is_not_empty(prompt);
    }
}

proof fn lemma_full_stop()
    ensures
        CONTEXT_LOAD_USER_MESSAGE@ == seq!['.'],
{
    reveal_strlit(".");
}

proof fn lemma_trimmed_is_not_empty(s: Seq<char>)
    requires
        !blank(s),
    ensures
        trimmed(s).len() > 0,
{
    let drop = |c: char| is_space(c);
    let i = choose|i: int| 0 <= i < s.len() && !is_space(#[trigger] s[i]);
    lemma_prefix_keeps(s, drop, i);
    let rest = crate::text::after_prefix(s, drop);
    let j = choose|j: int| 0 <= j < rest.len() && !drop(#[trigger] rest[j]);
    lemma_suffix_keeps(rest, drop, j);
}

proof fn lemma_prefix_keeps(s: Seq<char>, drop: spec_fn(char) -> bool, i: int)
    requires
        0 <= i < s.len(),
        !drop(s[i]),
    ensures
        exists|j: int|
            0 <= j < crate::text::after_prefix(s, drop).len() && !drop(
                #[trigger] crate::text::after_prefix(s, drop)[j],
            ),
    decreases s.len(),
{
    let kept = crate::text::after_prefix(s, drop);
    if drop(s.first()) {
        assert(s.first() == s[0]);
        assert(s.drop_first()[i - 1] == s[i]);
        lemma_prefix_keeps(s.drop_first(), drop, i - 1);
        assert(kept == crate::text::after_prefix(s.drop_first(), drop));
        let j = choose|j: int| 0 <= j < kept.len() && !drop(#[trigger] kept[j]);
        assert(!drop(kept[j]));
    } else {
        assert(kept == s);
        assert(!drop(kept[0]));
    }
}

proof fn lemma_suffix_keeps(s: Seq<char>, drop: spec_fn(char) -> bool, i: int)
    requires
        0 <= i < s.len(),
        !drop(s[i]),
    ensures
        crate::text::before_suffix(s, drop).len() > 0,
    decreases s.len(),
{
    if drop(s.last()) {
        assert(s.drop_last()[i] == s[i]);
        lemma_suffix_keeps(s.drop_last(), drop, i);
    }
}

/// An address is the base URL, one slash, and the path without leading ones.
pub proof fn law_addresses_have_one_slash(base_url: Seq<char>, slashes: Seq<char>, path: Seq<char>)
    requires
        copies(slashes, '/'),
        path.len() == 0 || path[0] != '/',
    ensures
        address(base_url, slashes + path) == base_url + "/"@ + path,
{
    law_copies_are_trimmed(slashes, path, '/');
}

/// A stream that nothing was heard of tells of no tokens and no times.
pub proof fn law_streams_begin_silent(start_ts: u128, end_ts: u128, result: RequestResult)
    requires
        result.tells(StreamView::silent(), start_ts, end_ts),
    ensures
        result.prompt_tokens == 0,
        result.total_tokens == 0,
        result.first_token_ts is None,
        result.first_response_ts is None,
        result.token_timestamps@.len() == 0,
        StreamView::silent().usage_completion_tokens is None,
        StreamView::silent().content_chunks.len() == 0,
{
}

/// A key is sent as a bearer token, unless it is empty or `EMPTY`. One with a
/// control character other than the tab is refused.
pub proof fn law_keys_are_bearer_tokens(api_key: Seq<char>)
    ensures
        ({
            let none = api_key.len() == 0 || api_key == "EMPTY"@;
            let controlled = exists|i: int|
                0 <= i < api_key.len() && ((#[trigger] api_key[i] as u32) < 0x20 && api_key[i]
                    as u32 != 0x09 || api_key[i] as u32 == 0x7f);
            authorized(api_key) == if none {
                Ok::<Option<Seq<char>>, ErrorView>(None)
            } else if controlled {
                Err(ErrorView::Config("API key contains invalid header characters"@))
            } else {
                Ok(Some("Bearer "@ + api_key))
            }
        }),
{
    reveal_strlit("Bearer ");
    let value = "Bearer "@ + api_key;
    assert("Bearer "@.len() == 7);
    assert(forall|i: int| 0 <= i < api_key.len() ==> value[i + 7] == #[trigger] api_key[i]);
    if exists|i: int|
        0 <= i < api_key.len() && ((#[trigger] api_key[i] as u32) < 0x20 && api_key[i] as u32 != 0x09
            || api_key[i] as u32 == 0x7f) {
        let i = choose|i: int|
            0 <= i < api_key.len() && ((#[trigger] api_key[i] as u32) < 0x20 && api_key[i] as u32
                != 0x09 || api_key[i] as u32 == 0x7f);
        assert(!crate::client::header_char(value[i + 7]));
    } else {
        assert forall|i: int| 0 <= i < value.len() implies crate::client::header_char(
            #[trigger] value[i],
        ) by {
            if i >= 7 {
                assert(value[i] == api_key[i - 7]);
            }
        }
    }
}

/// An answer is coherent if it names Paris, whatever the case; the complaint
/// about another one quotes its first two hundred characters.
pub proof fn law_coherent_answers_name_paris(said: Seq<char>, lowered: Seq<char>)
    ensures
        incoherent(said, lowered) is None <==> exists|i: int| #[trigger]
            stands_at(lowered, "paris"@, i),
        incoherent(said, lowered) is Some ==> incoherent(said, lowered)->0 == ErrorView::Benchmark(
            "coherence check expected 'Paris', got "@ + quoted(
                said.take(
                    if said.len() < 200 {
                        said.len() as int
                    } else {
                        200
                    },
                ),
            ),
        ),
{
    law_first_occurrence_is_found(lowered, "paris"@);
    assert(said.take(said.len() as int) =~= said);
    if let Some(at) = crate::text::occurrence(lowered, "paris"@) {
        assert(stands_at(lowered, "paris"@, at));
    }
}

/// An answer is the content of its first choice and then its reasoning, under
/// either name; without a choice it is empty.
pub proof fn law_answers_are_content_and_reasoning(response: NonStreamingResponse)
    ensures
        response.choices@.len() == 0 ==> answer(response).len() == 0,
        response.choices@.len() > 0 ==> {
            let message = response.choices@[0].message;
            let content = match message.content {
                Some(text) => text@,
                None => Seq::empty(),
            };
            let reasoning = match message.reasoning {
                Some(text) => text@,
                None => Seq::empty(),
            };
            let reasoning_content = match message.reasoning_content {
                Some(text) => text@,
                None => Seq::empty(),
            };
            answer(response) == content + reasoning + reasoning_content
        },
{
}

/// The tokens of both texts are counted as prompts, and then as contexts of a
/// prompt that is a full stop; the short text comes first.
pub proof fn law_both_texts_are_probed_twice(short: Seq<char>, long: Seq<char>)
    ensures
        probed(short, long).len() == 4,
        probed(short, long)[0] == (Seq::<char>::empty(), short),
        probed(short, long)[1] == (Seq::<char>::empty(), long),
        probed(short, long)[2] == (short, seq!['.']),
        probed(short, long)[3] == (long, seq!['.']),
{
    lemma_full_stop();
}

proof fn lemma_sum_of_three(times: Seq<u128>)
    requires
        times.len() == 3,
    ensures
        sum(times) == times[0] + times[1] + times[2],
{
    reveal_with_fuel(sum, 4);
    assert(times.drop_last().drop_last().drop_last().len() == 0);
}

/// The latency of generations is the mean of the three that follow the
/// discarded ones, rounded down, and there is another one to make before all of
/// these are made; that of the interface is the time of its first answer; and
/// without a measurement there is none.
pub proof fn law_latency_is_measured_three_times(warmup_runs: usize, times: Seq<u128>)
    requires
        times.len() == warmup_runs + 3,
    ensures
        ({
            let generation = LatencyView::begun(LatencyMode::Generation, warmup_runs);
            let (a, b, c) = (
                times[warmup_runs as int],
                times[warmup_runs + 1],
                times[warmup_runs + 2],
            );
            let step = generation.recorded_all(times).next_step();
            &&& forall|n: int|
                0 <= n < times.len() ==> #[trigger] generation.recorded_all(
                    times.take(n),
                ).next_step() == LatencyStep::Generate
            &&& step is Baseline
            &&& 3 * step->Baseline_0 <= a + b + c < 3 * step->Baseline_0 + 3
        }),
        ({
            let api = LatencyView::begun(LatencyMode::Api, warmup_runs);
            &&& api.next_step() == LatencyStep::ListModels
            &&& api.recorded(times[0]).next_step() == LatencyStep::Baseline(times[0])
        }),
        LatencyView::begun(LatencyMode::Disabled, warmup_runs).next_step()
            == LatencyStep::Baseline(0),
{
    crate::client::law_latency_is_the_mean(warmup_runs, times);
    let generation = LatencyView::begun(LatencyMode::Generation, warmup_runs);
    assert forall|n: int| 0 <= n < times.len() implies #[trigger] generation.recorded_all(
        times.take(n),
    ).next_step() == LatencyStep::Generate by {
        crate::client::law_latency_is_the_mean(warmup_runs, times.take(n));
    }
    let kept = times.skip(warmup_runs as int);
    lemma_sum_of_three(kept);
    let all = kept[0] + kept[1] + kept[2];
    assert(MEASURED_RUNS == 3);
    assert(0 <= all / 3 <= u128::MAX);
}

} // verus!
