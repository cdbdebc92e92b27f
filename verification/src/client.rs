//! Requests to the endpoint and what their answers say.

use vstd::arithmetic::div_mod::lemma_div_is_ordered;
use vstd::arithmetic::div_mod::lemma_div_multiples_vanish;
use vstd::arithmetic::mul::lemma_mul_inequality;
use vstd::arithmetic::mul::lemma_mul_is_commutative;
use vstd::prelude::*;

use crate::clock::elapsed;
use crate::config::BenchmarkConfig;
use crate::config::LatencyMode;
use crate::error::Error;
use crate::error::ErrorView;
use crate::exact::mul_div;
use crate::json::contents;
use crate::json::copy_list;
use crate::json::parse;
use crate::json::reading;
use crate::json::Json;
use crate::json::JsonMap;
use crate::json::JsonTree;
use crate::prompt::fitted;
use crate::prompt::Calibration;
use crate::text::contains;
use crate::text::from_utf8_lossy;
use crate::text::lossy;
use crate::text::lower_case;
use crate::text::occurrence;
use crate::text::quote;
use crate::text::quoted;
use crate::text::same;
use crate::text::strip_prefix;
use crate::text::stripped;
use crate::text::to_lowercase;
use crate::text::trim;
use crate::text::trim_end_matches;
use crate::text::trim_start_matches;
use crate::text::trimmed;
use crate::text::trimmed_end;
use crate::text::trimmed_start;

verus! {

/// What the user says where there is nothing to ask.
pub const CONTEXT_LOAD_USER_MESSAGE: &'static str = ".";

/// What was observed of one generation request. Times are in ticks since the
/// client was made.
#[derive(Debug, Clone)]
pub struct RequestResult {
    pub start_ts: u128,
    pub end_ts: u128,
    pub first_token_ts: Option<u128>,
    pub first_response_ts: Option<u128>,
    pub prompt_tokens: usize,
    pub total_tokens: usize,
    pub token_timestamps: Vec<u128>,
}

/// A part of a streamed answer that holds text.
#[derive(Debug)]
pub struct ContentChunk {
    pub timestamp: u128,
    pub token_ids: Option<Vec<Json>>,
}

/// What a streamed answer has said so far.
#[derive(Debug)]
pub struct ParsedStream {
    pub prompt_tokens: usize,
    pub usage_completion_tokens: Option<usize>,
    pub first_response_ts: Option<u128>,
    pub first_token_ts: Option<u128>,
    pub content_chunks: Vec<ContentChunk>,
}

/// The content of a [`ContentChunk`].
pub struct ChunkView {
    pub timestamp: u128,
    pub token_ids: Option<Seq<JsonTree>>,
}

/// The content of a [`ParsedStream`].
#[verifier::ext_equal]
pub struct StreamView {
    pub prompt_tokens: usize,
    pub usage_completion_tokens: Option<usize>,
    pub first_response_ts: Option<u128>,
    pub first_token_ts: Option<u128>,
    pub content_chunks: Seq<ChunkView>,
}

impl View for ContentChunk {
    type V = ChunkView;

    open spec fn view(&self) -> ChunkView {
        ChunkView {
            timestamp: self.timestamp,
            token_ids: match self.token_ids {
                Some(ids) => Some(contents(ids@)),
                None => None,
            },
        }
    }
}

impl View for ParsedStream {
    type V = StreamView;

    open spec fn view(&self) -> StreamView {
        StreamView {
            prompt_tokens: self.prompt_tokens,
            usage_completion_tokens: self.usage_completion_tokens,
            first_response_ts: self.first_response_ts,
            first_token_ts: self.first_token_ts,
            content_chunks: Seq::new(
                self.content_chunks@.len(),
                |i: int| self.content_chunks@[i]@,
            ),
        }
    }
}

/// The count that `tree` has under the key, where it is an object that has
/// one there.
pub open spec fn count_under(tree: Option<JsonTree>, key: Seq<char>) -> Option<u64> {
    match tree {
        Some(object) => match object.member(key) {
            Some(JsonTree::Count(count)) => Some(count),
            _ => None,
        },
        None => None,
    }
}

/// The first of the choices of an event.
pub open spec fn first_choice(event: JsonTree) -> Option<JsonTree> {
    match event.member("choices"@) {
        Some(JsonTree::List(choices)) => if choices.len() > 0 {
            Some(choices[0])
        } else {
            None
        },
        _ => None,
    }
}

/// There is a text under the key, and it is not empty.
pub open spec fn text_under(tree: JsonTree, key: Seq<char>) -> bool {
    match tree.member(key) {
        Some(JsonTree::Text(text)) => text.len() > 0,
        _ => false,
    }
}

/// The choice adds to the content or to the reasoning.
pub open spec fn speaks(choice: JsonTree) -> bool {
    match choice.member("delta"@) {
        Some(delta) => text_under(delta, "content"@) || text_under(delta, "reasoning_content"@)
            || text_under(delta, "reasoning"@),
        None => false,
    }
}

/// The items that `tree` lists under the key.
pub open spec fn list_under(tree: JsonTree, key: Seq<char>) -> Option<Seq<JsonTree>> {
    match tree.member(key) {
        Some(JsonTree::List(items)) => Some(items),
        _ => None,
    }
}

/// The time that is known already, else `now`.
pub open spec fn known_or(time: Option<u128>, now: u128) -> Option<u128> {
    match time {
        Some(time) => Some(time),
        None => Some(now),
    }
}

impl StreamView {
    /// Nothing has been said.
    pub open spec fn silent() -> StreamView {
        StreamView {
            prompt_tokens: 0,
            usage_completion_tokens: None,
            first_response_ts: None,
            first_token_ts: None,
            content_chunks: Seq::empty(),
        }
    }

    /// The stream after an event that arrived at `now`.
    pub open spec fn after_event(self, event: JsonTree, now: u128) -> StreamView {
        let usage = event.member("usage"@);
        let choice = first_choice(event);
        let spoken = choice is Some && speaks(choice->0);
        StreamView {
            prompt_tokens: match count_under(usage, "prompt_tokens"@) {
                Some(tokens) => tokens as usize,
                None => self.prompt_tokens,
            },
            usage_completion_tokens: match count_under(usage, "completion_tokens"@) {
                Some(tokens) => Some(tokens as usize),
                None => self.usage_completion_tokens,
            },
            first_response_ts: if choice is Some {
                known_or(self.first_response_ts, now)
            } else {
                self.first_response_ts
            },
            first_token_ts: if spoken {
                known_or(self.first_token_ts, now)
            } else {
                self.first_token_ts
            },
            content_chunks: if spoken {
                self.content_chunks.push(
                    ChunkView {
                        timestamp: now,
                        token_ids: list_under(choice->0, "token_ids"@),
                    },
                )
            } else {
                self.content_chunks
            },
        }
    }

    /// The stream after a line that arrived at `now`, or what is wrong with
    /// the line.
    pub open spec fn after_line(
        self,
        line: Seq<char>,
        now: u128,
        endpoint: Seq<char>,
    ) -> Result<StreamView, ErrorView> {
        match event_text(line) {
            None => Ok(self),
            Some(data) => match reading(data) {
                Ok(event) => Ok(self.after_event(event, now)),
                Err(words) => Err(
                    ErrorView::Json { context: "SSE event from "@ + endpoint, source: words },
                ),
            },
        }
    }
}

/// The JSON text of the event that a line carries.
pub open spec fn event_text(line: Seq<char>) -> Option<Seq<char>> {
    match stripped(line, "data:"@) {
        None => None,
        Some(rest) => {
            let data = trimmed(rest);
            if data.len() == 0 || data == "[DONE]"@ {
                None
            } else {
                Some(data)
            }
        },
    }
}

/// The count that a value has under the key.
fn count_member(json: Option<&Json>, key: &str) -> (r: Option<u64>)
    ensures
        r == match json {
            Some(object) => count_under(Some(object@), key@),
            None => None,
        },
{
    match json {
        Some(object) => match object.member(key) {
            Some(Json::Count(count)) => Some(*count),
            _ => None,
        },
        None => None,
    }
}

/// Whether a value has a text under the key that is not empty.
fn text_member(json: &Json, key: &str) -> (r: bool)
    ensures
        r == text_under(json@, key@),
{
    match json.member(key) {
        Some(Json::Text(text)) => !text.as_str().is_empty(),
        _ => false,
    }
}

impl ParsedStream {
    /// A stream that has said nothing.
    pub fn new() -> (r: ParsedStream)
        ensures
            r@ == StreamView::silent(),
    {
        ParsedStream {
            prompt_tokens: 0,
            usage_completion_tokens: None,
            first_response_ts: None,
            first_token_ts: None,
            content_chunks: Vec::new(),
        }
    }

    /// Takes in an event that arrived at `now`.
    pub fn observe(&mut self, event: &Json, now: u128)
        ensures
            final(self)@ == old(self)@.after_event(event@, now),
    {
        let usage = event.member("usage");
        if let Some(tokens) = count_member(usage, "prompt_tokens") {
            self.prompt_tokens = tokens as usize;
        }
        if let Some(tokens) = count_member(usage, "completion_tokens") {
            self.usage_completion_tokens = Some(tokens as usize);
        }
        if let Some(Json::List(choices)) = event.member("choices") {
            if choices.len() == 0 {
                return;
            }
            let choice = &choices[0];
            if self.first_response_ts.is_none() {
                self.first_response_ts = Some(now);
            }
            if let Some(delta) = choice.member("delta") {
                if text_member(delta, "content") || text_member(delta, "reasoning_content")
                    || text_member(delta, "reasoning") {
                    if self.first_token_ts.is_none() {
                        self.first_token_ts = Some(now);
                    }
                    let token_ids = match choice.member("token_ids") {
                        Some(Json::List(items)) => {
                            let ids = copy_list(items);
                            assert(Json::List(*items)@->List_0 =~= contents(items@));
                            Some(ids)
                        },
                        _ => None,
                    };
                    let ghost before = self@.content_chunks;
                    let chunk = ContentChunk { timestamp: now, token_ids };
                    self.content_chunks.push(chunk);
                    assert(self@.content_chunks =~= before.push(chunk@));
                }
            }
        }
    }
}

/// Takes in a line of a streamed answer that arrived at `now`.
pub fn parse_sse_line(line: &str, now: u128, endpoint: &str, parsed: &mut ParsedStream) -> (r:
    Result<(), Error>)
    ensures
        match old(parsed)@.after_line(line@, now, endpoint@) {
            Ok(stream) => r is Ok && final(parsed)@ == stream,
            Err(error) => r is Err && r->Err_0@ == error && final(parsed)@ == old(parsed)@,
        },
{
    let rest = match strip_prefix(line, "data:") {
        Some(rest) => rest,
        None => {
            return Ok(());
        },
    };
    let data = trim(rest.as_str());
    if data.as_str().is_empty() || same(data.as_str(), "[DONE]") {
        return Ok(());
    }
    match parse(data.as_str()) {
        Ok(event) => {
            parsed.observe(&event, now);
            Ok(())
        },
        Err(words) => Err(
            Error::Json { context: "SSE event from ".to_owned().concat(endpoint), source: words },
        ),
    }
}

/// The place of the first line feed.
pub open spec fn line_end(bytes: Seq<u8>) -> Option<int>
    decreases bytes.len(),
{
    if bytes.len() == 0 {
        None
    } else if bytes.first() == 0x0a {
        Some(0)
    } else {
        match line_end(bytes.drop_first()) {
            None => None,
            Some(i) => Some(i + 1),
        }
    }
}

/// The text of a line, without carriage returns at its end.
pub open spec fn line_text(bytes: Seq<u8>) -> Seq<char> {
    trimmed_end(lossy(bytes), '\r')
}

/// What comes of reading the whole lines among some bytes.
#[verifier::ext_equal]
pub struct LinesRead {
    pub stream: StreamView,
    /// The bytes that were not read.
    pub rest: Seq<u8>,
    /// What is wrong with the last line that was read.
    pub failure: Option<ErrorView>,
}

/// Reads the whole lines among `bytes`, up to the first that is wrong. All of
/// them arrived at `now`.
pub open spec fn read_lines(
    stream: StreamView,
    bytes: Seq<u8>,
    now: u128,
    endpoint: Seq<char>,
) -> LinesRead
    decreases bytes.len(),
{
    match line_end(bytes) {
        None => LinesRead { stream, rest: bytes, failure: None },
        Some(i) => if 0 <= i < bytes.len() {
            match stream.after_line(line_text(bytes.take(i)), now, endpoint) {
                Err(error) => LinesRead { stream, rest: bytes.skip(i + 1), failure: Some(error) },
                Ok(next) => read_lines(next, bytes.skip(i + 1), now, endpoint),
            }
        } else {
            LinesRead { stream, rest: bytes, failure: None }
        },
    }
}

/// The stream after its last bytes, which no line feed ends.
pub open spec fn read_tail(
    stream: StreamView,
    bytes: Seq<u8>,
    now: u128,
    endpoint: Seq<char>,
) -> Result<StreamView, ErrorView> {
    let line = trimmed(lossy(bytes));
    if bytes.len() > 0 && line.len() > 0 {
        stream.after_line(line, now, endpoint)
    } else {
        Ok(stream)
    }
}

/// Bytes of an answer, and when they arrived.
pub struct Arrival {
    pub bytes: Seq<u8>,
    pub time: u128,
}

/// What comes of reading the whole lines of an answer as its bytes arrive, up
/// to the first line that is wrong.
pub open spec fn read_arrivals(arrivals: Seq<Arrival>, endpoint: Seq<char>) -> LinesRead
    decreases arrivals.len(),
{
    if arrivals.len() == 0 {
        LinesRead { stream: StreamView::silent(), rest: Seq::empty(), failure: None }
    } else {
        let before = read_arrivals(arrivals.drop_last(), endpoint);
        let last = arrivals.last();
        if before.failure is None {
            read_lines(before.stream, before.rest + last.bytes, last.time, endpoint)
        } else {
            before
        }
    }
}

/// The stream of a whole answer, or what is wrong with it. `tail_ts` is the
/// time of what no line feed ends.
pub open spec fn read_answer(
    arrivals: Seq<Arrival>,
    tail_ts: u128,
    endpoint: Seq<char>,
) -> Result<StreamView, ErrorView> {
    let read = read_arrivals(arrivals, endpoint);
    match read.failure {
        Some(error) => Err(error),
        None => read_tail(read.stream, read.rest, tail_ts, endpoint),
    }
}

/// Each time is not before the one before it.
pub open spec fn ascending(times: Seq<u128>) -> bool {
    forall|i: int, j: int| 0 <= i <= j < times.len() ==> times[i] <= times[j]
}

/// Each of the times lies between `from` and `to`.
pub open spec fn within(times: Seq<u128>, from: u128, to: u128) -> bool {
    forall|i: int| 0 <= i < times.len() ==> from <= #[trigger] times[i] <= to
}

/// The bytes arrive in the order of time, from `start` on and not after `end`.
pub open spec fn in_clock_order(arrivals: Seq<Arrival>, start: u128, end: u128) -> bool {
    &&& forall|i: int|
        0 <= i < arrivals.len() ==> start <= (#[trigger] arrivals[i]).time && arrivals[i].time
            <= end
    &&& forall|i: int, j: int|
        0 <= i <= j < arrivals.len() ==> (#[trigger] arrivals[i]).time <= (
        #[trigger] arrivals[j]).time
    &&& start <= end
}

/// All bytes arrive at one time.
pub open spec fn all_at(arrivals: Seq<Arrival>, now: u128) -> bool {
    forall|i: int| 0 <= i < arrivals.len() ==> (#[trigger] arrivals[i]).time == now
}

impl RequestResult {
    /// A first token implies a first response; the request starts before both,
    /// the first response comes not after the first token, and both not after
    /// the end. The tokens come in order, from the first one on.
    pub open spec fn in_order(self) -> bool {
        let times = self.token_timestamps@;
        &&& self.first_token_ts is Some ==> {
            &&& self.first_response_ts is Some
            &&& self.first_response_ts->0 <= self.first_token_ts->0 <= self.end_ts
        }
        &&& self.first_response_ts is Some ==> self.start_ts <= self.first_response_ts->0
            <= self.end_ts
        &&& ascending(times)
        &&& times.len() > 0 ==> self.first_token_ts is Some && within(
            times,
            self.first_token_ts->0,
            self.end_ts,
        )
    }

    /// The result is what a stream says of a request from `start_ts` to
    /// `end_ts`.
    pub open spec fn tells(self, stream: StreamView, start_ts: u128, end_ts: u128) -> bool {
        &&& self.start_ts == start_ts
        &&& self.end_ts == end_ts
        &&& self.first_token_ts == stream.first_token_ts
        &&& self.first_response_ts == stream.first_response_ts
        &&& self.prompt_tokens == stream.prompt_tokens
        &&& self.total_tokens == stream.tokens().0
        &&& self.token_timestamps@ == stream.tokens().1
    }
}

proof fn lemma_line_end(bytes: Seq<u8>, at: int)
    requires
        0 <= at <= bytes.len(),
        forall|i: int| 0 <= i < at ==> #[trigger] bytes[i] != 0x0a,
        at < bytes.len() ==> bytes[at] == 0x0a,
    ensures
        line_end(bytes) == if at < bytes.len() {
            Some(at)
        } else {
            None::<int>
        },
    decreases at,
{
    if at > 0 {
        assert(bytes[0] != 0x0a);
        lemma_line_end(bytes.drop_first(), at - 1);
    }
}

/// A streamed answer that is being read.
#[derive(Debug)]
pub struct SseReader {
    /// Where the answer comes from.
    pub endpoint: String,
    /// Bytes of a line that has not ended yet.
    pub buffer: Vec<u8>,
    pub parsed: ParsedStream,
}

/// The bytes from `from` up to `to`.
fn bytes_between(bytes: &Vec<u8>, from: usize, to: usize) -> (r: Vec<u8>)
    requires
        from <= to <= bytes.len(),
    ensures
        r@ == bytes@.subrange(from as int, to as int),
{
    let mut part: Vec<u8> = Vec::new();
    let mut i: usize = from;
    while i < to
        invariant
            from <= i <= to <= bytes.len(),
            part@ == bytes@.subrange(from as int, i as int),
        decreases to - i,
    {
        part.push(bytes[i]);
        i += 1;
        assert(bytes@.subrange(from as int, i as int) == bytes@.subrange(
            from as int,
            i - 1,
        ).push(bytes@[i - 1]));
    }
    part
}

impl SseReader {
    /// These bytes have been taken in, and nothing was wrong with them.
    pub open spec fn has_read(self, arrivals: Seq<Arrival>) -> bool {
        read_arrivals(arrivals, self.endpoint@) == (LinesRead {
            stream: self.parsed@,
            rest: self.buffer@,
            failure: None,
        })
    }

    /// A reader that has read nothing.
    pub fn new(endpoint: String) -> (r: SseReader)
        ensures
            r.endpoint == endpoint,
            r.buffer@ == Seq::<u8>::empty(),
            r.parsed@ == StreamView::silent(),
            r.has_read(Seq::empty()),
    {
        SseReader { endpoint, buffer: Vec::new(), parsed: ParsedStream::new() }
    }

    /// Takes in a chunk of bytes that arrived at `now`: all events in it have
    /// that time.
    pub fn feed(&mut self, chunk: &[u8], now: u128) -> (r: Result<(), Error>)
        ensures
            final(self).endpoint == old(self).endpoint,
            ({
                let read = read_lines(
                    old(self).parsed@,
                    old(self).buffer@ + chunk@,
                    now,
                    old(self).endpoint@,
                );
                &&& final(self).parsed@ == read.stream
                &&& final(self).buffer@ == read.rest
                &&& match r {
                    Ok(()) => read.failure is None,
                    Err(error) => read.failure == Some(error@),
                }
            }),
            forall|arrivals: Seq<Arrival>| #[trigger]
                old(self).has_read(arrivals) ==> {
                    let more = arrivals.push(Arrival { bytes: chunk@, time: now });
                    match r {
                        Ok(()) => final(self).has_read(more),
                        Err(error) => read_arrivals(more, old(self).endpoint@).failure == Some(
                            error@,
                        ),
                    }
                },
    {
        let mut bytes: Vec<u8> = self.buffer.clone();
        bytes.extend_from_slice(chunk);
        let ghost all = old(self).buffer@ + chunk@;
        assert(bytes@ =~= all);
        let ghost read = read_lines(old(self).parsed@, all, now, self.endpoint@);
        let mut from: usize = 0;
        let mut at: usize = 0;
        assert(bytes@.skip(0) =~= bytes@);
        while at < bytes.len()
            invariant
                from <= at <= bytes.len(),
                bytes@ == all,
                all == old(self).buffer@ + chunk@,
                self.endpoint == old(self).endpoint,
                read == read_lines(old(self).parsed@, all, now, old(self).endpoint@),
                forall|i: int| from <= i < at ==> #[trigger] bytes@[i] != 0x0a,
                read == read_lines(self.parsed@, bytes@.skip(from as int), now, self.endpoint@),
            decreases bytes.len() - at,
        {
            if bytes[at] == 0x0a {
                let ghost rest = bytes@.skip(from as int);
                proof {
                    assert forall|i: int| 0 <= i < at - from implies #[trigger] rest[i] != 0x0a by {
                        assert(rest[i] == bytes@[from + i]);
                    }
                    lemma_line_end(rest, at - from);
                    assert(rest.take(at - from) =~= bytes@.subrange(from as int, at as int));
                    assert(rest.skip(at - from + 1) =~= bytes@.skip(at + 1));
                }
                let line = from_utf8_lossy(bytes_between(&bytes, from, at).as_slice());
                let line = trim_end_matches(line.as_str(), '\r');
                from = at + 1;
                let outcome = parse_sse_line(
                    line.as_str(),
                    now,
                    self.endpoint.as_str(),
                    &mut self.parsed,
                );
                if outcome.is_err() {
                    self.buffer = bytes_between(&bytes, from, bytes.len());
                    proof {
                        assert(self.buffer@ =~= bytes@.skip(from as int));
                        lemma_one_more_arrival(*old(self), chunk@, now);
                    }
                    return outcome;
                }
            }
            at += 1;
        }
        proof {
            let rest = bytes@.skip(from as int);
            assert forall|i: int| 0 <= i < rest.len() implies #[trigger] rest[i] != 0x0a by {
                assert(rest[i] == bytes@[from + i]);
            }
            lemma_line_end(rest, rest.len() as int);
        }
        self.buffer = bytes_between(&bytes, from, bytes.len());
        proof {
            assert(self.buffer@ =~= bytes@.skip(from as int));
            lemma_one_more_arrival(*old(self), chunk@, now);
        }
        Ok(())
    }

    /// Ends the answer. `start_ts` is the time of the request, `tail_ts` that
    /// of what has not been read yet, `end_ts` that of the end.
    pub fn finish(self, start_ts: u128, tail_ts: u128, end_ts: u128) -> (r: Result<
        RequestResult,
        Error,
    >)
        ensures
            match read_tail(self.parsed@, self.buffer@, tail_ts, self.endpoint@) {
                Err(error) => r is Err && r->Err_0@ == error,
                Ok(stream) => r is Ok && r->Ok_0.tells(stream, start_ts, end_ts),
            },
            forall|arrivals: Seq<Arrival>| #[trigger]
                self.has_read(arrivals) ==> match read_answer(arrivals, tail_ts, self.endpoint@) {
                    Err(error) => r is Err && r->Err_0@ == error,
                    Ok(stream) => r is Ok && r->Ok_0.tells(stream, start_ts, end_ts),
                },
            forall|arrivals: Seq<Arrival>| #[trigger]
                self.has_read(arrivals) && r is Ok && tail_ts <= end_ts && in_clock_order(
                    arrivals,
                    start_ts,
                    tail_ts,
                ) ==> r->Ok_0.in_order(),
            forall|arrivals: Seq<Arrival>, now: u128| #[trigger]
                self.has_read(arrivals) && #[trigger] all_at(arrivals, now) && r is Ok
                    && self.buffer@.len() == 0 ==> within(r->Ok_0.token_timestamps@, now, now),
    {
        let ghost reader = self;
        let mut parsed = self.parsed;
        if self.buffer.len() > 0 {
            let line = from_utf8_lossy(self.buffer.as_slice());
            let line = trim(line.as_str());
            if !line.as_str().is_empty() {
                if let Err(error) = parse_sse_line(
                    line.as_str(),
                    tail_ts,
                    self.endpoint.as_str(),
                    &mut parsed,
                ) {
                    return Err(error);
                }
            }
        }
        let (total_tokens, token_timestamps) = finalize_tokens(&parsed);
        let result = RequestResult {
            start_ts,
            end_ts,
            first_token_ts: parsed.first_token_ts,
            first_response_ts: parsed.first_response_ts,
            prompt_tokens: parsed.prompt_tokens,
            total_tokens,
            token_timestamps,
        };
        proof {
            let endpoint = reader.endpoint@;
            assert forall|arrivals: Seq<Arrival>| #[trigger]
                reader.has_read(arrivals) && tail_ts <= end_ts && in_clock_order(
                    arrivals,
                    start_ts,
                    tail_ts,
                ) implies result.in_order() by {
                law_times_of_an_answer_are_in_order(
                    arrivals,
                    start_ts,
                    tail_ts,
                    end_ts,
                    endpoint,
                    result,
                );
            }
            assert forall|arrivals: Seq<Arrival>, now: u128| #[trigger]
                reader.has_read(arrivals) && #[trigger] all_at(arrivals, now)
                    && reader.buffer@.len() == 0 implies within(
                result.token_timestamps@,
                now,
                now,
            ) by {
                law_one_chunk_is_a_burst(arrivals, now, tail_ts, endpoint);
            }
        }
        Ok(result)
    }
}

/// What a reader has read after one more chunk.
proof fn lemma_one_more_arrival(reader: SseReader, chunk: Seq<u8>, now: u128)
    ensures
        forall|arrivals: Seq<Arrival>| #[trigger]
            reader.has_read(arrivals) ==> read_arrivals(
                arrivals.push(Arrival { bytes: chunk, time: now }),
                reader.endpoint@,
            ) == read_lines(reader.parsed@, reader.buffer@ + chunk, now, reader.endpoint@),
{
    assert forall|arrivals: Seq<Arrival>| #[trigger] reader.has_read(arrivals) implies read_arrivals(
        arrivals.push(Arrival { bytes: chunk, time: now }),
        reader.endpoint@,
    ) == read_lines(reader.parsed@, reader.buffer@ + chunk, now, reader.endpoint@) by {
        assert(arrivals.push(Arrival { bytes: chunk, time: now }).drop_last() == arrivals);
    }
}

/// The times of `count` tokens that arrived with a chunk: they are spread
/// evenly over the time since the last token, and the last one has the time
/// of the chunk. Before the first token, `first` stands for that time.
pub open spec fn with_chunk_tokens(
    times: Seq<u128>,
    chunk_time: u128,
    count: nat,
    first: Option<u128>,
) -> Seq<u128> {
    let last = if times.len() > 0 {
        times.last()
    } else {
        match first {
            Some(first) => first,
            None => chunk_time,
        }
    };
    let width = elapsed(last, chunk_time);
    times + Seq::new(count, |i: int| (last + (width * (i + 1)) / (count as int)) as u128)
}

/// The times of the tokens of chunks that list them.
pub open spec fn listed_token_times(chunks: Seq<ChunkView>, first: Option<u128>) -> Seq<u128>
    decreases chunks.len(),
{
    if chunks.len() == 0 {
        Seq::empty()
    } else {
        let chunk = chunks.last();
        with_chunk_tokens(
            listed_token_times(chunks.drop_last(), first),
            chunk.timestamp,
            chunk.token_ids->0.len(),
            first,
        )
    }
}

/// `count` times spread evenly from the first chunk to the last one.
pub open spec fn spread_times(chunk_times: Seq<u128>, count: nat) -> Seq<u128> {
    let first = chunk_times[0];
    let last = chunk_times.last();
    if count == 0 || chunk_times.len() == 0 {
        Seq::empty()
    } else if count == 1 || chunk_times.len() == 1 || last <= first {
        Seq::new(count, |i: int| first)
    } else {
        Seq::new(count, |i: int| (first + ((last - first) * i) / (count - 1)) as u128)
    }
}

/// When the chunks arrived.
pub open spec fn arrivals(chunks: Seq<ChunkView>) -> Seq<u128> {
    Seq::new(chunks.len(), |i: int| chunks[i].timestamp)
}

impl StreamView {
    pub open spec fn chunk_times(self) -> Seq<u128> {
        arrivals(self.content_chunks)
    }

    /// Every chunk lists its tokens.
    pub open spec fn lists_tokens(self) -> bool {
        forall|i: int|
            0 <= i < self.content_chunks.len() ==> (#[trigger] self.content_chunks[i]).token_ids
                is Some
    }

    /// How many tokens were generated, and when. Where every chunk lists its
    /// tokens these count, else what the endpoint reports, else the chunks.
    pub open spec fn tokens(self) -> (nat, Seq<u128>) {
        if self.content_chunks.len() == 0 {
            (
                match self.usage_completion_tokens {
                    Some(count) => count as nat,
                    None => 0,
                },
                Seq::empty(),
            )
        } else if self.lists_tokens() {
            let times = listed_token_times(self.content_chunks, self.first_token_ts);
            (times.len(), times)
        } else {
            match self.usage_completion_tokens {
                Some(count) => (count as nat, spread_times(self.chunk_times(), count as nat)),
                None => (self.content_chunks.len(), self.chunk_times()),
            }
        }
    }
}

/// `whole * part / count` for a `part` that is not more than `count`.
fn share(whole: u128, part: usize, count: usize) -> (r: u128)
    requires
        part <= count,
        count > 0,
    ensures
        r == (whole * part) / (count as int),
        r <= whole,
{
    proof {
        lemma_mul_inequality(part as int, count as int, whole as int);
        lemma_mul_is_commutative(part as int, whole as int);
        lemma_div_is_ordered(whole * part, count * whole, count as int);
        lemma_div_multiples_vanish(whole as int, count as int);
    }
    let (quotient, _) = mul_div(whole, part as u128, count as u128);
    match quotient {
        Some(value) => value,
        None => 0,
    }
}

/// Adds the times of `count` tokens that arrived with a chunk.
fn append_interpolated(
    timestamps: &mut Vec<u128>,
    chunk_time: u128,
    count: usize,
    first: Option<u128>,
)
    ensures
        final(timestamps)@ == with_chunk_tokens(
            old(timestamps)@,
            chunk_time,
            count as nat,
            first,
        ),
{
    let known: usize = timestamps.len();
    let last: u128 = if known > 0 {
        timestamps[known - 1]
    } else {
        match first {
            Some(first) => first,
            None => chunk_time,
        }
    };
    let width: u128 = chunk_time.saturating_sub(last);
    let ghost goal = with_chunk_tokens(old(timestamps)@, chunk_time, count as nat, first);
    let mut i: usize = 0;
    while i < count
        invariant
            i <= count,
            known == old(timestamps)@.len(),
            goal == with_chunk_tokens(old(timestamps)@, chunk_time, count as nat, first),
            goal.len() == known + count,
            width == elapsed(last, chunk_time),
            last == if known > 0 {
                old(timestamps)@.last()
            } else {
                match first {
                    Some(first) => first,
                    None => chunk_time,
                }
            },
            timestamps@ == goal.take(known + i),
        decreases count - i,
    {
        i += 1;
        let part: u128 = share(width, i, count);
        timestamps.push(last + part);
        assert(goal[known + i - 1] == last + part);
        assert(goal.take(known + i) == goal.take(known + i - 1).push(goal[known + i - 1]));
    }
    assert(goal.take(known + count) == goal);
}

/// `count` times spread evenly from the first chunk to the last one.
fn interpolate_range(chunk_times: &Vec<u128>, count: usize) -> (r: Vec<u128>)
    ensures
        r@ == spread_times(chunk_times@, count as nat),
{
    let mut times: Vec<u128> = Vec::new();
    let chunks: usize = chunk_times.len();
    if count == 0 || chunks == 0 {
        return times;
    }
    let first: u128 = chunk_times[0];
    let last: u128 = chunk_times[chunks - 1];
    let level = count == 1 || chunks == 1 || last <= first;
    let ghost goal = spread_times(chunk_times@, count as nat);
    let mut i: usize = 0;
    while i < count
        invariant
            i <= count,
            chunks == chunk_times@.len(),
            chunks > 0,
            first == chunk_times@[0],
            last == chunk_times@.last(),
            level == (count == 1 || chunks == 1 || last <= first),
            goal == spread_times(chunk_times@, count as nat),
            goal.len() == count,
            times@ == goal.take(i as int),
        decreases count - i,
    {
        if level {
            times.push(first);
        } else {
            times.push(first + share(last - first, i, count - 1));
        }
        i += 1;
        assert(goal.take(i as int) == goal.take(i - 1).push(goal[i - 1]));
    }
    assert(goal.take(count as int) == goal);
    times
}

/// How many tokens a streamed answer has, and when they arrived.
pub fn finalize_tokens(parsed: &ParsedStream) -> (r: (usize, Vec<u128>))
    ensures
        (r.0 as nat, r.1@) == parsed@.tokens(),
{
    let ghost chunks = parsed@.content_chunks;
    let mut times: Vec<u128> = Vec::new();
    if parsed.content_chunks.len() == 0 {
        return (
            match parsed.usage_completion_tokens {
                Some(count) => count,
                None => 0,
            },
            times,
        );
    }
    let mut listed = true;
    let mut chunk_times: Vec<u128> = Vec::new();
    let mut i: usize = 0;
    while i < parsed.content_chunks.len()
        invariant
            i <= parsed.content_chunks.len(),
            chunks == parsed@.content_chunks,
            listed == (forall|j: int| 0 <= j < i ==> (#[trigger] chunks[j]).token_ids is Some),
            listed ==> times@ == listed_token_times(chunks.take(i as int), parsed.first_token_ts),
            chunk_times@ == parsed@.chunk_times().take(i as int),
        decreases parsed.content_chunks.len() - i,
    {
        let chunk = &parsed.content_chunks[i];
        assert(chunks[i as int] == chunk@);
        assert(chunks.take(i + 1).drop_last() == chunks.take(i as int));
        match &chunk.token_ids {
            Some(ids) => {
                append_interpolated(&mut times, chunk.timestamp, ids.len(), parsed.first_token_ts);
            },
            None => {
                listed = false;
            },
        }
        chunk_times.push(chunk.timestamp);
        i += 1;
        assert(parsed@.chunk_times().take(i as int) == parsed@.chunk_times().take(i - 1).push(
            chunk.timestamp,
        ));
    }
    assert(chunks.take(i as int) == chunks);
    assert(parsed@.chunk_times().take(i as int) == parsed@.chunk_times());
    if listed {
        return (times.len(), times);
    }
    match parsed.usage_completion_tokens {
        Some(count) => (count, interpolate_range(&chunk_times, count)),
        None => (chunk_times.len(), chunk_times),
    }
}

/// A message of a chat.
#[derive(Debug)]
pub struct Message {
    pub role: String,
    pub content: String,
}

/// The contents of messages: their roles and what they say.
pub open spec fn spoken(messages: Seq<Message>) -> Seq<(Seq<char>, Seq<char>)> {
    Seq::new(messages.len(), |i: int| (messages[i].role@, messages[i].content@))
}

/// The chat that asks `prompt`, after the context where there is one.
pub open spec fn chat(context: Seq<char>, prompt: Seq<char>) -> Seq<(Seq<char>, Seq<char>)> {
    if context.len() > 0 {
        seq![("system"@, context), ("user"@, prompt)]
    } else {
        seq![("user"@, prompt)]
    }
}

/// What the user says: the prompt, unless it is blank.
pub open spec fn asked(prompt: Seq<char>) -> Seq<char> {
    if trimmed(prompt).len() == 0 {
        CONTEXT_LOAD_USER_MESSAGE@
    } else {
        prompt
    }
}

/// The chat that asks `prompt`, after the context where there is one.
pub fn chat_messages(context: &str, prompt: &str) -> (r: Vec<Message>)
    ensures
        spoken(r@) == chat(context@, prompt@),
{
    let mut messages: Vec<Message> = Vec::new();
    if !context.is_empty() {
        messages.push(Message { role: "system".to_owned(), content: context.to_owned() });
    }
    messages.push(Message { role: "user".to_owned(), content: prompt.to_owned() });
    messages
}

/// The chat of a generation request: a blank prompt is replaced.
pub fn generation_messages(context: &str, prompt: &str) -> (r: Vec<Message>)
    ensures
        spoken(r@) == chat(context@, asked(prompt@)),
{
    if trim(prompt).as_str().is_empty() {
        chat_messages(context, CONTEXT_LOAD_USER_MESSAGE)
    } else {
        chat_messages(context, prompt)
    }
}

/// The JSON of a chat.
pub open spec fn chat_tree(messages: Seq<(Seq<char>, Seq<char>)>) -> JsonTree {
    JsonTree::List(
        Seq::new(
            messages.len(),
            |i: int|
                JsonTree::Members(
                    seq![
                        ("role"@, JsonTree::Text(messages[i].0)),
                        ("content"@, JsonTree::Text(messages[i].1)),
                    ],
                ),
        ),
    )
}

/// The JSON of a chat.
fn chat_json(messages: &Vec<Message>) -> (r: Json)
    ensures
        r@ == chat_tree(spoken(messages@)),
{
    let mut items: Vec<Json> = Vec::new();
    let ghost goal = chat_tree(spoken(messages@))->List_0;
    let mut i: usize = 0;
    while i < messages.len()
        invariant
            i <= messages.len(),
            goal == chat_tree(spoken(messages@))->List_0,
            goal.len() == messages@.len(),
            items@.len() == i,
            forall|j: int| 0 <= j < i ==> (#[trigger] items@[j])@ == goal[j],
        decreases messages.len() - i,
    {
        let message = &messages[i];
        let mut members: Vec<(String, Json)> = Vec::new();
        members.push(("role".to_owned(), Json::Text(message.role.clone())));
        members.push(("content".to_owned(), Json::Text(message.content.clone())));
        assert(members@[0].1@ == JsonTree::Text(message.role@));
        assert(members@[1].1@ == JsonTree::Text(message.content@));
        let item = Json::Members(members);
        assert(item@->Members_0 =~= goal[i as int]->Members_0);
        items.push(item);
        i += 1;
    }
    let list = Json::List(items);
    assert(list@->List_0 =~= goal);
    list
}

/// Characters that may stand in the value of an HTTP header.
pub open spec fn header_char(c: char) -> bool {
    c as u32 >= 0x20 && c as u32 != 0x7f || c as u32 == 0x09
}

/// `reqwest::header::HeaderValue::from_str`: it accepts a text without control
/// characters other than the tab.
#[verifier::external_body]
fn is_header_value(text: &str) -> (r: bool)
    ensures
        r == (forall|i: int| 0 <= i < text@.len() ==> header_char(#[trigger] text@[i])),
{
    reqwest::header::HeaderValue::from_str(text).is_ok()
}

/// The authorization that a key gives. No key, and `EMPTY`, give none.
pub open spec fn authorized(api_key: Seq<char>) -> Result<Option<Seq<char>>, ErrorView> {
    let value = "Bearer "@ + api_key;
    if api_key.len() == 0 || api_key == "EMPTY"@ {
        Ok(None)
    } else if forall|i: int| 0 <= i < value.len() ==> header_char(#[trigger] value[i]) {
        Ok(Some(value))
    } else {
        Err(ErrorView::Config("API key contains invalid header characters"@))
    }
}

/// The value of the authorization header for a key.
pub fn authorization(api_key: &str) -> (r: Result<Option<String>, Error>)
    ensures
        match r {
            Ok(Some(value)) => authorized(api_key@) == Ok::<Option<Seq<char>>, ErrorView>(
                Some(value@),
            ),
            Ok(None) => authorized(api_key@) == Ok::<Option<Seq<char>>, ErrorView>(None),
            Err(error) => authorized(api_key@) == Err::<Option<Seq<char>>, ErrorView>(error@),
        },
{
    if api_key.is_empty() || same(api_key, "EMPTY") {
        return Ok(None);
    }
    let value = "Bearer ".to_owned().concat(api_key);
    if is_header_value(value.as_str()) {
        Ok(Some(value))
    } else {
        Err(Error::Config("API key contains invalid header characters".to_owned()))
    }
}

/// What an answer says whose status is not that of a success.
pub fn status_error(url: String, status: String, body: String) -> (r: Error)
    ensures
        r@ == (ErrorView::HttpStatus { url: url@, status: status@, body: body@ }),
{
    Error::HttpStatus { url, status, body }
}

/// The body of an answer whose status says that the request succeeded.
pub fn check_status(url: String, success: bool, status: String, body: String) -> (r: Result<
    String,
    Error,
>)
    ensures
        match r {
            Ok(text) => success && text == body,
            Err(error) => !success && error@ == (ErrorView::HttpStatus {
                url: url@,
                status: status@,
                body: body@,
            }),
        },
{
    if success {
        Ok(body)
    } else {
        Err(status_error(url, status, body))
    }
}

/// An answer that is not streamed.
#[derive(Debug)]
pub struct NonStreamingResponse {
    pub choices: Vec<NonStreamingChoice>,
    pub usage: Option<Usage>,
}

#[derive(Debug)]
pub struct NonStreamingChoice {
    pub message: AssistantMessage,
}

#[derive(Debug)]
pub struct AssistantMessage {
    pub content: Option<String>,
    pub reasoning: Option<String>,
    pub reasoning_content: Option<String>,
}

#[derive(Debug)]
pub struct Usage {
    pub prompt_tokens: Option<usize>,
}

/// A client of an endpoint.
#[derive(Debug)]
pub struct LlmClient {
    pub base_url: String,
    pub model: String,
    pub authorization: Option<String>,
    pub extra_body: JsonMap,
    pub exact_tg: bool,
}

/// The address of `path` below a base URL.
pub open spec fn address(base_url: Seq<char>, path: Seq<char>) -> Seq<char> {
    base_url + "/"@ + trimmed_start(path, '/')
}

/// The fields that every request has.
pub open spec fn request_fields(
    model: Seq<char>,
    messages: Seq<(Seq<char>, Seq<char>)>,
    max_tokens: usize,
    stream: bool,
) -> Map<Seq<char>, JsonTree> {
    Map::empty().insert("model"@, JsonTree::Text(model)).insert(
        "messages"@,
        chat_tree(messages),
    ).insert("max_tokens"@, JsonTree::Count(max_tokens as u64)).insert(
        "stream"@,
        JsonTree::Flag(stream),
    )
}

impl LlmClient {
    /// The fields of a generation request: those that every one has, then the
    /// user's own, then those that force the number of tokens.
    pub open spec fn generation_fields(
        self,
        messages: Seq<(Seq<char>, Seq<char>)>,
        max_tokens: usize,
        no_cache: bool,
    ) -> Map<Seq<char>, JsonTree> {
        let plain = request_fields(self.model@, messages, max_tokens, true).insert(
            "return_token_ids"@,
            JsonTree::Flag(true),
        ).insert(
            "stream_options"@,
            JsonTree::Members(seq![("include_usage"@, JsonTree::Flag(true))]),
        );
        let cached = if no_cache {
            plain.insert("cache_prompt"@, JsonTree::Flag(false))
        } else {
            plain
        };
        let extended = cached.union_prefer_right(self.extra_body@);
        if self.exact_tg {
            extended.insert("max_tokens"@, JsonTree::Count(max_tokens as u64)).insert(
                "min_tokens"@,
                JsonTree::Count(max_tokens as u64),
            ).insert("ignore_eos"@, JsonTree::Flag(true))
        } else {
            extended
        }
    }

    /// The client for a configuration.
    pub fn new(config: &BenchmarkConfig) -> (r: Result<LlmClient, Error>)
        ensures
            match authorized(config.api_key@) {
                Err(error) => r is Err && r->Err_0@ == error,
                Ok(authorization) => {
                    let client = r->Ok_0;
                    &&& r is Ok
                    &&& client.base_url@ == config.base_url@
                    &&& client.model@ == config.served_model_name@
                    &&& client.extra_body@ == config.extra_body@
                    &&& client.extra_body.distinct()
                    &&& client.exact_tg == config.exact_tg
                    &&& match client.authorization {
                        Some(value) => authorization == Some(value@),
                        None => authorization is None,
                    }
                },
            },
    {
        let authorization = match authorization(config.api_key.as_str()) {
            Ok(authorization) => authorization,
            Err(error) => {
                return Err(error);
            },
        };
        let mut extra_body = JsonMap::new();
        extra_body.extend(&config.extra_body);
        assert(extra_body@ =~= config.extra_body@);
        Ok(
            LlmClient {
                base_url: config.base_url.clone(),
                model: config.served_model_name.clone(),
                authorization,
                extra_body,
                exact_tg: config.exact_tg,
            },
        )
    }

    /// The address of `path` at the endpoint.
    pub fn endpoint(&self, path: &str) -> (r: String)
        ensures
            r@ == address(self.base_url@, path@),
    {
        let mut text = self.base_url.clone();
        text.append("/");
        text.append(trim_start_matches(path, '/').as_str());
        text
    }

    /// The body of a request with nothing but what every one has.
    pub fn request_payload(&self, messages: &Vec<Message>, max_tokens: usize, stream: bool) -> (r:
        JsonMap)
        ensures
            r@ == request_fields(self.model@, spoken(messages@), max_tokens, stream),
            r.distinct(),
    {
        let mut object = JsonMap::new();
        object.insert("model", Json::Text(self.model.clone()));
        object.insert("messages", chat_json(messages));
        object.insert("max_tokens", Json::Count(max_tokens as u64));
        object.insert("stream", Json::Flag(stream));
        object
    }

    /// The body of a generation request.
    pub fn generation_payload(
        &self,
        messages: &Vec<Message>,
        max_tokens: usize,
        no_cache: bool,
    ) -> (r: JsonMap)
        ensures
            r@ == self.generation_fields(spoken(messages@), max_tokens, no_cache),
            r.distinct(),
    {
        let mut object = self.request_payload(messages, max_tokens, true);
        object.insert("return_token_ids", Json::Flag(true));
        let mut options: Vec<(String, Json)> = Vec::new();
        options.push(("include_usage".to_owned(), Json::Flag(true)));
        let options = Json::Members(options);
        assert(options@->Members_0 =~= seq![("include_usage"@, JsonTree::Flag(true))]);
        object.insert("stream_options", options);
        if no_cache {
            object.insert("cache_prompt", Json::Flag(false));
        }
        object.extend(&self.extra_body);
        if self.exact_tg {
            object.insert("max_tokens", Json::Count(max_tokens as u64));
            object.insert("min_tokens", Json::Count(max_tokens as u64));
            object.insert("ignore_eos", Json::Flag(true));
        }
        object
    }

    /// The address and the body of the request that generates an answer to
    /// `prompt` after `context`, and a reader for that answer.
    pub fn run_generation(
        &self,
        context: &str,
        prompt: &str,
        max_tokens: usize,
        no_cache: bool,
    ) -> (r: (String, JsonMap, SseReader))
        ensures
            r.0@ == address(self.base_url@, "chat/completions"@),
            r.1@ == self.generation_fields(chat(context@, asked(prompt@)), max_tokens, no_cache),
            r.1.distinct(),
            r.2.endpoint@ == r.0@,
            r.2.buffer@ == Seq::<u8>::empty(),
            r.2.parsed@ == StreamView::silent(),
            r.2.has_read(Seq::empty()),
    {
        let messages = generation_messages(context, prompt);
        let payload = self.generation_payload(&messages, max_tokens, no_cache);
        let url = self.endpoint("chat/completions");
        let reader = SseReader::new(url.clone());
        (url, payload, reader)
    }

    /// The tokens of the prompt that an answer reports.
    pub fn prompt_token_count(&self, response: &NonStreamingResponse) -> (r: Result<usize, Error>)
        ensures
            match response.usage {
                Some(Usage { prompt_tokens: Some(tokens) }) => r == Ok::<usize, Error>(tokens),
                _ => r is Err && r->Err_0@ == (ErrorView::Protocol {
                    endpoint: address(self.base_url@, "chat/completions"@),
                    message:
                        "calibration requires usage.prompt_tokens in non-streaming responses; use --no-warmup to assume four characters/token"@,
                }),
            },
    {
        if let Some(usage) = &response.usage {
            if let Some(tokens) = usage.prompt_tokens {
                return Ok(tokens);
            }
        }
        Err(
            Error::Protocol {
                endpoint: self.endpoint("chat/completions"),
                message:
                    "calibration requires usage.prompt_tokens in non-streaming responses; use --no-warmup to assume four characters/token".to_owned(),
            },
        )
    }
}

/// The text, or nothing where there is none.
pub open spec fn or_nothing(text: Option<String>) -> Seq<char> {
    match text {
        Some(text) => text@,
        None => Seq::empty(),
    }
}

/// What the first choice of an answer says.
pub open spec fn answer(response: NonStreamingResponse) -> Seq<char> {
    if response.choices@.len() == 0 {
        Seq::empty()
    } else {
        let message = response.choices@[0].message;
        or_nothing(message.content) + or_nothing(message.reasoning) + or_nothing(
            message.reasoning_content,
        )
    }
}

/// The first characters of the text, at most `most`.
pub open spec fn shortened(text: Seq<char>, most: nat) -> Seq<char> {
    if text.len() <= most {
        text
    } else {
        text.take(most as int)
    }
}

/// The complaint about an answer that does not name Paris.
pub open spec fn incoherent(answer: Seq<char>, lowered: Seq<char>) -> Option<ErrorView> {
    if occurrence(lowered, "paris"@) is Some {
        None
    } else {
        Some(
            ErrorView::Benchmark(
                "coherence check expected 'Paris', got "@ + quoted(shortened(answer, 200)),
            ),
        )
    }
}

/// Adds the text to `all`, where there is one.
fn append_optional(all: &mut String, text: &Option<String>)
    ensures
        final(all)@ == old(all)@ + or_nothing(*text),
{
    if let Some(text) = text {
        all.append(text.as_str());
    }
    assert(all@ =~= old(all)@ + or_nothing(*text));
}

/// What the first choice of an answer says.
fn answer_text(response: &NonStreamingResponse) -> (r: String)
    ensures
        r@ == answer(*response),
{
    let mut all = String::new();
    if response.choices.len() > 0 {
        let message = &response.choices[0].message;
        append_optional(&mut all, &message.content);
        append_optional(&mut all, &message.reasoning);
        append_optional(&mut all, &message.reasoning_content);
    }
    assert(all@ =~= answer(*response));
    all
}

/// Accepts an answer that names Paris; `lowered` is the answer in lower case.
pub fn check_answer(answer: &str, lowered: &str) -> (r: Result<(), Error>)
    ensures
        match r {
            Ok(()) => incoherent(answer@, lowered@) is None,
            Err(error) => incoherent(answer@, lowered@) == Some(error@),
        },
{
    if contains(lowered, "paris") {
        return Ok(());
    }
    let head = if answer.unicode_len() <= 200 {
        answer
    } else {
        let head = answer.substring_char(0, 200);
        assert(head@ =~= answer@.take(200));
        head
    };
    Err(
        Error::Benchmark(
            "coherence check expected 'Paris', got ".to_owned().concat(quote(head).as_str()),
        ),
    )
}

/// The texts that the endpoint counts the tokens of, in order: contexts and
/// prompts.
pub open spec fn probed(short: Seq<char>, long: Seq<char>) -> Seq<(Seq<char>, Seq<char>)> {
    seq![
        (Seq::empty(), short),
        (Seq::empty(), long),
        (short, CONTEXT_LOAD_USER_MESSAGE@),
        (long, CONTEXT_LOAD_USER_MESSAGE@),
    ]
}

impl LlmClient {
    /// The contexts and prompts that are sent for a calibration, in order.
    pub fn calibration_probes(short: &str, long: &str) -> (r: Vec<(String, String)>)
        ensures
            r@.len() == 4,
            forall|i: int|
                0 <= i < 4 ==> ((#[trigger] r@[i]).0@, r@[i].1@) == probed(short@, long@)[i],
    {
        let mut probes: Vec<(String, String)> = Vec::new();
        probes.push((String::new(), short.to_owned()));
        probes.push((String::new(), long.to_owned()));
        probes.push((short.to_owned(), CONTEXT_LOAD_USER_MESSAGE.to_owned()));
        probes.push((long.to_owned(), CONTEXT_LOAD_USER_MESSAGE.to_owned()));
        probes
    }

    /// The address and the body of the request that has the tokens of a prompt
    /// counted.
    pub fn probe_request(&self, context: &str, prompt: &str) -> (r: (String, JsonMap))
        ensures
            r.0@ == address(self.base_url@, "chat/completions"@),
            r.1@ == request_fields(self.model@, chat(context@, prompt@), 1, false),
            r.1.distinct(),
    {
        let payload = self.request_payload(&chat_messages(context, prompt), 1, false);
        (self.endpoint("chat/completions"), payload)
    }

    /// Calibrates from the tokens that the endpoint counted for the probes.
    pub fn calibrate(
        short: &str,
        long: &str,
        user_short: usize,
        user_long: usize,
        context_short: usize,
        context_long: usize,
    ) -> (r: Calibration)
        ensures
            r.wf(),
            (r.user_chars_per_token, r.user_overhead_tokens) == fitted(
                short@.len() as usize,
                long@.len() as usize,
                user_short,
                user_long,
            ),
            (r.context_chars_per_token, r.context_overhead_tokens) == fitted(
                short@.len() as usize,
                long@.len() as usize,
                context_short,
                context_long,
            ),
    {
        Calibration::from_samples(
            short.unicode_len(),
            long.unicode_len(),
            user_short,
            user_long,
            context_short,
            context_long,
        )
    }

    /// The address and the body of the request that shows whether the model
    /// makes sense.
    pub fn coherence_request(&self) -> (r: (String, JsonMap))
        ensures
            r.0@ == address(self.base_url@, "chat/completions"@),
            r.1@ == request_fields(
                self.model@,
                chat(
                    Seq::empty(),
                    "What is the capital of France? Reply with one word."@,
                ),
                100,
                false,
            ),
            r.1.distinct(),
    {
        let messages = chat_messages("", "What is the capital of France? Reply with one word.");
        proof {
            reveal_strlit("");
            assert(""@ =~= Seq::empty());
        }
        (self.endpoint("chat/completions"), self.request_payload(&messages, 100, false))
    }

    /// Accepts an answer that names Paris.
    pub fn coherence_test(response: &NonStreamingResponse) -> (r: Result<(), Error>)
        ensures
            match r {
                Ok(()) => incoherent(answer(*response), lower_case(answer(*response))) is None,
                Err(error) => incoherent(answer(*response), lower_case(answer(*response))) == Some(
                    error@,
                ),
            },
    {
        let said = answer_text(response);
        let lowered = to_lowercase(said.as_str());
        check_answer(said.as_str(), lowered.as_str())
    }

    /// The address of the request that a step of a latency measurement makes,
    /// and its body where it has one: the models are asked for without a body.
    /// A known latency asks for nothing.
    pub fn latency_request(&self, step: LatencyStep) -> (r: Option<(String, Option<JsonMap>)>)
        ensures
            match step {
                LatencyStep::ListModels => {
                    &&& r is Some
                    &&& (r->Some_0).0@ == address(self.base_url@, "models"@)
                    &&& (r->Some_0).1 is None
                },
                LatencyStep::Generate => {
                    &&& r is Some
                    &&& (r->Some_0).0@ == address(self.base_url@, "chat/completions"@)
                    &&& (r->Some_0).1 is Some
                    &&& ((r->Some_0).1->Some_0)@ == request_fields(
                        self.model@,
                        chat(Seq::empty(), "hello"@),
                        1,
                        true,
                    )
                    &&& (r->Some_0).1->Some_0.distinct()
                },
                LatencyStep::Baseline(_) => r is None,
            },
    {
        match step {
            LatencyStep::ListModels => Some((self.endpoint("models"), None)),
            LatencyStep::Generate => {
                let messages = chat_messages("", "hello");
                proof {
                    reveal_strlit("");
                    assert(""@ =~= Seq::empty());
                }
                let payload = self.request_payload(&messages, 1, true);
                Some((self.endpoint("chat/completions"), Some(payload)))
            },
            LatencyStep::Baseline(_) => None,
        }
    }

    /// Measures the latency: what to do first.
    pub fn measure_latency(mode: LatencyMode, warmup_runs: usize) -> (r: LatencyMeasurement)
        ensures
            r@ == LatencyView::begun(mode, warmup_runs),
    {
        LatencyMeasurement { mode, warmups_left: warmup_runs, samples: Vec::new() }
    }
}

/// How many generations are measured for the latency.
pub const MEASURED_RUNS: usize = 3;

/// A measurement of the latency.
#[derive(Debug)]
pub struct LatencyMeasurement {
    pub mode: LatencyMode,
    /// Generations that do not count yet.
    pub warmups_left: usize,
    /// The measured times, in ticks.
    pub samples: Vec<u128>,
}

/// What a measurement of the latency does next.
#[derive(Debug, Clone, Copy, PartialEq, Eq, Structural)]
pub enum LatencyStep {
    /// Have the models listed, and record how long that took.
    ListModels,
    /// Have a token generated, and record how long its first bytes took.
    Generate,
    /// The latency, in ticks.
    Baseline(u128),
}

/// The sum of the times.
pub open spec fn sum(times: Seq<u128>) -> int
    decreases times.len(),
{
    if times.len() == 0 {
        0
    } else {
        sum(times.drop_last()) + times.last()
    }
}

/// The content of a [`LatencyMeasurement`].
#[verifier::ext_equal]
pub struct LatencyView {
    pub mode: LatencyMode,
    pub warmups_left: int,
    pub samples: Seq<u128>,
}

impl View for LatencyMeasurement {
    type V = LatencyView;

    open spec fn view(&self) -> LatencyView {
        LatencyView {
            mode: self.mode,
            warmups_left: self.warmups_left as int,
            samples: self.samples@,
        }
    }
}

impl LatencyView {
    /// A measurement that has measured nothing.
    pub open spec fn begun(mode: LatencyMode, warmup_runs: usize) -> LatencyView {
        LatencyView { mode, warmups_left: warmup_runs as int, samples: Seq::empty() }
    }

    /// What to do next.
    pub open spec fn next_step(self) -> LatencyStep {
        match self.mode {
            LatencyMode::Disabled => LatencyStep::Baseline(0),
            LatencyMode::Api => if self.samples.len() == 0 {
                LatencyStep::ListModels
            } else {
                LatencyStep::Baseline(self.samples[0])
            },
            LatencyMode::Generation => if self.samples.len() < MEASURED_RUNS {
                LatencyStep::Generate
            } else {
                LatencyStep::Baseline((sum(self.samples) / (self.samples.len() as int)) as u128)
            },
        }
    }

    /// The measurement after a step that took so long. Generations before the
    /// measured ones are discarded.
    pub open spec fn recorded(self, elapsed: u128) -> LatencyView {
        if self.mode == LatencyMode::Generation && self.warmups_left > 0 {
            LatencyView { warmups_left: self.warmups_left - 1, ..self }
        } else {
            LatencyView { samples: self.samples.push(elapsed), ..self }
        }
    }

    /// The measurement after steps that took so long.
    pub open spec fn recorded_all(self, times: Seq<u128>) -> LatencyView
        decreases times.len(),
    {
        if times.len() == 0 {
            self
        } else {
            self.recorded_all(times.drop_last()).recorded(times.last())
        }
    }
}

impl LatencyMeasurement {
    /// What to do next.
    pub fn next(&self) -> (r: LatencyStep)
        ensures
            r == self@.next_step(),
    {
        match self.mode {
            LatencyMode::Disabled => LatencyStep::Baseline(0),
            LatencyMode::Api => if self.samples.len() == 0 {
                LatencyStep::ListModels
            } else {
                LatencyStep::Baseline(self.samples[0])
            },
            LatencyMode::Generation => if self.samples.len() < MEASURED_RUNS {
                LatencyStep::Generate
            } else {
                LatencyStep::Baseline(mean(&self.samples))
            },
        }
    }

    /// Takes in how long the last step took.
    pub fn record(&mut self, elapsed: u128)
        ensures
            final(self)@ == old(self)@.recorded(elapsed),
    {
        let generates = match self.mode {
            LatencyMode::Generation => true,
            _ => false,
        };
        if generates && self.warmups_left > 0 {
            self.warmups_left -= 1;
        } else {
            self.samples.push(elapsed);
        }
    }
}

/// The mean of the times, rounded down.
fn mean(times: &Vec<u128>) -> (r: u128)
    requires
        times@.len() > 0,
    ensures
        r == sum(times@) / (times@.len() as int),
{
    let count: u128 = times.len() as u128;
    let mut whole: u128 = 0;
    let mut rest: u128 = 0;
    let mut i: usize = 0;
    proof {
        assert(count * 0 == 0) by (nonlinear_arith);
    }
    while i < times.len()
        invariant
            i <= times.len(),
            count == times@.len(),
            count > 0,
            rest < count,
            sum(times@.take(i as int)) == count * whole + rest,
            sum(times@.take(i as int)) <= i * 0xffff_ffff_ffff_ffff_ffff_ffff_ffff_ffff,
        decreases times.len() - i,
    {
        let time: u128 = times[i];
        let quotient: u128 = time / count;
        let remainder: u128 = time % count;
        let ghost before = sum(times@.take(i as int));
        proof {
            vstd::arithmetic::div_mod::lemma_fundamental_div_mod(time as int, count as int);
            assert(times@.take(i + 1).drop_last() == times@.take(i as int));
            assert(count * (whole + quotient) + rest + remainder == before + time)
                by (nonlinear_arith)
                requires
                    before == count * whole + rest,
                    time == count * quotient + remainder,
            ;
            lemma_mean_fits(before + time, count as int, whole + quotient, rest + remainder);
        }
        if rest >= count - remainder {
            rest = rest - (count - remainder);
            proof {
                assert(count * (whole + quotient + 1) == count * (whole + quotient) + count)
                    by (nonlinear_arith);
            }
            whole = whole + quotient + 1;
        } else {
            rest = rest + remainder;
            whole = whole + quotient;
        }
        i += 1;
    }
    proof {
        assert(times@.take(i as int) == times@);
        assert(count * whole == whole * count) by (nonlinear_arith);
        vstd::arithmetic::div_mod::lemma_fundamental_div_mod_converse(
            sum(times@),
            count as int,
            whole as int,
            rest as int,
        );
    }
    whole
}

/// A mean fits where each of the times does.
proof fn lemma_mean_fits(total: int, count: int, whole: int, rest: int)
    requires
        count > 0,
        0 <= rest,
        total == count * whole + rest,
        total <= count * u128::MAX,
    ensures
        whole <= u128::MAX,
        whole + 1 <= u128::MAX || rest < count,
{
    assert(whole <= u128::MAX && (whole + 1 <= u128::MAX || rest < count)) by (nonlinear_arith)
        requires
            count > 0,
            0 <= rest,
            total == count * whole + rest,
            total <= count * u128::MAX,
    ;
}

/// Refuses a streamed answer without any bytes.
pub fn check_streamed(url: String, any: bool) -> (r: Result<(), Error>)
    ensures
        match r {
            Ok(()) => any,
            Err(error) => !any && error@ == (ErrorView::Protocol {
                endpoint: url@,
                message: "empty streaming response"@,
            }),
        },
{
    if any {
        Ok(())
    } else {
        Err(
            Error::Protocol { endpoint: url, message: "empty streaming response".to_owned() },
        )
    }
}

/// The number of tokens that the chunks list.
pub open spec fn listed_tokens(chunks: Seq<ChunkView>) -> nat
    decreases chunks.len(),
{
    if chunks.len() == 0 {
        0
    } else {
        listed_tokens(chunks.drop_last()) + chunks.last().token_ids->0.len()
    }
}

proof fn lemma_listed_tokens(chunks: Seq<ChunkView>, first: Option<u128>)
    ensures
        listed_token_times(chunks, first).len() == listed_tokens(chunks),
    decreases chunks.len(),
{
    if chunks.len() > 0 {
        lemma_listed_tokens(chunks.drop_last(), first);
    }
}

/// The tokens that every chunk lists count first, then the number that the
/// endpoint reports, then the number of the chunks. Every counted token has a
/// time.
pub proof fn law_token_count_priority(stream: StreamView)
    requires
        stream.content_chunks.len() > 0,
    ensures
        stream.tokens().0 == if stream.lists_tokens() {
            listed_tokens(stream.content_chunks)
        } else {
            match stream.usage_completion_tokens {
                Some(count) => count as nat,
                None => stream.content_chunks.len(),
            }
        },
        stream.tokens().1.len() == stream.tokens().0,
{
    lemma_listed_tokens(stream.content_chunks, stream.first_token_ts);
}

impl StreamView {
    /// The first token came with the first chunk and not before the first
    /// response, and no chunk before another one that came earlier.
    pub open spec fn consistent(self) -> bool {
        &&& ascending(self.chunk_times())
        &&& self.content_chunks.len() == 0 ==> self.first_token_ts is None
        &&& self.content_chunks.len() > 0 ==> self.first_token_ts == Some(self.chunk_times()[0])
        &&& self.first_token_ts is Some ==> {
            &&& self.first_response_ts is Some
            &&& self.first_response_ts->0 <= self.first_token_ts->0
        }
    }

    /// The stream has heard nothing after `now`.
    pub open spec fn heard_by(self, now: u128) -> bool {
        &&& self.first_response_ts is Some ==> self.first_response_ts->0 <= now
        &&& forall|i: int|
            0 <= i < self.content_chunks.len() ==> (#[trigger] self.chunk_times()[i]) <= now
    }

    /// The stream has heard nothing before `start`.
    pub open spec fn heard_since(self, start: u128) -> bool {
        self.first_response_ts is Some ==> start <= self.first_response_ts->0
    }
}

/// A stream that has said nothing is consistent, and it stays so while time
/// goes on.
pub proof fn law_streams_are_consistent(
    stream: StreamView,
    event: JsonTree,
    start: u128,
    now: u128,
)
    requires
        start <= now,
    ensures
        StreamView::silent().consistent(),
        StreamView::silent().heard_since(start),
        StreamView::silent().heard_by(now),
        stream.consistent() && stream.heard_since(start) && stream.heard_by(now) ==> {
            &&& stream.after_event(event, now).consistent()
            &&& stream.after_event(event, now).heard_since(start)
            &&& stream.after_event(event, now).heard_by(now)
        },
{
    let next = stream.after_event(event, now);
    let times = stream.chunk_times();
    if next.content_chunks.len() > stream.content_chunks.len() {
        assert(next.chunk_times() == times.push(now));
    } else {
        assert(next.chunk_times() == times);
    }
}

/// Reading keeps a stream consistent, if nothing was heard after the time at
/// which the bytes arrive.
pub proof fn law_reading_keeps_streams_consistent(
    stream: StreamView,
    bytes: Seq<u8>,
    start: u128,
    now: u128,
    endpoint: Seq<char>,
)
    requires
        stream.consistent(),
        stream.heard_since(start),
        stream.heard_by(now),
        start <= now,
    ensures
        read_lines(stream, bytes, now, endpoint).stream.consistent(),
        read_lines(stream, bytes, now, endpoint).stream.heard_since(start),
        read_lines(stream, bytes, now, endpoint).stream.heard_by(now),
        read_tail(stream, bytes, now, endpoint) is Ok ==> {
            &&& read_tail(stream, bytes, now, endpoint)->Ok_0.consistent()
            &&& read_tail(stream, bytes, now, endpoint)->Ok_0.heard_since(start)
            &&& read_tail(stream, bytes, now, endpoint)->Ok_0.heard_by(now)
        },
    decreases bytes.len(),
{
    let tail = trimmed(lossy(bytes));
    if let Some(data) = event_text(tail) {
        if let Ok(event) = reading(data) {
            law_streams_are_consistent(stream, event, start, now);
        }
    }
    lemma_line_end_bounds(bytes);
    if let Some(i) = line_end(bytes) {
        let line = line_text(bytes.take(i));
        if let Some(data) = event_text(line) {
            if let Ok(event) = reading(data) {
                law_streams_are_consistent(stream, event, start, now);
            }
        }
        if let Ok(next) = stream.after_line(line, now, endpoint) {
            law_reading_keeps_streams_consistent(next, bytes.skip(i + 1), start, now, endpoint);
        }
    }
}

/// A part of the whole grows with the part and never exceeds the whole.
proof fn lemma_shares(whole: int, i: int, j: int, count: int)
    requires
        0 <= whole,
        0 <= i <= j <= count,
        count > 0,
    ensures
        0 <= (whole * i) / count <= (whole * j) / count <= whole,
        (whole * count) / count == whole,
{
    assert(0 <= whole * i <= whole * j <= whole * count) by (nonlinear_arith)
        requires
            0 <= whole,
            0 <= i <= j <= count,
    ;
    lemma_div_is_ordered(0, whole * i, count);
    lemma_div_is_ordered(whole * i, whole * j, count);
    lemma_div_is_ordered(whole * j, whole * count, count);
    lemma_mul_is_commutative(whole, count);
    lemma_div_multiples_vanish(whole, count);
}

proof fn lemma_listed_times_ordered(chunks: Seq<ChunkView>, first: u128)
    requires
        ascending(arrivals(chunks)),
        chunks.len() > 0 ==> first <= chunks[0].timestamp,
    ensures
        ascending(listed_token_times(chunks, Some(first))),
        chunks.len() > 0 ==> within(
            listed_token_times(chunks, Some(first)),
            first,
            chunks.last().timestamp,
        ),
        chunks.len() > 0 && chunks.last().token_ids->0.len() > 0 ==> listed_token_times(
            chunks,
            Some(first),
        ).last() == chunks.last().timestamp,
    decreases chunks.len(),
{
    if chunks.len() > 0 {
        let times_of = arrivals(chunks);
        let rest = chunks.drop_last();
        let before = listed_token_times(rest, Some(first));
        let now = chunks.last().timestamp;
        let count = chunks.last().token_ids->0.len();
        let after = listed_token_times(chunks, Some(first));
        assert(arrivals(rest) =~= times_of.drop_last());
        lemma_listed_times_ordered(rest, first);
        if rest.len() > 0 {
            assert(times_of[rest.len() - 1] <= times_of[rest.len() as int]);
        } else {
            assert(before.len() == 0);
        }
        let last = if before.len() > 0 {
            before.last()
        } else {
            first
        };
        assert(times_of[0] <= times_of[chunks.len() - 1]);
        assert(first <= last <= now);
        let width = now - last;
        assert forall|i: int, j: int| 0 <= i <= j < after.len() implies after[i] <= after[j] && after[j]
            <= now && first <= after[i] by {
            if i >= before.len() {
                lemma_shares(width, i - before.len() + 1, j - before.len() + 1, count as int);
            } else if j >= before.len() {
                lemma_shares(width, 0, j - before.len() + 1, count as int);
                assert(before[i] <= before[before.len() - 1]);
            } else {
                assert(before[i] <= before[j]);
            }
        }
        assert forall|i: int| 0 <= i < after.len() implies first <= #[trigger] after[i] <= now by {
            assert(after[i] <= after[i]);
        }
        if count > 0 {
            lemma_shares(width, count as int, count as int, count as int);
        }
    }
}

/// The tokens of a consistent stream have ascending times between those of its
/// first and of its last chunk.
pub proof fn law_token_times_ascend(stream: StreamView)
    requires
        stream.consistent(),
        stream.content_chunks.len() > 0,
    ensures
        ascending(stream.tokens().1),
        within(stream.tokens().1, stream.chunk_times()[0], stream.chunk_times().last()),
{
    let chunk_times = stream.chunk_times();
    let times = stream.tokens().1;
    let first = chunk_times[0];
    let last = chunk_times.last();
    if stream.lists_tokens() {
        let chunks = stream.content_chunks;
        lemma_listed_times_ordered(chunks, first);
    } else {
        assert(chunk_times[0] <= chunk_times[chunk_times.len() - 1]);
        assert forall|i: int, j: int| 0 <= i <= j < times.len() implies times[i] <= times[j]
            && first <= times[i] && times[j] <= last by {
            if let Some(count) = stream.usage_completion_tokens {
                if count > 1 {
                    lemma_shares(last - first, i, j, count - 1);
                }
            } else {
                assert(chunk_times[0] <= chunk_times[i]);
                assert(chunk_times[j] <= chunk_times[chunk_times.len() - 1]);
            }
        }
        assert forall|i: int| 0 <= i < times.len() implies first <= #[trigger] times[i] <= last by {
            assert(times[i] <= times[i]);
        }
    }
}

proof fn lemma_line_end_bounds(bytes: Seq<u8>)
    ensures
        line_end(bytes) is Some ==> 0 <= line_end(bytes)->0 < bytes.len(),
    decreases bytes.len(),
{
    if bytes.len() > 0 {
        lemma_line_end_bounds(bytes.drop_first());
    }
}

/// More bytes do not move the end of the first line.
proof fn lemma_line_end_stays(bytes: Seq<u8>, more: Seq<u8>)
    requires
        line_end(bytes) is Some,
    ensures
        line_end(bytes + more) == line_end(bytes),
    decreases bytes.len(),
{
    assert((bytes + more).first() == bytes.first());
    if bytes.first() != 0x0a {
        assert((bytes + more).drop_first() == bytes.drop_first() + more);
        lemma_line_end_stays(bytes.drop_first(), more);
    }
}

/// It does not matter how the bytes of an answer are cut into chunks that
/// arrive at the same time: a chunk that is read after another one is read as
/// if both had come in one. After a failure nothing more is read.
pub proof fn law_chunks_can_be_joined(
    stream: StreamView,
    chunk: Seq<u8>,
    more: Seq<u8>,
    now: u128,
    endpoint: Seq<char>,
)
    ensures
        ({
            let read = read_lines(stream, chunk, now, endpoint);
            let both = read_lines(stream, chunk + more, now, endpoint);
            if read.failure is None {
                both == read_lines(read.stream, read.rest + more, now, endpoint)
            } else {
                both == LinesRead { rest: read.rest + more, ..read }
            }
        }),
    decreases chunk.len(),
{
    lemma_line_end_bounds(chunk);
    if let Some(i) = line_end(chunk) {
        lemma_line_end_stays(chunk, more);
        assert((chunk + more).take(i) =~= chunk.take(i));
        assert((chunk + more).skip(i + 1) =~= chunk.skip(i + 1) + more);
        if let Ok(next) = stream.after_line(line_text(chunk.take(i)), now, endpoint) {
            law_chunks_can_be_joined(next, chunk.skip(i + 1), more, now, endpoint);
        }
    }
}

/// Whatever is read of one chunk of bytes has the time at which the chunk
/// arrived, and what was read before stays.
pub proof fn law_a_chunk_has_one_time(
    stream: StreamView,
    bytes: Seq<u8>,
    now: u128,
    endpoint: Seq<char>,
)
    ensures
        ({
            let before = stream.chunk_times();
            let after = read_lines(stream, bytes, now, endpoint).stream.chunk_times();
            &&& before.len() <= after.len()
            &&& after.take(before.len() as int) == before
            &&& forall|i: int| before.len() <= i < after.len() ==> #[trigger] after[i] == now
        }),
    decreases bytes.len(),
{
    let before = stream.chunk_times();
    let after = read_lines(stream, bytes, now, endpoint).stream.chunk_times();
    lemma_line_end_bounds(bytes);
    assert(before.take(before.len() as int) =~= before);
    if let Some(i) = line_end(bytes) {
        if let Ok(next) = stream.after_line(line_text(bytes.take(i)), now, endpoint) {
            law_a_chunk_has_one_time(next, bytes.skip(i + 1), now, endpoint);
            let between = next.chunk_times();
            assert(between =~= before || between =~= before.push(now));
            assert(after.take(between.len() as int).take(before.len() as int) =~= after.take(
                before.len() as int,
            ));
            assert(between.take(before.len() as int) =~= before);
            assert forall|k: int| before.len() <= k < after.len() implies #[trigger] after[k]
                == now by {
                if k < between.len() {
                    assert(after.take(between.len() as int)[k] == between[k]);
                }
            }
        }
    }
}

/// The latency of generations is the mean of the measured ones; those before
/// them, as many as are asked for, do not count. Until then there is always
/// another one to make.
pub proof fn law_latency_is_the_mean(warmup_runs: usize, times: Seq<u128>)
    requires
        times.len() <= warmup_runs + MEASURED_RUNS,
    ensures
        ({
            let after = LatencyView::begun(LatencyMode::Generation, warmup_runs).recorded_all(
                times,
            );
            &&& after.samples == times.skip(
                if times.len() < warmup_runs {
                    times.len() as int
                } else {
                    warmup_runs as int
                },
            )
            &&& after.next_step() == if times.len() < warmup_runs + MEASURED_RUNS {
                LatencyStep::Generate
            } else {
                LatencyStep::Baseline(
                    (sum(times.skip(warmup_runs as int)) / (MEASURED_RUNS as int)) as u128,
                )
            }
        }),
{
    lemma_recorded_all(warmup_runs, times);
}

proof fn lemma_recorded_all(warmup_runs: usize, times: Seq<u128>)
    ensures
        ({
            let begun = LatencyView::begun(LatencyMode::Generation, warmup_runs);
            let after = begun.recorded_all(times);
            let discarded: int = if times.len() < warmup_runs {
                times.len() as int
            } else {
                warmup_runs as int
            };
            &&& after.mode == LatencyMode::Generation
            &&& after.warmups_left == warmup_runs - discarded
            &&& after.samples == times.skip(discarded)
        }),
    decreases times.len(),
{
    if times.len() > 0 {
        let rest = times.drop_last();
        lemma_recorded_all(warmup_runs, rest);
        if times.len() > warmup_runs {
            assert(times.skip(warmup_runs as int) =~= rest.skip(warmup_runs as int).push(
                times.last(),
            ));
        }
    }
}

/// A generation of an exact length asks for it whatever the user's own fields
/// say. Apart from that the user's fields override those that a request has
/// anyway, and a request that is not to be cached says so.
pub proof fn law_fields_of_a_generation(
    client: LlmClient,
    messages: Seq<(Seq<char>, Seq<char>)>,
    max_tokens: usize,
    no_cache: bool,
    key: Seq<char>,
)
    ensures
        ({
            let fields = client.generation_fields(messages, max_tokens, no_cache);
            let forced = key == "max_tokens"@ || key == "min_tokens"@ || key == "ignore_eos"@;
            let own = client.extra_body@;
            &&& client.exact_tg ==> {
                &&& fields.contains_pair("max_tokens"@, JsonTree::Count(max_tokens as u64))
                &&& fields.contains_pair("min_tokens"@, JsonTree::Count(max_tokens as u64))
                &&& fields.contains_pair("ignore_eos"@, JsonTree::Flag(true))
            }
            &&& own.contains_key(key) && !(client.exact_tg && forced) ==> fields.contains_pair(
                key,
                own[key],
            )
            &&& no_cache && !own.contains_key("cache_prompt"@) ==> fields.contains_pair(
                "cache_prompt"@,
                JsonTree::Flag(false),
            )
        }),
{
    reveal_strlit("max_tokens");
    reveal_strlit("min_tokens");
    reveal_strlit("ignore_eos");
    reveal_strlit("cache_prompt");
    assert("max_tokens"@[1] == 'a' && "min_tokens"@[1] == 'i');
    assert("max_tokens"@.len() == 10 && "ignore_eos"@.len() == 10 && "cache_prompt"@.len() == 12);
    assert("max_tokens"@[0] == 'm' && "min_tokens"@[0] == 'm' && "ignore_eos"@[0] == 'i');
}

proof fn lemma_later_hears_more(stream: StreamView, now: u128, later: u128)
    requires
        stream.heard_by(now),
        now <= later,
    ensures
        stream.heard_by(later),
{
    assert forall|i: int| 0 <= i < stream.content_chunks.len() implies (
    #[trigger] stream.chunk_times()[i]) <= later by {
        assert(stream.chunk_times()[i] <= now);
    }
}

proof fn lemma_arrivals_consistent(
    arrivals: Seq<Arrival>,
    start: u128,
    end: u128,
    endpoint: Seq<char>,
)
    requires
        in_clock_order(arrivals, start, end),
    ensures
        read_arrivals(arrivals, endpoint).stream.consistent(),
        read_arrivals(arrivals, endpoint).stream.heard_since(start),
        read_arrivals(arrivals, endpoint).stream.heard_by(end),
    decreases arrivals.len(),
{
    if arrivals.len() > 0 {
        let rest = arrivals.drop_last();
        let last = arrivals.last();
        let before = read_arrivals(rest, endpoint);
        assert(arrivals[arrivals.len() - 1] == last);
        assert forall|i: int| 0 <= i < rest.len() implies start <= (#[trigger] rest[i]).time
            && rest[i].time <= last.time by {
            assert(rest[i] == arrivals[i]);
        }
        assert forall|i: int, j: int| 0 <= i <= j < rest.len() implies (#[trigger] rest[i]).time
            <= (#[trigger] rest[j]).time by {
            assert(rest[i] == arrivals[i] && rest[j] == arrivals[j]);
        }
        lemma_arrivals_consistent(rest, start, last.time, endpoint);
        law_reading_keeps_streams_consistent(
            before.stream,
            before.rest + last.bytes,
            start,
            last.time,
            endpoint,
        );
        lemma_later_hears_more(read_arrivals(arrivals, endpoint).stream, last.time, end);
    }
}

/// The times of an answer whose bytes arrive in the order of time are in order.
pub proof fn law_times_of_an_answer_are_in_order(
    arrivals: Seq<Arrival>,
    start_ts: u128,
    tail_ts: u128,
    end_ts: u128,
    endpoint: Seq<char>,
    result: RequestResult,
)
    requires
        in_clock_order(arrivals, start_ts, tail_ts),
        tail_ts <= end_ts,
        read_answer(arrivals, tail_ts, endpoint) is Ok,
        result.tells(read_answer(arrivals, tail_ts, endpoint)->Ok_0, start_ts, end_ts),
    ensures
        result.in_order(),
{
    let read = read_arrivals(arrivals, endpoint);
    let stream = read_answer(arrivals, tail_ts, endpoint)->Ok_0;
    lemma_arrivals_consistent(arrivals, start_ts, tail_ts, endpoint);
    law_reading_keeps_streams_consistent(read.stream, read.rest, start_ts, tail_ts, endpoint);
    if stream.content_chunks.len() > 0 {
        let chunk_times = stream.chunk_times();
        law_token_times_ascend(stream);
        assert(chunk_times[0] <= tail_ts);
        assert(chunk_times[chunk_times.len() - 1] <= tail_ts);
        assert forall|i: int| 0 <= i < result.token_timestamps@.len() implies chunk_times[0]
            <= #[trigger] result.token_timestamps@[i] <= end_ts by {}
    }
}

/// If all lines of an answer arrive at one time, all of its tokens have that
/// time.
pub proof fn law_one_chunk_is_a_burst(
    arrivals: Seq<Arrival>,
    now: u128,
    tail_ts: u128,
    endpoint: Seq<char>,
)
    requires
        all_at(arrivals, now),
        read_arrivals(arrivals, endpoint).rest.len() == 0,
        read_answer(arrivals, tail_ts, endpoint) is Ok,
    ensures
        within(read_answer(arrivals, tail_ts, endpoint)->Ok_0.tokens().1, now, now),
{
    let stream = read_answer(arrivals, tail_ts, endpoint)->Ok_0;
    lemma_arrivals_consistent(arrivals, now, now, endpoint);
    if stream.content_chunks.len() > 0 {
        let chunk_times = stream.chunk_times();
        law_token_times_ascend(stream);
        assert(chunk_times[0] <= now);
        assert(chunk_times[chunk_times.len() - 1] <= now);
    }
}

/// All bytes of an answer.
pub open spec fn received(arrivals: Seq<Arrival>) -> Seq<u8>
    decreases arrivals.len(),
{
    if arrivals.len() == 0 {
        Seq::empty()
    } else {
        received(arrivals.drop_last()) + arrivals.last().bytes
    }
}

impl StreamView {
    /// The streams differ at most in their times.
    pub open spec fn alike(self, other: StreamView) -> bool {
        &&& self.prompt_tokens == other.prompt_tokens
        &&& self.usage_completion_tokens == other.usage_completion_tokens
        &&& self.first_response_ts is Some == other.first_response_ts is Some
        &&& self.first_token_ts is Some == other.first_token_ts is Some
        &&& self.content_chunks.len() == other.content_chunks.len()
        &&& forall|i: int|
            0 <= i < self.content_chunks.len() ==> (#[trigger] self.content_chunks[i]).token_ids
                == (#[trigger] other.content_chunks[i]).token_ids
    }
}

proof fn lemma_lines_alike(
    one: StreamView,
    other: StreamView,
    bytes: Seq<u8>,
    time: u128,
    other_time: u128,
    endpoint: Seq<char>,
)
    requires
        one.alike(other),
    ensures
        ({
            let read = read_lines(one, bytes, time, endpoint);
            let other_read = read_lines(other, bytes, other_time, endpoint);
            &&& read.stream.alike(other_read.stream)
            &&& read.rest == other_read.rest
            &&& read.failure == other_read.failure
        }),
    decreases bytes.len(),
{
    lemma_line_end_bounds(bytes);
    if let Some(i) = line_end(bytes) {
        let line = line_text(bytes.take(i));
        let next = one.after_line(line, time, endpoint);
        let other_next = other.after_line(line, other_time, endpoint);
        if next is Ok {
            lemma_lines_alike(
                next->Ok_0,
                other_next->Ok_0,
                bytes.skip(i + 1),
                time,
                other_time,
                endpoint,
            );
        }
    }
}

/// However the bytes arrive, they are read as if they came all at once.
proof fn lemma_arrivals_alike(arrivals: Seq<Arrival>, time: u128, endpoint: Seq<char>)
    ensures
        ({
            let read = read_arrivals(arrivals, endpoint);
            let whole = read_lines(StreamView::silent(), received(arrivals), time, endpoint);
            &&& read.failure == whole.failure
            &&& read.stream.alike(whole.stream)
            &&& read.failure is None ==> read.rest == whole.rest
        }),
    decreases arrivals.len(),
{
    if arrivals.len() > 0 {
        let rest = arrivals.drop_last();
        let last = arrivals.last();
        let before = read_arrivals(rest, endpoint);
        let whole = read_lines(StreamView::silent(), received(rest), time, endpoint);
        lemma_arrivals_alike(rest, time, endpoint);
        law_chunks_can_be_joined(
            StreamView::silent(),
            received(rest),
            last.bytes,
            time,
            endpoint,
        );
        if before.failure is None {
            lemma_lines_alike(
                before.stream,
                whole.stream,
                before.rest + last.bytes,
                last.time,
                time,
                endpoint,
            );
        }
    }
}

proof fn lemma_alike_tokens(one: StreamView, other: StreamView)
    requires
        one.alike(other),
    ensures
        one.tokens().0 == other.tokens().0,
        one.tokens().1.len() == other.tokens().1.len(),
{
    if one.content_chunks.len() > 0 {
        law_token_count_priority(one);
        law_token_count_priority(other);
        lemma_alike_listed(one.content_chunks, other.content_chunks);
        if one.lists_tokens() {
            assert forall|i: int| 0 <= i < other.content_chunks.len() implies (
            #[trigger] other.content_chunks[i]).token_ids is Some by {
                assert(one.content_chunks[i].token_ids is Some);
            }
        }
        if other.lists_tokens() {
            assert forall|i: int| 0 <= i < one.content_chunks.len() implies (
            #[trigger] one.content_chunks[i]).token_ids is Some by {
                assert(other.content_chunks[i].token_ids is Some);
            }
        }
    }
}

proof fn lemma_alike_listed(one: Seq<ChunkView>, other: Seq<ChunkView>)
    requires
        one.len() == other.len(),
        forall|i: int|
            0 <= i < one.len() ==> (#[trigger] one[i]).token_ids == (
            #[trigger] other[i]).token_ids,
    ensures
        listed_tokens(one) == listed_tokens(other),
    decreases one.len(),
{
    if one.len() > 0 {
        assert(one[one.len() - 1].token_ids == other[other.len() - 1].token_ids);
        assert forall|i: int| 0 <= i < one.len() - 1 implies (
        #[trigger] one.drop_last()[i]).token_ids == (#[trigger] other.drop_last()[i]).token_ids by {
            assert(one[i].token_ids == other[i].token_ids);
        }
        lemma_alike_listed(one.drop_last(), other.drop_last());
    }
}

/// It does not matter how the bytes of an answer are cut into chunks, and when
/// these arrive, for what is counted: the tokens, the number of token times,
/// and whether there was a response and a token at all. Nor does it matter for
/// what is wrong with the answer.
pub proof fn law_cuts_do_not_change_counts(
    arrivals: Seq<Arrival>,
    others: Seq<Arrival>,
    tail_ts: u128,
    other_tail_ts: u128,
    endpoint: Seq<char>,
)
    requires
        received(arrivals) == received(others),
    ensures
        match (
            read_answer(arrivals, tail_ts, endpoint),
            read_answer(others, other_tail_ts, endpoint),
        ) {
            (Ok(one), Ok(other)) => {
                &&& one.prompt_tokens == other.prompt_tokens
                &&& one.tokens().0 == other.tokens().0
                &&& one.tokens().1.len() == other.tokens().1.len()
                &&& one.first_response_ts is Some == other.first_response_ts is Some
                &&& one.first_token_ts is Some == other.first_token_ts is Some
            },
            (Err(error), Err(other)) => error == other,
            _ => false,
        },
{
    let one = read_arrivals(arrivals, endpoint);
    let other = read_arrivals(others, endpoint);
    lemma_arrivals_alike(arrivals, 0, endpoint);
    lemma_arrivals_alike(others, 0, endpoint);
    let whole = read_lines(StreamView::silent(), received(arrivals), 0, endpoint);
    if one.failure is None {
        assert(one.stream.alike(other.stream)) by {
            assert forall|i: int| 0 <= i < one.stream.content_chunks.len() implies (
            #[trigger] one.stream.content_chunks[i]).token_ids == (
            #[trigger] other.stream.content_chunks[i]).token_ids by {
                assert(whole.stream.content_chunks[i].token_ids
                    == one.stream.content_chunks[i].token_ids);
            }
        }
        let end = read_tail(one.stream, one.rest, tail_ts, endpoint);
        let other_end = read_tail(other.stream, other.rest, other_tail_ts, endpoint);
        if end is Ok {
            assert(end->Ok_0.alike(other_end->Ok_0));
            lemma_alike_tokens(end->Ok_0, other_end->Ok_0);
        }
    }
}

} // verus!
