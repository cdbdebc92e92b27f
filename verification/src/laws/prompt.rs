//! What the calibration finds out about an endpoint, and what prompts are made
//! of it.

use vstd::arithmetic::div_mod::lemma_fundamental_div_mod;
use vstd::arithmetic::div_mod::lemma_mod_bound;
use vstd::prelude::*;

use crate::corpus::cyclic;
use crate::exact::rounded;
use crate::prompt::chars_for;
use crate::prompt::fitted;
use crate::prompt::law_prompt_continues_context;
use crate::prompt::Calibration;
use crate::prompt::Fraction;
use crate::prompt::PromptGenerator;
use crate::runner::LONG_SAMPLE;
use crate::runner::SHORT_SAMPLE;

verus! {

proof fn lemma_products_fit(a: int, b: int)
    requires
        0 <= a <= u64::MAX,
        0 <= b <= u64::MAX,
    ensures
        0 <= a * b <= u128::MAX,
{
    assert(0 <= a * b <= 0xffff_ffff_ffff_ffff * 0xffff_ffff_ffff_ffff) by (nonlinear_arith)
        requires
            0 <= a <= 0xffff_ffff_ffff_ffff,
            0 <= b <= 0xffff_ffff_ffff_ffff,
    ;
}

/// If the longer text has more tokens, so many characters more for so many
/// tokens more are the density, though not less than half a character and not
/// more than twenty for each token. The overhead is what the tokens of the
/// short text exceed its characters by at the measured density, as a fraction,
/// and not less than nothing. Otherwise there are four characters for each
/// token, and no overhead.
pub proof fn law_calibration_is_the_line_through_both_texts(
    short_chars: usize,
    long_chars: usize,
    short_tokens: usize,
    long_tokens: usize,
)
    ensures
        ({
            let (density, overhead) = fitted(short_chars, long_chars, short_tokens, long_tokens);
            let chars = long_chars - short_chars;
            let tokens = long_tokens - short_tokens;
            &&& density.den > 0
            &&& overhead.den > 0
            &&& chars > 0 && tokens > 0 ==> {
                &&& tokens <= 2 * chars && chars <= 20 * tokens ==> density.num * tokens == chars
                    * density.den
                &&& tokens > 2 * chars ==> 2 * density.num == density.den
                &&& chars > 20 * tokens ==> density.num == 20 * density.den
                &&& short_tokens * chars >= short_chars * tokens ==> overhead.num * chars == (
                short_tokens * chars - short_chars * tokens) * overhead.den
                &&& short_tokens * chars < short_chars * tokens ==> overhead.num == 0
            }
            &&& chars <= 0 || tokens <= 0 ==> density.num == 4 * density.den && overhead.num == 0
        }),
{
    let chars = long_chars - short_chars;
    let tokens = long_tokens - short_tokens;
    if chars > 0 && tokens > 0 {
        lemma_products_fit(short_tokens as int, chars);
        lemma_products_fit(short_chars as int, tokens);
        let beyond = short_tokens * chars - short_chars * tokens;
        assert(beyond * 1 == beyond && 0 * chars == 0);
    }
}

/// `size` is the whole number of characters that is nearest to those of
/// `tokens` tokens: at least one of them is left when the overhead is taken
/// off, and halves go up. No more than the greatest `usize` can be told.
pub open spec fn is_nearest(
    size: usize,
    tokens: usize,
    overhead: Fraction,
    density: Fraction,
) -> bool {
    let rest = tokens * overhead.den - overhead.num;
    let net = if rest > overhead.den {
        rest
    } else {
        overhead.den as int
    };
    let unit = overhead.den * density.den;
    let wanted = net * density.num;
    &&& 2 * unit * size <= 2 * wanted + unit
    &&& size < usize::MAX ==> 2 * wanted + unit < 2 * unit * (size + 1)
}

/// No overhead.
pub open spec fn nothing() -> Fraction {
    Fraction { num: 0, den: 1 }
}

proof fn lemma_nearest(tokens: usize, overhead: Fraction, density: Fraction)
    requires
        overhead.den > 0,
        density.den > 0,
    ensures
        is_nearest(chars_for(tokens, overhead, density), tokens, overhead, density),
{
    let rest = tokens * overhead.den - overhead.num;
    let net = if rest > overhead.den {
        rest
    } else {
        overhead.den as int
    };
    let unit = overhead.den * density.den;
    let wanted = net * density.num;
    assert(unit > 0) by (nonlinear_arith)
        requires
            unit == overhead.den * density.den,
            overhead.den > 0,
            density.den > 0,
    ;
    assert(wanted >= 0) by (nonlinear_arith)
        requires
            wanted == net * density.num,
            net > 0,
    ;
    let exact = rounded(wanted, unit);
    let size = chars_for(tokens, overhead, density);
    lemma_fundamental_div_mod(2 * wanted + unit, 2 * unit);
    lemma_mod_bound(2 * wanted + unit, 2 * unit);
    assert(2 * unit * exact <= 2 * wanted + unit < 2 * unit * (exact + 1)) by (nonlinear_arith)
        requires
            2 * wanted + unit == 2 * unit * exact + (2 * wanted + unit) % (2 * unit),
            0 <= (2 * wanted + unit) % (2 * unit) < 2 * unit,
    ;
    assert(exact >= 0) by (nonlinear_arith)
        requires
            2 * wanted + unit < 2 * unit * (exact + 1),
            wanted >= 0,
            unit > 0,
    ;
    if exact > usize::MAX {
        assert(2 * unit * size <= 2 * unit * exact) by (nonlinear_arith)
            requires
                size < exact,
                unit > 0,
        ;
    }
}

/// Prompts and contexts have the number of characters that is nearest to the
/// wanted tokens at the calibrated density; the overhead is taken off if the
/// sizes are to be adapted, and not otherwise.
pub proof fn law_sizes_are_the_nearest(calibration: Calibration, tokens: usize)
    requires
        calibration.wf(),
    ensures
        is_nearest(
            calibration.user_size(tokens, true),
            tokens,
            calibration.user_overhead_tokens,
            calibration.user_chars_per_token,
        ),
        is_nearest(
            calibration.user_size(tokens, false),
            tokens,
            nothing(),
            calibration.user_chars_per_token,
        ),
        is_nearest(
            calibration.context_size(tokens, true),
            tokens,
            calibration.context_overhead_tokens,
            calibration.context_chars_per_token,
        ),
        is_nearest(
            calibration.context_size(tokens, false),
            tokens,
            nothing(),
            calibration.context_chars_per_token,
        ),
{
    lemma_nearest(tokens, calibration.user_overhead_tokens, calibration.user_chars_per_token);
    lemma_nearest(tokens, nothing(), calibration.user_chars_per_token);
    lemma_nearest(
        tokens,
        calibration.context_overhead_tokens,
        calibration.context_chars_per_token,
    );
    lemma_nearest(tokens, nothing(), calibration.context_chars_per_token);
}

/// There is a context only if tokens of it are wanted, and then it has their
/// size. Context and prompt begin at any place behind which there is enough of
/// the corpus for both, and at its start if it is too short.
pub proof fn law_parts_have_the_wanted_sizes(
    generator: PromptGenerator,
    context: Seq<char>,
    prompt: Seq<char>,
    prompt_tokens: usize,
    context_tokens: usize,
    start: nat,
    suffix: Seq<char>,
)
    requires
        generator.composes(context, prompt, prompt_tokens, context_tokens, start, suffix),
        generator.corpus@.len() > 0,
    ensures
        ({
            let text = generator.corpus@;
            let adapt = generator.adapt_overhead;
            let size = generator.calibration.user_size(prompt_tokens, adapt);
            let needed = context.len() + prompt.len() - suffix.len();
            &&& context_tokens == 0 ==> context.len() == 0
            &&& context_tokens > 0 ==> context.len() == generator.calibration.context_size(
                context_tokens,
                adapt,
            )
            &&& suffix.len() <= size ==> prompt.len() == size
            &&& suffix.len() > size ==> prompt == suffix
            &&& prompt.len() >= suffix.len()
            &&& prompt.skip(prompt.len() - suffix.len()) == suffix
            &&& generator.last_start(prompt_tokens, context_tokens, suffix.len()) == if needed
                <= text.len() {
                text.len() - needed
            } else {
                0
            }
        }),
{
    let body = cyclic(
        generator.corpus@,
        start + generator.context_part(context_tokens) as nat,
        generator.prompt_part(prompt_tokens, suffix.len()) as nat,
    );
    assert(prompt =~= body + suffix);
    assert(prompt.skip(prompt.len() - suffix.len()) =~= suffix);
    if body.len() == 0 {
        assert(prompt =~= suffix);
    }
}

/// The text is a blank and a UUID of the kind that is made by chance: groups of
/// hexadecimal digits with hyphens between them.
pub open spec fn is_blank_and_uuid(s: Seq<char>) -> bool {
    &&& s.len() == 37
    &&& s[0] == ' '
    &&& s[15] == '4'
    &&& forall|i: int|
        1 <= i < 37 ==> {
            if i == 9 || i == 14 || i == 19 || i == 24 {
                #[trigger] s[i] == '-'
            } else {
                '0' <= s[i] <= '9' || 'a' <= s[i] <= 'f'
            }
        }
}

/// A prompt that is not to be cached ends with a blank and the text of a random
/// UUID; any other prompt has nothing behind its part of the corpus.
pub proof fn law_suffix_makes_prompts_unique(suffix: Seq<char>, no_cache: bool)
    requires
        PromptGenerator::is_suffix(suffix, no_cache),
    ensures
        no_cache ==> is_blank_and_uuid(suffix),
        !no_cache ==> suffix.len() == 0,
{
    if no_cache {
        let uuid = suffix.skip(1);
        assert(uuid.len() == 36);
        assert(uuid[14] == suffix[15]);
        assert forall|i: int| 1 <= i < 37 implies {
            if i == 9 || i == 14 || i == 19 || i == 24 {
                #[trigger] suffix[i] == '-'
            } else {
                '0' <= suffix[i] <= '9' || 'a' <= suffix[i] <= 'f'
            }
        } by {
            assert(uuid[i - 1] == suffix[i]);
        }
    }
}

/// The text is what stands from `start` on, all of it before the end unless it
/// starts at the start.
pub open spec fn stands_from(text: Seq<char>, start: nat, s: Seq<char>) -> bool {
    &&& s == cyclic(text, start, s.len())
    &&& start == 0 || start + s.len() <= text.len()
}

/// The text is a part of another one.
pub open spec fn is_part(text: Seq<char>, s: Seq<char>) -> bool {
    exists|start: nat| stands_from(text, start, s)
}

/// Context and prompt are one part of the corpus, begun at a place behind which
/// there is enough of it, or at its start. Both have the size of the wanted
/// tokens. Only a prompt that is not to be cached has something behind its part:
/// a blank and a UUID, which count for its size.
pub proof fn law_generated_prompts_are_parts_of_the_corpus(
    generator: PromptGenerator,
    context: Seq<char>,
    prompt: Seq<char>,
    prompt_tokens: usize,
    context_tokens: usize,
    no_cache: bool,
)
    requires
        generator.can_generate(context, prompt, prompt_tokens, context_tokens, no_cache),
        generator.corpus@.len() > 0,
    ensures
        ({
            let text = generator.corpus@;
            let adapt = generator.adapt_overhead;
            let size = generator.calibration.user_size(prompt_tokens, adapt);
            let behind: int = if no_cache {
                37
            } else {
                0
            };
            let part = prompt.take(prompt.len() - behind);
            &&& prompt.len() >= behind
            &&& prompt.len() == if size > behind {
                size as int
            } else {
                behind
            }
            &&& no_cache ==> is_blank_and_uuid(prompt.skip(prompt.len() - behind))
            &&& context.len() == if context_tokens == 0 {
                0
            } else {
                generator.calibration.context_size(context_tokens, adapt)
            }
            &&& is_part(text, context + part)
        }),
{
    let text = generator.corpus@;
    let (start, suffix) = choose|start: nat, suffix: Seq<char>|
        {
            &&& #[trigger] generator.composes(
                context,
                prompt,
                prompt_tokens,
                context_tokens,
                start,
                suffix,
            )
            &&& PromptGenerator::is_suffix(suffix, no_cache)
            &&& start <= generator.last_start(prompt_tokens, context_tokens, suffix.len())
        };
    law_suffix_makes_prompts_unique(suffix, no_cache);
    law_parts_have_the_wanted_sizes(
        generator,
        context,
        prompt,
        prompt_tokens,
        context_tokens,
        start,
        suffix,
    );
    law_prompt_continues_context(
        generator,
        context,
        prompt,
        prompt_tokens,
        context_tokens,
        start,
        suffix,
    );
    let part = prompt.take(prompt.len() - suffix.len());
    let slice = cyclic(text, start, context.len() + part.len());
    assert((context + prompt).take((context.len() + part.len()) as int) =~= context + part);
    assert((slice + suffix).take(slice.len() as int) =~= slice);
    assert(stands_from(text, start, context + part));
}

/// A slice is what stands in the text from its start on, and behind the end of
/// the text it goes on with its begin.
pub proof fn law_slices_go_round(text: Seq<char>, start: nat, len: nat)
    requires
        text.len() > 0,
    ensures
        cyclic(text, start, len).len() == len,
        cyclic(text, start + text.len(), len) == cyclic(text, start, len),
        len > 0 && start < text.len() ==> cyclic(text, start, len)[0] == text[start as int],
        len > 0 ==> cyclic(text, start, len).drop_first() == cyclic(
            text,
            start + 1,
            (len - 1) as nat,
        ),
{
    let n = text.len() as int;
    let one = cyclic(text, start, len);
    let other = cyclic(text, start + text.len(), len);
    assert forall|i: int| 0 <= i < len implies #[trigger] other[i] == one[i] by {
        vstd::arithmetic::div_mod::lemma_mod_add_multiples_vanish(start + i, n);
        assert((start + text.len() + i) == n + (start + i));
    }
    assert(other =~= one);
    if len > 0 {
        if start < text.len() {
            vstd::arithmetic::div_mod::lemma_small_mod(start, text.len());
        }
        assert(one.drop_first() =~= cyclic(text, start + 1, (len - 1) as nat));
    }
}

/// The calibration has the first characters of the text counted: 512 of them
/// for the short sample and 8192 for the long one, which goes on where the short
/// one ends.
pub proof fn law_samples_of_the_calibration_have_one_start(text: Seq<char>)
    requires
        text.len() > 0,
    ensures
        ({
            let short = cyclic(text, 0, SHORT_SAMPLE as nat);
            let long = cyclic(text, 0, LONG_SAMPLE as nat);
            &&& short.len() == 512
            &&& long.len() == 8192
            &&& long.take(512) == short
            &&& text.len() >= 8192 ==> long == text.take(8192)
        }),
{
    let long = cyclic(text, 0, LONG_SAMPLE as nat);
    assert(long.take(512) =~= cyclic(text, 0, 512));
    if text.len() >= 8192 {
        assert forall|i: int| 0 <= i < 8192 implies #[trigger] long[i] == text[i] by {
            vstd::arithmetic::div_mod::lemma_small_mod(i as nat, text.len());
        }
        assert(long =~= text.take(8192));
    }
}

} // verus!
