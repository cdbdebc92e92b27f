//! Prompts of a wanted size.

use vstd::arithmetic::div_mod::lemma_fundamental_div_mod_converse;
use vstd::prelude::*;

use rand::Rng;

use crate::corpus::cyclic;
use crate::corpus::law_slices_are_parts;
use crate::corpus::law_slices_follow_one_another;
use crate::corpus::Corpus;
use crate::exact::mul_div_rounded;
use crate::exact::rounded;
use crate::text::digit;

verus! {

/// A number that need not be whole: `num / den`.
#[derive(Debug, Clone, Copy, PartialEq, Eq, Structural)]
pub struct Fraction {
    pub num: u128,
    pub den: u64,
}

/// How the endpoint counts tokens: so many characters make a token, and each
/// request has so many tokens besides.
#[derive(Debug, Clone, Copy, PartialEq, Eq, Structural)]
pub struct Calibration {
    pub user_chars_per_token: Fraction,
    pub context_chars_per_token: Fraction,
    pub user_overhead_tokens: Fraction,
    pub context_overhead_tokens: Fraction,
}

/// Four characters for each token, and no overhead.
pub open spec fn assumed() -> (Fraction, Fraction) {
    (Fraction { num: 4, den: 1 }, Fraction { num: 0, den: 1 })
}

/// The characters per token and the overhead in tokens of the line through two
/// measured points. There are at least half a character and at most twenty
/// characters for each token, and the overhead is not negative.
pub open spec fn fitted(
    short_chars: usize,
    long_chars: usize,
    short_tokens: usize,
    long_tokens: usize,
) -> (Fraction, Fraction) {
    let chars = long_chars - short_chars;
    let tokens = long_tokens - short_tokens;
    let beyond = short_tokens * chars - short_chars * tokens;
    if tokens <= 0 || chars <= 0 {
        assumed()
    } else {
        (
            if 2 * chars < tokens {
                Fraction { num: 1, den: 2 }
            } else if chars > 20 * tokens {
                Fraction { num: 20, den: 1 }
            } else {
                Fraction { num: chars as u128, den: tokens as u64 }
            },
            if beyond > 0 {
                Fraction { num: beyond as u128, den: chars as u64 }
            } else {
                Fraction { num: 0, den: 1 }
            },
        )
    }
}

/// The line through two measured points.
fn fit(short_chars: usize, long_chars: usize, short_tokens: usize, long_tokens: usize) -> (r: (
    Fraction,
    Fraction,
))
    ensures
        r == fitted(short_chars, long_chars, short_tokens, long_tokens),
        r.0.den > 0,
        r.1.den > 0,
{
    if long_tokens <= short_tokens || long_chars <= short_chars {
        return (Fraction { num: 4, den: 1 }, Fraction { num: 0, den: 1 });
    }
    let chars: u128 = (long_chars - short_chars) as u128;
    let tokens: u128 = (long_tokens - short_tokens) as u128;
    let density = if 2 * chars < tokens {
        Fraction { num: 1, den: 2 }
    } else if chars > 20 * tokens {
        Fraction { num: 20, den: 1 }
    } else {
        Fraction { num: chars, den: tokens as u64 }
    };
    proof {
        lemma_word_product(short_tokens as int, chars as int);
        lemma_word_product(short_chars as int, tokens as int);
    }
    let counted: u128 = short_tokens as u128 * chars;
    let explained: u128 = short_chars as u128 * tokens;
    let overhead = if counted > explained {
        Fraction { num: counted - explained, den: chars as u64 }
    } else {
        Fraction { num: 0, den: 1 }
    };
    (density, overhead)
}

proof fn lemma_word_product(a: int, b: int)
    requires
        0 <= a <= u64::MAX,
        0 <= b <= u64::MAX,
    ensures
        0 <= a * b <= 0xffff_ffff_ffff_ffff * 0xffff_ffff_ffff_ffff,
        0xffff_ffff_ffff_ffff * 0xffff_ffff_ffff_ffff <= u128::MAX,
{
    assert(0 <= a * b <= 0xffff_ffff_ffff_ffff * 0xffff_ffff_ffff_ffff) by (nonlinear_arith)
        requires
            0 <= a <= 0xffff_ffff_ffff_ffff,
            0 <= b <= 0xffff_ffff_ffff_ffff,
    ;
}

/// How many characters make `tokens` tokens: the tokens without the overhead,
/// at least one, at so many characters each, rounded.
pub open spec fn chars_for(tokens: usize, overhead: Fraction, density: Fraction) -> usize {
    let beyond = tokens * overhead.den - overhead.num;
    let scaled = if beyond > overhead.den {
        beyond
    } else {
        overhead.den as int
    };
    let chars = rounded(scaled * density.num, overhead.den * density.den);
    if chars <= usize::MAX {
        chars as usize
    } else {
        usize::MAX
    }
}

/// How many characters make `tokens` tokens.
fn chars_of_tokens(tokens: usize, overhead: Fraction, density: Fraction) -> (r: usize)
    requires
        overhead.den > 0,
        density.den > 0,
    ensures
        r == chars_for(tokens, overhead, density),
{
    proof {
        lemma_word_product(tokens as int, overhead.den as int);
        lemma_word_product(overhead.den as int, density.den as int);
        assert(overhead.den * density.den > 0) by (nonlinear_arith)
            requires
                overhead.den > 0,
                density.den > 0,
        ;
    }
    let all: u128 = tokens as u128 * overhead.den as u128;
    let one: u128 = overhead.den as u128;
    let scaled: u128 = if all > overhead.num && all - overhead.num > one {
        all - overhead.num
    } else {
        one
    };
    let unit: u128 = overhead.den as u128 * density.den as u128;
    mul_div_rounded(scaled, density.num, unit, usize::MAX as u64) as usize
}

impl Default for Calibration {
    fn default() -> (r: Calibration)
        ensures
            r.user_chars_per_token == assumed().0,
            r.context_chars_per_token == assumed().0,
            r.user_overhead_tokens == assumed().1,
            r.context_overhead_tokens == assumed().1,
    {
        Calibration {
            user_chars_per_token: Fraction { num: 4, den: 1 },
            context_chars_per_token: Fraction { num: 4, den: 1 },
            user_overhead_tokens: Fraction { num: 0, den: 1 },
            context_overhead_tokens: Fraction { num: 0, den: 1 },
        }
    }
}

impl Calibration {
    /// The four numbers are numbers.
    pub open spec fn wf(self) -> bool {
        &&& self.user_chars_per_token.den > 0
        &&& self.context_chars_per_token.den > 0
        &&& self.user_overhead_tokens.den > 0
        &&& self.context_overhead_tokens.den > 0
    }

    /// Calibrates from the tokens that the endpoint counted for a short and a
    /// long text, each as a user prompt and as a context.
    pub fn from_samples(
        short_chars: usize,
        long_chars: usize,
        user_short_tokens: usize,
        user_long_tokens: usize,
        context_short_tokens: usize,
        context_long_tokens: usize,
    ) -> (r: Calibration)
        ensures
            r.wf(),
            (r.user_chars_per_token, r.user_overhead_tokens) == fitted(
                short_chars,
                long_chars,
                user_short_tokens,
                user_long_tokens,
            ),
            (r.context_chars_per_token, r.context_overhead_tokens) == fitted(
                short_chars,
                long_chars,
                context_short_tokens,
                context_long_tokens,
            ),
    {
        let (user_chars_per_token, user_overhead_tokens) = fit(
            short_chars,
            long_chars,
            user_short_tokens,
            user_long_tokens,
        );
        let (context_chars_per_token, context_overhead_tokens) = fit(
            short_chars,
            long_chars,
            context_short_tokens,
            context_long_tokens,
        );
        Calibration {
            user_chars_per_token,
            context_chars_per_token,
            user_overhead_tokens,
            context_overhead_tokens,
        }
    }

    pub open spec fn user_size(self, tokens: usize, adapt: bool) -> usize {
        chars_for(
            tokens,
            if adapt {
                self.user_overhead_tokens
            } else {
                Fraction { num: 0, den: 1 }
            },
            self.user_chars_per_token,
        )
    }

    pub open spec fn context_size(self, tokens: usize, adapt: bool) -> usize {
        chars_for(
            tokens,
            if adapt {
                self.context_overhead_tokens
            } else {
                Fraction { num: 0, den: 1 }
            },
            self.context_chars_per_token,
        )
    }

    /// How many characters of a user prompt make `tokens` tokens.
    pub fn user_chars(&self, tokens: usize, adapt: bool) -> (r: usize)
        requires
            self.wf(),
        ensures
            r == self.user_size(tokens, adapt),
    {
        let overhead = if adapt {
            self.user_overhead_tokens
        } else {
            Fraction { num: 0, den: 1 }
        };
        chars_of_tokens(tokens, overhead, self.user_chars_per_token)
    }

    /// How many characters of a context make `tokens` tokens.
    pub fn context_chars(&self, tokens: usize, adapt: bool) -> (r: usize)
        requires
            self.wf(),
        ensures
            r == self.context_size(tokens, adapt),
    {
        let overhead = if adapt {
            self.context_overhead_tokens
        } else {
            Fraction { num: 0, den: 1 }
        };
        chars_of_tokens(tokens, overhead, self.context_chars_per_token)
    }
}

/// `rand::rng().random_range(0..=most)`: a number that is not above `most`.
#[verifier::external_body]
fn random_up_to(most: usize) -> (r: usize)
    ensures
        r <= most,
{
    rand::rng().random_range(0..=most)
}

/// A hexadecimal digit in lower case.
pub open spec fn is_hex_digit(c: char) -> bool {
    exists|d: nat| d < 16 && c == #[trigger] digit(d)
}

/// The text of a random UUID: five groups of hexadecimal digits with hyphens
/// between them, and the marks of version and variant.
pub open spec fn is_random_uuid(s: Seq<char>) -> bool {
    &&& s.len() == 36
    &&& forall|i: int|
        0 <= i < 36 ==> if i == 8 || i == 13 || i == 18 || i == 23 {
            #[trigger] s[i] == '-'
        } else {
            is_hex_digit(s[i])
        }
    &&& s[14] == '4'
    &&& s[19] == '8' || s[19] == '9' || s[19] == 'a' || s[19] == 'b'
}

/// `uuid::Uuid::new_v4`, written by its `Display`.
#[verifier::external_body]
fn random_uuid() -> (r: String)
    ensures
        is_random_uuid(r@),
{
    uuid::Uuid::new_v4().to_string()
}

/// Cuts prompts of a wanted size from a corpus.
#[derive(Clone)]
pub struct PromptGenerator {
    pub corpus: Corpus,
    pub calibration: Calibration,
    pub adapt_overhead: bool,
}

impl PromptGenerator {
    pub open spec fn wf(self) -> bool {
        self.calibration.wf()
    }

    /// How many characters of context a prompt gets.
    pub open spec fn context_part(self, context_tokens: usize) -> usize {
        if context_tokens == 0 {
            0
        } else {
            self.calibration.context_size(context_tokens, self.adapt_overhead)
        }
    }

    /// How many characters of the corpus a prompt gets before a suffix of the
    /// length.
    pub open spec fn prompt_part(self, prompt_tokens: usize, suffix: nat) -> usize {
        let size = self.calibration.user_size(prompt_tokens, self.adapt_overhead);
        if size >= suffix {
            (size - suffix) as usize
        } else {
            0
        }
    }

    /// The last place of the corpus where context and prompt may begin: what
    /// they need fits behind it, or else they begin at its start.
    pub open spec fn last_start(
        self,
        prompt_tokens: usize,
        context_tokens: usize,
        suffix: nat,
    ) -> nat {
        let needed = self.context_part(context_tokens) + self.prompt_part(prompt_tokens, suffix);
        if needed < self.corpus@.len() {
            (self.corpus@.len() - needed) as nat
        } else {
            0
        }
    }

    /// Context and prompt are what the corpus has from `start` on, one after
    /// the other, and the prompt ends with `suffix`.
    pub open spec fn composes(
        self,
        context: Seq<char>,
        prompt: Seq<char>,
        prompt_tokens: usize,
        context_tokens: usize,
        start: nat,
        suffix: Seq<char>,
    ) -> bool {
        let context_part = self.context_part(context_tokens) as nat;
        let prompt_part = self.prompt_part(prompt_tokens, suffix.len()) as nat;
        &&& context == cyclic(self.corpus@, start, context_part)
        &&& prompt == cyclic(self.corpus@, start + context_part, prompt_part) + suffix
    }

    /// What makes prompts unique: a blank and a random UUID. Without it there
    /// is no suffix.
    pub open spec fn is_suffix(suffix: Seq<char>, no_cache: bool) -> bool {
        if no_cache {
            suffix.len() > 0 && suffix[0] == ' ' && is_random_uuid(suffix.skip(1))
        } else {
            suffix.len() == 0
        }
    }

    /// Context and prompt are ones that can be generated.
    pub open spec fn can_generate(
        self,
        context: Seq<char>,
        prompt: Seq<char>,
        prompt_tokens: usize,
        context_tokens: usize,
        no_cache: bool,
    ) -> bool {
        exists|start: nat, suffix: Seq<char>|
            {
                &&& #[trigger] self.composes(
                    context,
                    prompt,
                    prompt_tokens,
                    context_tokens,
                    start,
                    suffix,
                )
                &&& Self::is_suffix(suffix, no_cache)
                &&& start <= self.last_start(prompt_tokens, context_tokens, suffix.len())
            }
    }

    pub fn new(corpus: Corpus, calibration: Calibration, adapt_overhead: bool) -> (r:
        PromptGenerator)
        ensures
            r.corpus == corpus,
            r.calibration == calibration,
            r.adapt_overhead == adapt_overhead,
    {
        PromptGenerator { corpus, calibration, adapt_overhead }
    }

    /// How many characters of context, and then of prompt, are needed before
    /// `suffix`.
    fn parts(&self, prompt_tokens: usize, context_tokens: usize, suffix: &str) -> (r: (
        usize,
        usize,
    ))
        requires
            self.wf(),
        ensures
            r.0 == self.context_part(context_tokens),
            r.1 == self.prompt_part(prompt_tokens, suffix@.len()),
    {
        let context_chars: usize = if context_tokens == 0 {
            0
        } else {
            self.calibration.context_chars(context_tokens, self.adapt_overhead)
        };
        let suffix_chars: usize = suffix.unicode_len();
        let prompt_chars: usize = self.calibration.user_chars(
            prompt_tokens,
            self.adapt_overhead,
        ).saturating_sub(suffix_chars);
        (context_chars, prompt_chars)
    }

    /// The last place of the corpus where context and prompt may begin.
    pub fn max_start(&self, prompt_tokens: usize, context_tokens: usize, suffix: &str) -> (r: usize)
        requires
            self.wf(),
        ensures
            r == self.last_start(prompt_tokens, context_tokens, suffix@.len()),
    {
        let (context_chars, prompt_chars) = self.parts(prompt_tokens, context_tokens, suffix);
        let needed: usize = context_chars.saturating_add(prompt_chars);
        self.corpus.len_chars().saturating_sub(needed)
    }

    /// The context and the prompt that begin at `start` and end with `suffix`.
    pub fn compose(
        &self,
        prompt_tokens: usize,
        context_tokens: usize,
        start: usize,
        suffix: &str,
    ) -> (r: (String, String))
        requires
            self.wf(),
            start <= self.last_start(prompt_tokens, context_tokens, suffix@.len()),
        ensures
            self.composes(r.0@, r.1@, prompt_tokens, context_tokens, start as nat, suffix@),
    {
        let (context_chars, prompt_chars) = self.parts(prompt_tokens, context_tokens, suffix);
        let available: usize = self.corpus.len_chars();
        let context = self.corpus.slice_chars(start, context_chars);
        assert(start + context_chars <= available || start == 0);
        let mut prompt = self.corpus.slice_chars(start + context_chars, prompt_chars);
        prompt.append(suffix);
        (context, prompt)
    }

    /// A context and a prompt of the wanted sizes.
    pub fn generate(&self, prompt_tokens: usize, context_tokens: usize, no_cache: bool) -> (r: (
        String,
        String,
    ))
        requires
            self.wf(),
        ensures
            self.can_generate(r.0@, r.1@, prompt_tokens, context_tokens, no_cache),
    {
        let suffix = if no_cache {
            let uuid = random_uuid();
            let text = " ".to_owned().concat(uuid.as_str());
            proof {
                reveal_strlit(" ");
                assert(text@.skip(1) == uuid@);
            }
            text
        } else {
            String::new()
        };
        let max_start: usize = self.max_start(prompt_tokens, context_tokens, suffix.as_str());
        let start: usize = if max_start == 0 {
            0
        } else {
            random_up_to(max_start)
        };
        self.compose(prompt_tokens, context_tokens, start, suffix.as_str())
    }

    /// `count` contexts and prompts of the wanted sizes.
    pub fn generate_batch(&self, count: usize, pp: usize, depth: usize, no_cache: bool) -> (r: Vec<
        (String, String),
    >)
        requires
            self.wf(),
        ensures
            r@.len() == count,
            forall|i: int|
                0 <= i < count ==> self.can_generate(
                    (#[trigger] r@[i]).0@,
                    r@[i].1@,
                    pp,
                    depth,
                    no_cache,
                ),
    {
        let mut prompts: Vec<(String, String)> = Vec::new();
        while prompts.len() < count
            invariant
                self.wf(),
                prompts@.len() <= count,
                forall|i: int|
                    0 <= i < prompts@.len() ==> self.can_generate(
                        (#[trigger] prompts@[i]).0@,
                        prompts@[i].1@,
                        pp,
                        depth,
                        no_cache,
                    ),
            decreases count - prompts.len(),
        {
            prompts.push(self.generate(pp, depth, no_cache));
        }
        prompts
    }
}

/// Without a calibration four characters make a token, and there is at least
/// one token.
pub proof fn law_four_characters_per_token(calibration: Calibration, tokens: usize, adapt: bool)
    requires
        (calibration.user_chars_per_token, calibration.user_overhead_tokens) == assumed(),
        (calibration.context_chars_per_token, calibration.context_overhead_tokens) == assumed(),
    ensures
        ({
            let wanted = if tokens > 1 {
                4 * tokens
            } else {
                4
            };
            let size = if wanted <= usize::MAX {
                wanted
            } else {
                usize::MAX as int
            };
            &&& calibration.user_size(tokens, adapt) == size
            &&& calibration.context_size(tokens, adapt) == size
        }),
{
    let scaled: int = if tokens > 1 {
        tokens as int
    } else {
        1
    };
    assert(tokens * 1u64 == tokens && 1u64 * 1u64 == 1) by (nonlinear_arith);
    lemma_fundamental_div_mod_converse(2 * (scaled * 4) + 1, 2, scaled * 4, 1);
    assert(rounded(scaled * 4, 1) == 4 * scaled);
}

/// An endpoint that counts `den` tokens for every `num` characters, and
/// `overhead` tokens besides, is found out from two texts of different length:
/// the calibration has that density, if it is one between half a character and
/// twenty characters for each token, and that overhead.
pub proof fn law_calibration_finds_linear_counts(
    short_chars: usize,
    long_chars: usize,
    short_tokens: usize,
    long_tokens: usize,
    num: nat,
    den: nat,
    overhead: nat,
)
    requires
        short_chars < long_chars,
        num > 0,
        den > 0,
        den <= 2 * num,
        num <= 20 * den,
        den * short_chars == num * (short_tokens - overhead),
        den * long_chars == num * (long_tokens - overhead),
    ensures
        ({
            let (density, besides) = fitted(short_chars, long_chars, short_tokens, long_tokens);
            &&& density.num * den == num * density.den
            &&& besides.num == overhead * besides.den
        }),
{
    let chars = long_chars - short_chars;
    let tokens = long_tokens - short_tokens;
    assert(den * chars == num * tokens) by (nonlinear_arith)
        requires
            chars == long_chars - short_chars,
            tokens == long_tokens - short_tokens,
            den * short_chars == num * (short_tokens - overhead),
            den * long_chars == num * (long_tokens - overhead),
    ;
    assert(tokens > 0) by (nonlinear_arith)
        requires
            den * chars == num * tokens,
            den > 0,
            num > 0,
            chars > 0,
    ;
    assert(2 * chars >= tokens) by (nonlinear_arith)
        requires
            den * chars == num * tokens,
            den <= 2 * num,
            den > 0,
            tokens > 0,
            chars > 0,
    ;
    assert(chars <= 20 * tokens) by (nonlinear_arith)
        requires
            den * chars == num * tokens,
            num <= 20 * den,
            den > 0,
            tokens > 0,
            chars > 0,
    ;
    let beyond = short_tokens * chars - short_chars * tokens;
    assert(num * beyond == num * (overhead * chars)) by (nonlinear_arith)
        requires
            beyond == short_tokens * chars - short_chars * tokens,
            den * chars == num * tokens,
            den * short_chars == num * (short_tokens - overhead),
    ;
    assert(beyond == overhead * chars) by (nonlinear_arith)
        requires
            num * beyond == num * (overhead * chars),
            num > 0,
    ;
    lemma_word_product(short_tokens as int, chars);
    assert(beyond <= short_tokens * chars) by (nonlinear_arith)
        requires
            beyond == short_tokens * chars - short_chars * tokens,
            tokens > 0,
    ;
    assert(chars * den == num * tokens) by (nonlinear_arith)
        requires
            den * chars == num * tokens,
    ;
    assert(overhead * chars >= 0 && (overhead > 0 ==> overhead * chars > 0)) by (nonlinear_arith)
        requires
            chars > 0,
    ;
}

/// Context and prompt are one stretch of the corpus, with the suffix behind
/// it. It does not reach beyond the end of the corpus if the corpus is long
/// enough. The prompt, suffix included, has the wanted size if the suffix is
/// not longer than that.
pub proof fn law_prompt_continues_context(
    generator: PromptGenerator,
    context: Seq<char>,
    prompt: Seq<char>,
    prompt_tokens: usize,
    context_tokens: usize,
    start: nat,
    suffix: Seq<char>,
)
    requires
        generator.composes(context, prompt, prompt_tokens, context_tokens, start, suffix),
        start <= generator.last_start(prompt_tokens, context_tokens, suffix.len()),
        generator.corpus@.len() > 0,
    ensures
        ({
            let text = generator.corpus@;
            let size = generator.calibration.user_size(prompt_tokens, generator.adapt_overhead);
            let needed = generator.context_part(context_tokens) as nat + generator.prompt_part(
                prompt_tokens,
                suffix.len(),
            ) as nat;
            &&& context + prompt == cyclic(text, start, needed) + suffix
            &&& needed <= text.len() ==> context + prompt == text.subrange(
                start as int,
                (start + needed) as int,
            ) + suffix
            &&& context.len() == generator.context_part(context_tokens)
            &&& suffix.len() <= size ==> prompt.len() == size
        }),
{
    let text = generator.corpus@;
    let context_part = generator.context_part(context_tokens) as nat;
    let prompt_part = generator.prompt_part(prompt_tokens, suffix.len()) as nat;
    law_slices_follow_one_another(text, start, context_part, prompt_part);
    assert(context + prompt =~= cyclic(text, start, context_part + prompt_part) + suffix);
    if context_part + prompt_part <= text.len() {
        law_slices_are_parts(text, start, context_part + prompt_part);
    }
}

} // verus!
