use rust_benchy::corpus::Corpus;
use rust_benchy::prompt::{Calibration, Fraction, PromptGenerator};

fn value(fraction: Fraction) -> f64 {
    fraction.num as f64 / fraction.den as f64
}

#[test]
fn calibration_fits_linear_token_counts() {
    let c = Calibration::from_samples(100, 1000, 30, 255, 40, 265);
    assert!((value(c.user_chars_per_token) - 4.0).abs() < 0.001);
    assert!((value(c.user_overhead_tokens) - 5.0).abs() < 0.001);
    assert!((value(c.context_overhead_tokens) - 15.0).abs() < 0.001);
}

#[test]
fn calibration_is_clamped() {
    // 900 characters make 9000 tokens on one side and 9 on the other.
    let c = Calibration::from_samples(100, 1000, 1000, 10000, 1, 10);
    assert!((value(c.user_chars_per_token) - 0.5).abs() < 1e-12);
    assert!((value(c.context_chars_per_token) - 20.0).abs() < 1e-12);
    assert!(value(c.user_overhead_tokens).abs() < 1e-12);
    assert!(value(c.context_overhead_tokens).abs() < 1e-12);
}

#[test]
fn calibration_without_growth_assumes_four_characters() {
    for c in [
        Calibration::from_samples(100, 1000, 30, 30, 40, 20),
        Calibration::from_samples(1000, 1000, 30, 255, 40, 265),
        Calibration::default(),
    ] {
        assert_eq!(c.user_chars_per_token, Fraction { num: 4, den: 1 });
        assert_eq!(c.context_chars_per_token, Fraction { num: 4, den: 1 });
        assert_eq!(c.user_overhead_tokens, Fraction { num: 0, den: 1 });
        assert_eq!(c.context_overhead_tokens, Fraction { num: 0, den: 1 });
    }
}

#[test]
fn sizes_make_up_for_the_overhead() {
    let c = Calibration::from_samples(100, 1000, 30, 255, 40, 265);
    assert_eq!(c.user_chars(105, true), 400);
    assert_eq!(c.user_chars(105, false), 420);
    assert_eq!(c.context_chars(115, true), 400);
    assert_eq!(c.context_chars(115, false), 460);
    // Less than the overhead counts as one token.
    assert_eq!(c.user_chars(3, true), 4);
    assert_eq!(c.user_chars(0, false), 4);
}

#[test]
fn sizes_are_rounded() {
    // Seven characters for every two tokens.
    let c = Calibration::from_samples(7, 14, 2, 4, 2, 4);
    assert_eq!(c.user_chars(1, true), 4);
    assert_eq!(c.user_chars(2, true), 7);
    assert_eq!(c.user_chars(3, true), 11);
}

#[test]
fn four_characters_make_a_token_by_default() {
    let c = Calibration::default();
    assert_eq!(c.user_chars(2048, true), 8192);
    assert_eq!(c.context_chars(4096, false), 16384);
    assert_eq!(c.user_chars(usize::MAX, true), usize::MAX);
}

fn generator(text: &str) -> PromptGenerator {
    let corpus = Corpus::load(text.to_owned()).unwrap();
    PromptGenerator::new(corpus, Calibration::default(), true)
}

#[test]
fn prompt_continues_the_context() {
    let generator = generator("abcdefghijklmnopqrstuvwxyz");
    assert_eq!(generator.max_start(2, 3, ""), 6);
    let (context, prompt) = generator.compose(2, 3, 5, "");
    assert_eq!(context, "fghijklmnopq");
    assert_eq!(prompt, "rstuvwxy");
}

#[test]
fn short_corpus_wraps() {
    let generator = generator("abc");
    assert_eq!(generator.max_start(1, 1, ""), 0);
    let (context, prompt) = generator.generate(1, 1, false);
    assert_eq!(context, "abca");
    assert_eq!(prompt, "bcab");
}

#[test]
fn no_context_without_depth() {
    let generator = generator("abcdefghijklmnopqrstuvwxyz");
    for (context, prompt) in generator.generate_batch(20, 3, 0, false) {
        assert_eq!(context, "");
        assert_eq!(prompt.len(), 12);
        assert!("abcdefghijklmnopqrstuvwxyz".contains(&prompt));
    }
}

#[test]
fn starts_vary() {
    let text: String = (0..4000u32)
        .map(|i| char::from_u32(0x4e00 + i).unwrap())
        .collect();
    let generator = generator(&text);
    let prompts = generator.generate_batch(16, 1, 0, false);
    assert_eq!(prompts.len(), 16);
    assert!(prompts.iter().any(|prompt| prompt != &prompts[0]));
}

#[test]
fn suffix_makes_prompts_unique_and_keeps_their_size() {
    let generator = generator("abcdefghijklmnopqrstuvwxyz");
    let prompts = generator.generate_batch(2, 20, 0, true);
    for (_, prompt) in &prompts {
        assert_eq!(prompt.chars().count(), 80);
        let suffix: Vec<char> = prompt.chars().skip(80 - 37).collect();
        assert_eq!(suffix[0], ' ');
        for (i, c) in suffix[1..].iter().enumerate() {
            if [8, 13, 18, 23].contains(&i) {
                assert_eq!(*c, '-');
            } else {
                assert!(c.is_ascii_digit() || ('a'..='f').contains(c));
            }
        }
        assert_eq!(suffix[15], '4');
    }
    let ends: Vec<String> = prompts
        .iter()
        .map(|(_, prompt)| prompt.chars().skip(80 - 36).collect())
        .collect();
    assert_ne!(ends[0], ends[1]);
}

#[test]
fn suffix_longer_than_the_prompt_stays() {
    let generator = generator("abc");
    let (_, prompt) = generator.generate(1, 0, true);
    assert_eq!(prompt.chars().count(), 37);
}
