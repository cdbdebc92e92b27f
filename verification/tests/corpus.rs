use rust_benchy::corpus::{cache_file_name, strip_gutenberg_header, Corpus};
use rust_benchy::error::Error;

#[test]
fn slices_unicode_by_characters_and_wraps() {
    let corpus = Corpus::load("aé日".to_owned()).unwrap();
    assert_eq!(corpus.slice_chars(1, 2), "é日");
    assert_eq!(corpus.slice_chars(2, 4), "日aé日");
}

#[test]
fn slices_start_behind_the_end() {
    let corpus = Corpus::load("abc".to_owned()).unwrap();
    assert_eq!(corpus.len_chars(), 3);
    assert_eq!(corpus.slice_chars(4, 2), "bc");
    assert_eq!(corpus.slice_chars(0, 7), "abcabca");
    assert_eq!(corpus.slice_chars(1, 0), "");
}

#[test]
fn neighbouring_slices_make_one_slice() {
    let corpus = Corpus::load("0123456789".to_owned()).unwrap();
    let mut both = corpus.slice_chars(7, 5);
    both.push_str(&corpus.slice_chars(12, 4));
    assert_eq!(both, corpus.slice_chars(7, 9));
    assert_eq!(corpus.slice_chars(2, 5), "23456");
}

#[test]
fn header_of_a_book_is_cut_off() {
    let text = "The licence.\n*** START OF THE PROJECT GUTENBERG EBOOK 1661 ***\nTo Sherlock Holmes";
    let stripped = strip_gutenberg_header(text.to_owned());
    assert_eq!(
        stripped,
        "*** START OF THE PROJECT GUTENBERG EBOOK 1661 ***\nTo Sherlock Holmes"
    );
    assert_eq!(strip_gutenberg_header("no marker".to_owned()), "no marker");
    let corpus = Corpus::load(text.to_owned()).unwrap();
    assert_eq!(corpus.slice_chars(0, 9), "*** START");
}

#[test]
fn empty_corpus_is_refused() {
    let error = Corpus::load(String::new()).unwrap_err();
    assert!(matches!(&error, Error::Config(text) if text == "the prompt corpus is empty"));
    assert_eq!(
        error.message(),
        "invalid configuration: the prompt corpus is empty"
    );
}

#[test]
fn calibration_sample_has_at_least_one_character() {
    let corpus = Corpus::load("xyz".to_owned()).unwrap();
    assert_eq!(corpus.calibration_sample(0), "x");
    assert_eq!(corpus.calibration_sample(5), "xyzxy");
}

#[test]
fn cache_file_names_are_sixteen_digits() {
    let name = cache_file_name("https://www.gutenberg.org/files/1661/1661-0.txt");
    assert_eq!(name.len(), 20);
    assert!(name.ends_with(".txt"));
    assert!(name[..16]
        .chars()
        .all(|c| c.is_ascii_digit() || ('a'..='f').contains(&c)));
    assert_eq!(
        name,
        cache_file_name("https://www.gutenberg.org/files/1661/1661-0.txt")
    );
    assert_ne!(name, cache_file_name("https://www.gutenberg.org/"));
}

#[test]
fn cache_file_name_is_the_hash_of_the_address() {
    let mut hasher = std::collections::hash_map::DefaultHasher::new();
    std::hash::Hash::hash("http://localhost/book", &mut hasher);
    let value = std::hash::Hasher::finish(&hasher);
    assert_eq!(
        cache_file_name("http://localhost/book"),
        format!("{value:016x}.txt")
    );
}
