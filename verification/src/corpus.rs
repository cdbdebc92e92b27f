//! The text that prompts are cut from.

use std::collections::hash_map::DefaultHasher;
use std::hash::Hash;
use std::hash::Hasher;

use vstd::prelude::*;
use vstd::std_specs::hash::DefaultHasherAdditionalSpecFns;

use crate::error::Error;
use crate::error::ErrorView;
use crate::text::characters;
use crate::text::find;
use crate::text::hexadecimal;
use crate::text::hexadecimal_text;
use crate::text::occurrence;
use crate::text::text_between;

verus! {

/// What stands before the text of a book of Project Gutenberg.
pub const MARKER: &'static str = "*** START OF THE PROJECT GUTENBERG EBOOK";

/// A text whose characters can be reached by their number.
#[derive(Debug, Clone)]
pub struct Corpus {
    chars: Vec<char>,
}

impl View for Corpus {
    type V = Seq<char>;

    closed spec fn view(&self) -> Seq<char> {
        self.chars@
    }
}

/// The text from the marker on, or all of it where there is no marker.
pub open spec fn from_marker(text: Seq<char>) -> Seq<char> {
    match occurrence(text, MARKER@) {
        Some(at) => text.skip(at),
        None => text,
    }
}

/// `len` characters of the text from `start` on, as if its end were followed
/// by its begin.
pub open spec fn cyclic(text: Seq<char>, start: nat, len: nat) -> Seq<char> {
    if text.len() == 0 {
        Seq::empty()
    } else {
        Seq::new(len, |i: int| text[(start + i) % (text.len() as int)])
    }
}

/// The text from the marker on.
pub fn strip_gutenberg_header(text: String) -> (r: String)
    ensures
        r@ == from_marker(text@),
{
    let chars = characters(text.as_str());
    let marker = characters(MARKER);
    match find(&chars, &marker) {
        Some(at) => text_between(&chars, at, chars.len()),
        None => text,
    }
}

impl Corpus {
    /// The corpus from what was read of it.
    pub fn load(text: String) -> (r: Result<Corpus, Error>)
        ensures
            match r {
                Ok(corpus) => corpus@ == from_marker(text@) && corpus@.len() > 0,
                Err(error) => from_marker(text@).len() == 0 && error@ == ErrorView::Config(
                    "the prompt corpus is empty"@,
                ),
            },
    {
        let chars = characters(strip_gutenberg_header(text).as_str());
        if chars.len() == 0 {
            return Err(Error::Config("the prompt corpus is empty".to_owned()));
        }
        Ok(Corpus { chars })
    }

    /// How many characters the corpus has.
    pub fn len_chars(&self) -> (r: usize)
        ensures
            r == self@.len(),
    {
        self.chars.len()
    }

    /// `len` characters from `start` on; at the end of the corpus it goes on
    /// with its begin.
    pub fn slice_chars(&self, start: usize, len: usize) -> (r: String)
        ensures
            r@ == cyclic(self@, start as nat, len as nat),
    {
        let total: usize = self.chars.len();
        let mut result = String::new();
        if total == 0 {
            return result;
        }
        let mut cursor: usize = start % total;
        let mut taken: usize = 0;
        while taken < len
            invariant
                total == self@.len(),
                total > 0,
                taken <= len,
                cursor < total,
                cursor == (start + taken) % (total as int),
                result@ == cyclic(self@, start as nat, taken as nat),
            decreases len - taken,
        {
            result.push(self.chars[cursor]);
            taken += 1;
            proof {
                vstd::arithmetic::div_mod::lemma_add_mod_noop(
                    start + taken - 1,
                    1,
                    total as int,
                );
                assert(cyclic(self@, start as nat, taken as nat) == cyclic(
                    self@,
                    start as nat,
                    (taken - 1) as nat,
                ).push(self@[cursor as int]));
            }
            if cursor + 1 == total {
                cursor = 0;
                proof {
                    if total == 1 {
                    } else {
                        vstd::arithmetic::div_mod::lemma_small_mod(1, total as nat);
                    }
                    vstd::arithmetic::div_mod::lemma_mod_self_0(total as int);
                }
            } else {
                cursor += 1;
                proof {
                    vstd::arithmetic::div_mod::lemma_small_mod(1, total as nat);
                    vstd::arithmetic::div_mod::lemma_small_mod(cursor as nat, total as nat);
                }
            }
        }
        result
    }

    /// The first `chars` characters, at least one.
    pub fn calibration_sample(&self, chars: usize) -> (r: String)
        ensures
            r@ == cyclic(
                self@,
                0,
                if chars == 0 {
                    1
                } else {
                    chars as nat
                },
            ),
    {
        let wanted: usize = if chars == 0 {
            1
        } else {
            chars
        };
        self.slice_chars(0, wanted)
    }
}

/// What `Hash` of `str` of std writes to a hasher.
pub uninterp spec fn hash_writes(text: Seq<char>) -> Seq<Seq<u8>>;

/// `Hash` of `str` of std: what it writes depends on the text alone.
#[verifier::external_body]
fn hash_text(text: &str, hasher: &mut DefaultHasher)
    ensures
        final(hasher)@ == old(hasher)@ + hash_writes(text@),
{
    text.hash(hasher)
}

/// The name of the file that keeps the text of a URL.
pub fn cache_file_name(url: &str) -> (r: String)
    ensures
        r@ == hexadecimal(DefaultHasher::spec_finish(hash_writes(url@)) as nat, 16) + ".txt"@,
{
    let mut hasher = DefaultHasher::new();
    hash_text(url, &mut hasher);
    assert(hasher@ == hash_writes(url@));
    hexadecimal_text(hasher.finish(), 16).concat(".txt")
}

/// Slices that follow one another make one slice.
pub proof fn law_slices_follow_one_another(text: Seq<char>, start: nat, len: nat, more: nat)
    ensures
        cyclic(text, start, len) + cyclic(text, start + len, more) == cyclic(
            text,
            start,
            len + more,
        ),
{
}

/// A slice that does not reach beyond the end is a part of the text.
pub proof fn law_slices_are_parts(text: Seq<char>, start: nat, len: nat)
    requires
        start + len <= text.len(),
    ensures
        cyclic(text, start, len) == text.subrange(start as int, (start + len) as int),
{
    let slice = cyclic(text, start, len);
    assert forall|i: int| 0 <= i < len implies #[trigger] slice[i] == text[start + i] by {
        vstd::arithmetic::div_mod::lemma_small_mod((start + i) as nat, text.len());
    }
}

} // verus!
