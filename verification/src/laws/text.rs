//! What trimming, cutting, searching and printing give back.

use vstd::prelude::*;

use crate::corpus::from_marker;
use crate::corpus::MARKER;
use crate::text::after_prefix;
use crate::text::before_suffix;
use crate::text::cut;
use crate::text::decimal;
use crate::text::hexadecimal;
use crate::text::is_space;
use crate::text::joined;
use crate::text::occurrence;
use crate::text::only;
use crate::text::pieces;
use crate::text::position;
use crate::text::stripped;
use crate::text::trimmed;
use crate::text::trimmed_end;
use crate::text::trimmed_start;

verus! {

/// The text is nothing but white space.
pub open spec fn blank(s: Seq<char>) -> bool {
    forall|i: int| 0 <= i < s.len() ==> is_space(#[trigger] s[i])
}

/// The code points of white space.
pub open spec fn white_space() -> Seq<u32> {
    seq![
        0x9,
        0xa,
        0xb,
        0xc,
        0xd,
        0x20,
        0x85,
        0xa0,
        0x1680,
        0x2000,
        0x2001,
        0x2002,
        0x2003,
        0x2004,
        0x2005,
        0x2006,
        0x2007,
        0x2008,
        0x2009,
        0x200a,
        0x2028,
        0x2029,
        0x202f,
        0x205f,
        0x3000,
    ]
}

/// White space is what Unicode lists as such.
pub proof fn law_white_space_is_listed(c: char)
    ensures
        is_space(c) <==> exists|i: int|
            0 <= i < white_space().len() && #[trigger] white_space()[i] == c as u32,
{
    let n = c as u32;
    let list = white_space();
    if is_space(c) {
        let i = if n <= 0xd {
            n - 0x9
        } else if n == 0x20 {
            5
        } else if n == 0x85 {
            6
        } else if n == 0xa0 {
            7
        } else if n == 0x1680 {
            8
        } else if n <= 0x200a {
            n - 0x2000 + 9
        } else if n <= 0x2029 {
            n - 0x2028 + 20
        } else if n == 0x202f {
            22
        } else if n == 0x205f {
            23
        } else {
            24int
        };
        assert(list[i] == n);
    }
}

/// The text is nothing but copies of `c`.
pub open spec fn copies(s: Seq<char>, c: char) -> bool {
    forall|i: int| 0 <= i < s.len() ==> #[trigger] s[i] == c
}

/// The text does not hold `c`.
pub open spec fn lacks(s: Seq<char>, c: char) -> bool {
    forall|i: int| 0 <= i < s.len() ==> #[trigger] s[i] != c
}

/// `pattern` stands in `s` at `i`.
pub open spec fn stands_at(s: Seq<char>, pattern: Seq<char>, i: int) -> bool {
    0 <= i <= i + pattern.len() <= s.len() && s.subrange(i, i + pattern.len()) == pattern
}

proof fn lemma_prefix_dropped(edge: Seq<char>, s: Seq<char>, drop: spec_fn(char) -> bool)
    requires
        forall|i: int| 0 <= i < edge.len() ==> drop(#[trigger] edge[i]),
        s.len() > 0 ==> !drop(s[0]),
    ensures
        after_prefix(edge + s, drop) == s,
    decreases edge.len(),
{
    if edge.len() == 0 {
        assert(edge + s =~= s);
    } else {
        assert((edge + s).first() == edge[0]);
        assert((edge + s).drop_first() =~= edge.drop_first() + s);
        lemma_prefix_dropped(edge.drop_first(), s, drop);
    }
}

proof fn lemma_suffix_dropped(s: Seq<char>, edge: Seq<char>, drop: spec_fn(char) -> bool)
    requires
        forall|i: int| 0 <= i < edge.len() ==> drop(#[trigger] edge[i]),
        s.len() > 0 ==> !drop(s.last()),
    ensures
        before_suffix(s + edge, drop) == s,
    decreases edge.len(),
{
    if edge.len() == 0 {
        assert(s + edge =~= s);
    } else {
        assert((s + edge).last() == edge[edge.len() - 1]);
        assert((s + edge).drop_last() =~= s + edge.drop_last());
        lemma_suffix_dropped(s, edge.drop_last(), drop);
    }
}

/// Trimming takes off the white space at both ends and nothing else.
pub proof fn law_trimming_leaves_the_middle(before: Seq<char>, s: Seq<char>, behind: Seq<char>)
    requires
        blank(before),
        blank(behind),
        s.len() > 0 ==> !is_space(s[0]) && !is_space(s.last()),
    ensures
        trimmed(before + s + behind) == s,
{
    let drop = |c: char| is_space(c);
    if s.len() > 0 {
        assert((s + behind)[0] == s[0]);
        lemma_prefix_dropped(before, s + behind, drop);
        assert(before + (s + behind) =~= before + s + behind);
        lemma_suffix_dropped(s, behind, drop);
    } else {
        let all = before + behind;
        assert(before + s + behind =~= all + s);
        assert forall|i: int| 0 <= i < all.len() implies drop(#[trigger] all[i]) by {
            if i >= before.len() {
                assert(all[i] == behind[i - before.len()]);
            }
        }
        lemma_prefix_dropped(all, s, drop);
    }
}

/// Trimming one end takes off the copies of a character there.
pub proof fn law_copies_are_trimmed(edge: Seq<char>, s: Seq<char>, c: char)
    requires
        copies(edge, c),
    ensures
        s.len() == 0 || s[0] != c ==> trimmed_start(edge + s, c) == s,
        s.len() == 0 || s.last() != c ==> trimmed_end(s + edge, c) == s,
{
    if s.len() == 0 || s[0] != c {
        lemma_prefix_dropped(edge, s, only(c));
    }
    if s.len() == 0 || s.last() != c {
        lemma_suffix_dropped(s, edge, only(c));
    }
}

proof fn lemma_first_position(before: Seq<char>, c: char, behind: Seq<char>)
    requires
        lacks(before, c),
    ensures
        position(before, c) is None,
        position(before + seq![c] + behind, c) == Some(before.len() as int),
    decreases before.len(),
{
    let s = before + seq![c] + behind;
    if before.len() > 0 {
        assert(s.first() == before[0]);
        assert(s.drop_first() =~= before.drop_first() + seq![c] + behind);
        lemma_first_position(before.drop_first(), c, behind);
    } else {
        assert(s.first() == c);
    }
}

/// A text is cut around the first separator, and not at all without one. Its
/// pieces are what stands before the first separator, and then the pieces of
/// what follows.
pub proof fn law_texts_are_cut_at_separators(before: Seq<char>, sep: char, behind: Seq<char>)
    requires
        lacks(before, sep),
    ensures
        cut(before + seq![sep] + behind, sep) == Some((before, behind)),
        cut(before, sep) is None,
        pieces(before + seq![sep] + behind, sep) == seq![before] + pieces(behind, sep),
        pieces(before, sep) == seq![before],
{
    let s = before + seq![sep] + behind;
    lemma_first_position(before, sep, behind);
    assert(s.take(before.len() as int) =~= before);
    assert(s.skip(before.len() + 1int) =~= behind);
}

/// The first occurrence of a pattern is one, and there is none before it; if
/// none is found, there is none.
pub proof fn law_first_occurrence_is_found(s: Seq<char>, pattern: Seq<char>)
    ensures
        match occurrence(s, pattern) {
            Some(at) => stands_at(s, pattern, at) && forall|i: int|
                0 <= i < at ==> !#[trigger] stands_at(s, pattern, i),
            None => forall|i: int| !#[trigger] stands_at(s, pattern, i),
        },
    decreases s.len(),
{
    if s.len() < pattern.len() {
    } else if s.take(pattern.len() as int) == pattern {
        assert(s.subrange(0, 0int + pattern.len()) =~= s.take(pattern.len() as int));
    } else if s.len() > 0 {
        let rest = s.drop_first();
        law_first_occurrence_is_found(rest, pattern);
        assert(s.subrange(0, 0int + pattern.len()) =~= s.take(pattern.len() as int));
        assert forall|i: int| i > 0 implies #[trigger] stands_at(s, pattern, i) == stands_at(
            rest,
            pattern,
            i - 1,
        ) by {
            if 0 <= i <= i + pattern.len() <= s.len() {
                assert(s.subrange(i, i + pattern.len()) =~= rest.subrange(
                    i - 1,
                    i - 1 + pattern.len(),
                ));
            }
        }
        match occurrence(rest, pattern) {
            Some(at) => {
                assert(stands_at(s, pattern, at + 1));
                assert forall|i: int| 0 <= i < at + 1 implies !#[trigger] stands_at(s, pattern, i) by {
                    if i > 0 {
                        assert(!stands_at(rest, pattern, i - 1));
                    }
                }
            },
            None => {
                assert forall|i: int| !#[trigger] stands_at(s, pattern, i) by {
                    if i > 0 {
                        assert(!stands_at(rest, pattern, i - 1));
                    }
                }
            },
        }
    } else {
        assert(s.take(0) =~= pattern);
    }
}

/// The text of a book begins with the marker; what stands before its first
/// occurrence is cut off. A text without the marker stays as it is.
pub proof fn law_books_begin_with_the_marker(text: Seq<char>)
    ensures
        ({
            let book = from_marker(text);
            let at = text.len() - book.len();
            &&& at >= 0
            &&& book == text.skip(at)
            &&& forall|i: int| 0 <= i < at ==> !#[trigger] stands_at(text, "*** START OF THE PROJECT GUTENBERG EBOOK"@, i)
            &&& stands_at(text, "*** START OF THE PROJECT GUTENBERG EBOOK"@, at) || (at == 0 && forall|i: int|
                !#[trigger] stands_at(text, "*** START OF THE PROJECT GUTENBERG EBOOK"@, i))
        }),
{
    law_first_occurrence_is_found(text, MARKER@);
    assert(text.skip(0) =~= text);
}

/// Taking off a prefix gives what follows it, for texts that start with it
/// alone.
pub proof fn law_prefixes_are_taken_off(prefix: Seq<char>, rest: Seq<char>, s: Seq<char>)
    ensures
        stripped(prefix + rest, prefix) == Some(rest),
        stripped(s, prefix) is Some ==> s == prefix + stripped(s, prefix)->0,
{
    assert((prefix + rest).take(prefix.len() as int) =~= prefix);
    assert((prefix + rest).skip(prefix.len() as int) =~= rest);
    if stripped(s, prefix) is Some {
        assert(s =~= s.take(prefix.len() as int) + s.skip(prefix.len() as int));
    }
}

/// Joining puts the separator between neighbours and nowhere else.
pub proof fn law_neighbours_are_joined(list: Seq<Seq<char>>, text: Seq<char>, sep: Seq<char>)
    ensures
        joined(Seq::empty(), sep).len() == 0,
        joined(seq![text], sep) == text,
        list.len() > 0 ==> joined(list.push(text), sep) == joined(list, sep) + sep + text,
{
    assert(list.push(text).drop_last() =~= list);
}

/// The number that a digit stands for.
pub open spec fn digit_value(c: char) -> int {
    if '0' <= c <= '9' {
        c as int - '0' as int
    } else {
        c as int - 'a' as int + 10
    }
}

/// The number that digits stand for.
pub open spec fn number(digits: Seq<char>, base: int) -> int
    decreases digits.len(),
{
    if digits.len() == 0 {
        0
    } else {
        number(digits.drop_last(), base) * base + digit_value(digits.last())
    }
}

/// A number in decimal can be read back, has no other characters than digits,
/// and no leading zero.
pub proof fn law_decimals_are_read_back(n: nat)
    ensures
        number(decimal(n), 10) == n,
        decimal(n).len() > 0,
        forall|i: int| 0 <= i < decimal(n).len() ==> '0' <= #[trigger] decimal(n)[i] <= '9',
        n > 0 ==> decimal(n)[0] != '0',
    decreases n,
{
    if n < 10 {
        assert(decimal(n).drop_last() =~= Seq::empty());
        assert(number(decimal(n).drop_last(), 10) == 0);
    } else {
        law_decimals_are_read_back(n / 10);
        assert(decimal(n).drop_last() =~= decimal(n / 10));
    }
}

/// How many numbers there are of `width` hexadecimal digits.
pub open spec fn hexadecimals(width: nat) -> nat
    decreases width,
{
    if width == 0 {
        1
    } else {
        16 * hexadecimals((width - 1) as nat)
    }
}

/// A number in hexadecimal can be read back if it has no more digits than
/// there are.
pub proof fn law_hexadecimals_are_read_back(n: nat, width: nat)
    ensures
        hexadecimal(n, width).len() == width,
        n < hexadecimals(width) ==> number(hexadecimal(n, width), 16) == n,
    decreases width,
{
    if width > 0 {
        law_hexadecimals_are_read_back(n / 16, (width - 1) as nat);
        assert(hexadecimal(n, width).drop_last() =~= hexadecimal(n / 16, (width - 1) as nat));
    }
}

} // verus!
