//! Text as sequences of characters: trimming, splitting, searching and
//! printing numbers.

use vstd::prelude::*;

verus! {

/// `String::push` of std: the character is added at the end.
pub assume_specification[ String::push ](text: &mut String, c: char)
    ensures
        final(text)@ == old(text)@.push(c),
;

/// The text that `String::from_utf8_lossy` of std makes of some bytes.
pub uninterp spec fn lossy(bytes: Seq<u8>) -> Seq<char>;

/// `String::from_utf8_lossy` of std: bytes that are valid UTF-8 are decoded;
/// otherwise the text depends on the bytes alone.
#[verifier::external_body]
pub(crate) fn from_utf8_lossy(bytes: &[u8]) -> (r: String)
    ensures
        r@ == lossy(bytes@),
        vstd::utf8::valid_utf8(bytes@) ==> r@ == vstd::utf8::decode_utf8(bytes@),
{
    String::from_utf8_lossy(bytes).into_owned()
}

/// The text in lower case as `str::to_lowercase` of std has it.
pub uninterp spec fn lower_case(s: Seq<char>) -> Seq<char>;

/// `str::to_lowercase` of std: the result depends on the text alone.
#[verifier::external_body]
pub(crate) fn to_lowercase(text: &str) -> (r: String)
    ensures
        r@ == lower_case(text@),
{
    text.to_lowercase()
}

/// The text in quotes and with escapes, as `Debug` of `str` of std writes it.
pub uninterp spec fn quoted(s: Seq<char>) -> Seq<char>;

/// `Debug` of `str` of std: the result depends on the text alone.
#[verifier::external_body]
pub(crate) fn quote(text: &str) -> (r: String)
    ensures
        r@ == quoted(text@),
{
    format!("{text:?}")
}

/// What a list of strings holds.
pub open spec fn texts(list: Seq<String>) -> Seq<Seq<char>> {
    list.map_values(|text: String| text@)
}

/// The characters with the Unicode property `White_Space`.
pub open spec fn is_space(c: char) -> bool {
    let n = c as u32;
    ||| 0x9 <= n <= 0xd
    ||| n == 0x20
    ||| n == 0x85
    ||| n == 0xa0
    ||| n == 0x1680
    ||| 0x2000 <= n <= 0x200a
    ||| 0x2028 <= n <= 0x2029
    ||| n == 0x202f
    ||| n == 0x205f
    ||| n == 0x3000
}

/// `s` without its longest prefix of characters that satisfy `drop`.
pub open spec fn after_prefix(s: Seq<char>, drop: spec_fn(char) -> bool) -> Seq<char>
    decreases s.len(),
{
    if s.len() > 0 && drop(s.first()) {
        after_prefix(s.drop_first(), drop)
    } else {
        s
    }
}

/// `s` without its longest suffix of characters that satisfy `drop`.
pub open spec fn before_suffix(s: Seq<char>, drop: spec_fn(char) -> bool) -> Seq<char>
    decreases s.len(),
{
    if s.len() > 0 && drop(s.last()) {
        before_suffix(s.drop_last(), drop)
    } else {
        s
    }
}

/// `s` without white space at either end.
pub open spec fn trimmed(s: Seq<char>) -> Seq<char> {
    before_suffix(after_prefix(s, |c: char| is_space(c)), |c: char| is_space(c))
}

/// The predicate that holds of `edge` alone.
pub open spec fn only(edge: char) -> spec_fn(char) -> bool {
    |c: char| c == edge
}

/// `s` without leading copies of `edge`.
pub open spec fn trimmed_start(s: Seq<char>, edge: char) -> Seq<char> {
    after_prefix(s, only(edge))
}

/// `s` without trailing copies of `edge`.
pub open spec fn trimmed_end(s: Seq<char>, edge: char) -> Seq<char> {
    before_suffix(s, only(edge))
}

/// The position of the first `c` in `s`.
pub open spec fn position(s: Seq<char>, c: char) -> Option<int>
    decreases s.len(),
{
    if s.len() == 0 {
        None
    } else if s.first() == c {
        Some(0)
    } else {
        match position(s.drop_first(), c) {
            None => None,
            Some(i) => Some(i + 1),
        }
    }
}

/// `s` cut around the first `sep`.
pub open spec fn cut(s: Seq<char>, sep: char) -> Option<(Seq<char>, Seq<char>)> {
    match position(s, sep) {
        None => None,
        Some(i) => Some((s.take(i), s.skip(i + 1))),
    }
}

/// The pieces of `s` between the separators, empty ones included.
pub open spec fn pieces(s: Seq<char>, sep: char) -> Seq<Seq<char>>
    decreases s.len(),
{
    match position(s, sep) {
        None => seq![s],
        Some(i) => if 0 <= i < s.len() {
            seq![s.take(i)] + pieces(s.skip(i + 1), sep)
        } else {
            seq![s]
        },
    }
}

/// The place of the first occurrence of `pattern` in `s`.
pub open spec fn occurrence(s: Seq<char>, pattern: Seq<char>) -> Option<int>
    decreases s.len(),
{
    if s.len() < pattern.len() {
        None
    } else if s.take(pattern.len() as int) == pattern {
        Some(0)
    } else if s.len() == 0 {
        None
    } else {
        match occurrence(s.drop_first(), pattern) {
            None => None,
            Some(i) => Some(i + 1),
        }
    }
}

/// What follows `prefix` in a text that starts with it.
pub open spec fn stripped(s: Seq<char>, prefix: Seq<char>) -> Option<Seq<char>> {
    if prefix.len() <= s.len() && s.take(prefix.len() as int) == prefix {
        Some(s.skip(prefix.len() as int))
    } else {
        None
    }
}

/// The texts of `list` with `sep` between neighbours.
pub open spec fn joined(list: Seq<Seq<char>>, sep: Seq<char>) -> Seq<char>
    decreases list.len(),
{
    if list.len() == 0 {
        Seq::empty()
    } else if list.len() == 1 {
        list[0]
    } else {
        joined(list.drop_last(), sep) + sep + list.last()
    }
}

/// The character that stands for a digit below sixteen.
pub open spec fn digit(d: nat) -> char {
    if d == 0 { '0' } else if d == 1 { '1' } else if d == 2 { '2' } else if d == 3 { '3' }
    else if d == 4 { '4' } else if d == 5 { '5' } else if d == 6 { '6' } else if d == 7 { '7' }
    else if d == 8 { '8' } else if d == 9 { '9' } else if d == 10 { 'a' } else if d == 11 { 'b' }
    else if d == 12 { 'c' } else if d == 13 { 'd' } else if d == 14 { 'e' } else { 'f' }
}

/// `n` in decimal, without leading zeros.
pub open spec fn decimal(n: nat) -> Seq<char>
    decreases n,
{
    if n < 10 {
        seq![digit(n)]
    } else {
        decimal(n / 10).push(digit(n % 10))
    }
}

/// The last `width` hexadecimal digits of `n`.
pub open spec fn hexadecimal(n: nat, width: nat) -> Seq<char>
    decreases width,
{
    if width == 0 {
        Seq::empty()
    } else {
        hexadecimal(n / 16, (width - 1) as nat).push(digit(n % 16))
    }
}

/// Whether `c` is white space.
pub fn space(c: char) -> (r: bool)
    ensures
        r == is_space(c),
{
    let n: u32 = c as u32;
    (0x9 <= n && n <= 0xd) || n == 0x20 || n == 0x85 || n == 0xa0 || n == 0x1680 || (0x2000 <= n
        && n <= 0x200a) || n == 0x2028 || n == 0x2029 || n == 0x202f || n == 0x205f || n == 0x3000
}

/// The characters of `text`.
pub fn characters(text: &str) -> (r: Vec<char>)
    ensures
        r@ == text@,
{
    let mut chars: Vec<char> = Vec::new();
    for c in iter: text.chars()
        invariant
            iter.seq() == text@,
            chars@ == text@.take(iter.index() as int),
    {
        chars.push(c);
    }
    chars
}

/// The text of the characters from `from` up to `to`.
pub fn text_between(chars: &Vec<char>, from: usize, to: usize) -> (r: String)
    requires
        from <= to <= chars.len(),
    ensures
        r@ == chars@.subrange(from as int, to as int),
{
    let mut text = String::new();
    let mut i: usize = from;
    while i < to
        invariant
            from <= i <= to <= chars.len(),
            text@ == chars@.subrange(from as int, i as int),
        decreases to - i,
    {
        text.push(chars[i]);
        i += 1;
        assert(chars@.subrange(from as int, i as int) == chars@.subrange(
            from as int,
            i - 1,
        ).push(chars@[i - 1]));
    }
    text
}

proof fn lemma_after_prefix(s: Seq<char>, drop: spec_fn(char) -> bool, n: int)
    requires
        0 <= n <= s.len(),
        forall|i: int| 0 <= i < n ==> drop(#[trigger] s[i]),
        n < s.len() ==> !drop(s[n]),
    ensures
        after_prefix(s, drop) == s.skip(n),
    decreases n,
{
    if n == 0 {
        assert(s.skip(0) == s);
    } else {
        assert(drop(s[0]));
        lemma_after_prefix(s.drop_first(), drop, n - 1);
        assert(s.drop_first().skip(n - 1) == s.skip(n));
    }
}

proof fn lemma_before_suffix(s: Seq<char>, drop: spec_fn(char) -> bool, n: int)
    requires
        0 <= n <= s.len(),
        forall|i: int| n <= i < s.len() ==> drop(#[trigger] s[i]),
        n > 0 ==> !drop(s[n - 1]),
    ensures
        before_suffix(s, drop) == s.take(n),
    decreases s.len(),
{
    if n == s.len() {
        assert(s.take(n) == s);
    } else {
        assert(drop(s[s.len() - 1]));
        lemma_before_suffix(s.drop_last(), drop, n);
        assert(s.drop_last().take(n) == s.take(n));
    }
}

proof fn lemma_position(s: Seq<char>, c: char, n: int)
    requires
        0 <= n <= s.len(),
        forall|i: int| 0 <= i < n ==> #[trigger] s[i] != c,
        n < s.len() ==> s[n] == c,
    ensures
        position(s, c) == if n < s.len() { Some(n) } else { None::<int> },
    decreases n,
{
    if n > 0 {
        lemma_position(s.drop_first(), c, n - 1);
    }
}

/// The text without white space at either end.
pub fn trim(text: &str) -> (r: String)
    ensures
        r@ == trimmed(text@),
{
    let chars = characters(text);
    let mut from: usize = 0;
    while from < chars.len() && space(chars[from])
        invariant
            from <= chars.len(),
            forall|i: int| 0 <= i < from ==> is_space(#[trigger] chars@[i]),
        decreases chars.len() - from,
    {
        from += 1;
    }
    let mut to: usize = chars.len();
    while from < to && space(chars[to - 1])
        invariant
            from <= to <= chars.len(),
            forall|i: int| to <= i < chars.len() ==> is_space(#[trigger] chars@[i]),
        decreases to,
    {
        to -= 1;
    }
    proof {
        let drop = |c: char| is_space(c);
        lemma_after_prefix(chars@, drop, from as int);
        let rest = chars@.skip(from as int);
        assert forall|i: int| to - from <= i < rest.len() implies drop(#[trigger] rest[i]) by {
            assert(rest[i] == chars@[i + from]);
        }
        lemma_before_suffix(rest, drop, to - from);
        assert(rest.take(to - from) == chars@.subrange(from as int, to as int));
    }
    text_between(&chars, from, to)
}

/// The text without leading copies of `edge`.
pub fn trim_start_matches(text: &str, edge: char) -> (r: String)
    ensures
        r@ == trimmed_start(text@, edge),
{
    let chars = characters(text);
    let mut from: usize = 0;
    while from < chars.len() && chars[from] == edge
        invariant
            from <= chars.len(),
            forall|i: int| 0 <= i < from ==> #[trigger] chars@[i] == edge,
        decreases chars.len() - from,
    {
        from += 1;
    }
    proof {
        lemma_after_prefix(chars@, only(edge), from as int);
    }
    text_between(&chars, from, chars.len())
}

/// The text without trailing copies of `edge`.
pub fn trim_end_matches(text: &str, edge: char) -> (r: String)
    ensures
        r@ == trimmed_end(text@, edge),
{
    let chars = characters(text);
    let mut to: usize = chars.len();
    while 0 < to && chars[to - 1] == edge
        invariant
            to <= chars.len(),
            forall|i: int| to <= i < chars.len() ==> #[trigger] chars@[i] == edge,
        decreases to,
    {
        to -= 1;
    }
    proof {
        lemma_before_suffix(chars@, only(edge), to as int);
        assert(chars@.take(to as int) == chars@.subrange(0, to as int));
    }
    text_between(&chars, 0, to)
}

/// The text cut around the first `sep`, where there is one.
pub fn split_once(text: &str, sep: char) -> (r: Option<(String, String)>)
    ensures
        match r {
            None => cut(text@, sep) is None,
            Some((head, tail)) => cut(text@, sep) == Some((head@, tail@)),
        },
{
    let chars = characters(text);
    let mut at: usize = 0;
    while at < chars.len() && chars[at] != sep
        invariant
            at <= chars.len(),
            forall|i: int| 0 <= i < at ==> #[trigger] chars@[i] != sep,
        decreases chars.len() - at,
    {
        at += 1;
    }
    proof {
        lemma_position(chars@, sep, at as int);
    }
    if at < chars.len() {
        let head = text_between(&chars, 0, at);
        let tail = text_between(&chars, at + 1, chars.len());
        assert(head@ == text@.take(at as int));
        assert(tail@ == text@.skip(at + 1));
        Some((head, tail))
    } else {
        None
    }
}

/// The pieces of the text between the separators.
pub fn split(text: &str, sep: char) -> (r: Vec<String>)
    ensures
        texts(r@) == pieces(text@, sep),
{
    let mut list: Vec<String> = Vec::new();
    let mut rest: String = text.to_owned();
    loop
        invariant_except_break
            texts(list@) + pieces(rest@, sep) == pieces(text@, sep),
        ensures
            texts(list@) == pieces(text@, sep),
        decreases rest@.len(),
    {
        let ghost before = list@;
        match split_once(rest.as_str(), sep) {
            None => {
                list.push(rest);
                assert(texts(list@) == texts(before) + seq![rest@]);
                break;
            },
            Some((head, tail)) => {
                proof {
                    lemma_position_bounds(rest@, sep);
                }
                list.push(head);
                assert(texts(list@) == texts(before) + seq![head@]);
                assert(texts(list@) + pieces(tail@, sep) == texts(before) + (seq![head@] + pieces(
                    tail@,
                    sep,
                )));
                rest = tail;
            },
        }
    }
    list
}

proof fn lemma_position_bounds(s: Seq<char>, c: char)
    ensures
        match position(s, c) {
            None => !s.contains(c),
            Some(i) => 0 <= i < s.len() && s[i] == c && !s.take(i).contains(c),
        },
    decreases s.len(),
{
    if s.len() > 0 && s.first() != c {
        let rest = s.drop_first();
        lemma_position_bounds(rest, c);
        match position(rest, c) {
            None => {
                assert forall|j: int| 0 <= j < s.len() implies s[j] != c by {
                    if j > 0 {
                        assert(rest[j - 1] == s[j]);
                        assert(rest.contains(s[j]));
                    }
                }
            },
            Some(i) => {
                assert forall|j: int| 0 <= j < i + 1 implies #[trigger] s[j] != c by {
                    if j > 0 {
                        assert(rest.take(i)[j - 1] == s[j]);
                        assert(rest.take(i).contains(s[j]));
                    }
                }
            },
        }
    }
}

/// Whether `pattern` stands in `chars` at `at`.
fn stands_at(chars: &Vec<char>, at: usize, pattern: &Vec<char>) -> (r: bool)
    requires
        at + pattern.len() <= chars.len(),
    ensures
        r == (chars@.subrange(at as int, at + pattern.len()) == pattern@),
{
    let mut i: usize = 0;
    while i < pattern.len()
        invariant
            at + pattern.len() <= chars.len(),
            i <= pattern.len(),
            forall|j: int| 0 <= j < i ==> chars@[at + j] == #[trigger] pattern@[j],
        decreases pattern.len() - i,
    {
        if chars[at + i] != pattern[i] {
            assert(chars@.subrange(at as int, at + pattern.len())[i as int] != pattern@[i as int]);
            return false;
        }
        i += 1;
    }
    assert(chars@.subrange(at as int, at + pattern.len()) == pattern@);
    true
}

proof fn lemma_occurrence(s: Seq<char>, pattern: Seq<char>, n: int)
    requires
        0 <= n,
        n <= s.len(),
        forall|i: int|
            0 <= i < n && i + pattern.len() <= s.len() ==> #[trigger] s.subrange(
                i,
                i + pattern.len(),
            ) != pattern,
        n + pattern.len() <= s.len() ==> s.subrange(n, n + pattern.len()) == pattern,
    ensures
        occurrence(s, pattern) == if n + pattern.len() <= s.len() { Some(n) } else { None::<int> },
    decreases s.len(),
{
    if s.len() < pattern.len() {
    } else if n == 0 {
        assert(s.take(pattern.len() as int) == s.subrange(0, 0int + pattern.len()));
    } else {
        assert(s.subrange(0, 0int + pattern.len()) != pattern);
        assert(s.take(pattern.len() as int) == s.subrange(0, 0int + pattern.len()));
        let rest = s.drop_first();
        assert forall|i: int| 0 <= i < n - 1 && i + pattern.len() <= rest.len()
            implies #[trigger] rest.subrange(i, i + pattern.len()) != pattern by {
            assert(rest.subrange(i, i + pattern.len()) == s.subrange(i + 1, i + 1 + pattern.len()));
        }
        if n + pattern.len() <= s.len() {
            assert(rest.subrange(n - 1, n - 1 + pattern.len()) == s.subrange(n, n + pattern.len()));
        }
        lemma_occurrence(rest, pattern, n - 1);
    }
}

/// The place of the first occurrence of `pattern` in `chars`.
pub fn find(chars: &Vec<char>, pattern: &Vec<char>) -> (r: Option<usize>)
    ensures
        match r {
            None => occurrence(chars@, pattern@) is None,
            Some(at) => occurrence(chars@, pattern@) == Some(at as int) && at <= chars.len(),
        },
{
    if chars.len() < pattern.len() {
        return None;
    }
    let last: usize = chars.len() - pattern.len();
    let mut at: usize = 0;
    loop
        invariant
            last == chars.len() - pattern.len(),
            at <= last,
            forall|i: int|
                0 <= i < at ==> #[trigger] chars@.subrange(i, i + pattern.len()) != pattern@,
        decreases last - at,
    {
        if stands_at(chars, at, pattern) {
            proof {
                lemma_occurrence(chars@, pattern@, at as int);
            }
            return Some(at);
        }
        if at == last {
            proof {
                if pattern@.len() == 0 {
                    assert(chars@.subrange(at as int, at + pattern.len()) == pattern@);
                }
                lemma_occurrence(chars@, pattern@, at + 1);
            }
            return None;
        }
        at += 1;
    }
}

/// Whether `pattern` occurs in the text.
pub fn contains(text: &str, pattern: &str) -> (r: bool)
    ensures
        r == occurrence(text@, pattern@) is Some,
{
    let chars = characters(text);
    let wanted = characters(pattern);
    find(&chars, &wanted).is_some()
}

/// What follows `prefix` in a text that starts with it.
pub fn strip_prefix(text: &str, prefix: &str) -> (r: Option<String>)
    ensures
        match r {
            None => stripped(text@, prefix@) is None,
            Some(rest) => stripped(text@, prefix@) == Some(rest@),
        },
{
    let chars = characters(text);
    let wanted = characters(prefix);
    if wanted.len() <= chars.len() && stands_at(&chars, 0, &wanted) {
        assert(chars@.subrange(0, 0 + wanted.len()) == text@.take(wanted@.len() as int));
        Some(text_between(&chars, wanted.len(), chars.len()))
    } else {
        assert(wanted@.len() <= chars@.len() ==> chars@.subrange(0, 0 + wanted.len()) == text@.take(
            wanted@.len() as int,
        ));
        None
    }
}

/// Whether two texts hold the same characters.
pub fn same(a: &str, b: &str) -> (r: bool)
    ensures
        r == (a@ == b@),
{
    let left = characters(a);
    let right = characters(b);
    if left.len() != right.len() {
        return false;
    }
    let r = stands_at(&left, 0, &right);
    assert(left@.subrange(0, 0 + right.len()) == left@);
    r
}

/// The texts of `list` with `sep` between neighbours.
pub fn join(list: &Vec<String>, sep: &str) -> (r: String)
    ensures
        r@ == joined(texts(list@), sep@),
{
    let mut text = String::new();
    let mut i: usize = 0;
    while i < list.len()
        invariant
            i <= list.len(),
            text@ == joined(texts(list@).take(i as int), sep@),
        decreases list.len() - i,
    {
        if i > 0 {
            text.append(sep);
        }
        text.append(list[i].as_str());
        i += 1;
        proof {
            let whole = texts(list@);
            assert(whole.take(i as int).drop_last() == whole.take(i - 1));
            assert(whole.take(i as int).last() == list@[i - 1]@);
            if i == 1 {
                assert(whole.take(1)[0] == list@[0]@);
            }
        }
    }
    assert(texts(list@).take(i as int) == texts(list@));
    text
}

/// The character that stands for a digit below sixteen.
fn digit_char(d: u64) -> (r: char)
    requires
        d < 16,
    ensures
        r == digit(d as nat),
{
    if d == 0 { '0' } else if d == 1 { '1' } else if d == 2 { '2' } else if d == 3 { '3' }
    else if d == 4 { '4' } else if d == 5 { '5' } else if d == 6 { '6' } else if d == 7 { '7' }
    else if d == 8 { '8' } else if d == 9 { '9' } else if d == 10 { 'a' } else if d == 11 { 'b' }
    else if d == 12 { 'c' } else if d == 13 { 'd' } else if d == 14 { 'e' } else { 'f' }
}

/// `n` in decimal.
pub fn decimal_text(n: u64) -> (r: String)
    ensures
        r@ == decimal(n as nat),
    decreases n,
{
    let mut text = if n < 10 {
        String::new()
    } else {
        decimal_text(n / 10)
    };
    text.push(digit_char(n % 10));
    assert(n < 10 ==> text@ == seq![digit(n as nat)]);
    text
}

/// The last `width` hexadecimal digits of `n`.
pub fn hexadecimal_text(n: u64, width: usize) -> (r: String)
    ensures
        r@ == hexadecimal(n as nat, width as nat),
    decreases width,
{
    if width == 0 {
        String::new()
    } else {
        let mut text = hexadecimal_text(n / 16, width - 1);
        text.push(digit_char(n % 16));
        text
    }
}

} // verus!
