//! Splitting text at a separator, and reading small numbers from it. Text is taken
//! as its UTF-8 bytes.
use vstd::prelude::*;
use vstd::utf8::{decode_utf8, valid_utf8};

verus! {

/// Where a byte stands first, or the length where it does not occur.
pub open spec fn first_index(s: Seq<u8>, c: u8) -> int
    decreases s.len(),
{
    if s.len() == 0 || s[0] == c {
        0
    } else {
        1 + first_index(s.drop_first(), c)
    }
}

/// The parts of text between the separators. There is always at least one.
pub open spec fn split(s: Seq<u8>, c: u8) -> Seq<Seq<u8>>
    decreases s.len(),
{
    let i = first_index(s, c);
    if i < 0 || i >= s.len() {
        seq![s]
    } else {
        seq![s.take(i)] + split(s.skip(i + 1), c)
    }
}

/// The first index is where the byte stands and nowhere before.
pub proof fn lemma_first_index(s: Seq<u8>, c: u8)
    ensures
        0 <= first_index(s, c) <= s.len(),
        forall|j: int| 0 <= j < first_index(s, c) ==> s[j] != c,
        first_index(s, c) < s.len() ==> s[first_index(s, c)] == c,
    decreases s.len(),
{
    if s.len() == 0 || s[0] == c {
    } else {
        lemma_first_index(s.drop_first(), c);
        assert forall|j: int| 0 <= j < first_index(s, c) implies s[j] != c by {
            if j > 0 {
                assert(s[j] == s.drop_first()[j - 1]);
            }
        }
    }
}

/// Where `c` stands first in `s` from `start` on, or the length of `s`.
pub fn find_from(s: &[u8], start: usize, c: u8) -> (i: usize)
    requires
        start <= s@.len(),
    ensures
        start <= i <= s@.len(),
        i - start == first_index(s@.skip(start as int), c),
        forall|j: int| start <= j < i ==> #[trigger] s@[j] != c,
        i < s@.len() ==> s@[i as int] == c,
{
    let ghost rest = s@.skip(start as int);
    let mut i: usize = start;
    proof {
        lemma_first_index(rest, c);
    }
    while i < s.len() && s[i] != c
        invariant
            start <= i <= s@.len(),
            rest == s@.skip(start as int),
            forall|j: int| start <= j < i ==> #[trigger] s@[j] != c,
            forall|j: int| 0 <= j < i - start ==> rest[j] != c,
            0 <= first_index(rest, c) <= rest.len(),
            forall|j: int| 0 <= j < first_index(rest, c) ==> rest[j] != c,
            first_index(rest, c) < rest.len() ==> rest[first_index(rest, c)] == c,
        decreases s@.len() - i,
    {
        assert(rest[i - start] == s@[i as int]);
        i = i + 1;
    }
    proof {
        if i < s@.len() {
            assert(rest[i - start] == s@[i as int]);
        }
    }
    i
}

/// Whether a byte is a decimal digit.
pub open spec fn is_digit(c: u8) -> bool {
    48 <= c <= 57
}

/// The number that decimal digits stand for.
pub open spec fn number(s: Seq<u8>) -> nat
    decreases s.len(),
{
    if s.len() == 0 {
        0
    } else {
        (number(s.drop_last()) * 10 + (s.last() - 48)) as nat
    }
}

/// Text without one leading plus sign.
pub open spec fn unsigned_part(s: Seq<u8>) -> Seq<u8> {
    if s.len() > 0 && s[0] == '+' as u8 {
        s.drop_first()
    } else {
        s
    }
}

/// The number below 256 that text stands for: an optional plus sign, then digits and
/// nothing else.
pub open spec fn u8_of_text(s: Seq<u8>) -> Option<u8> {
    let digits = unsigned_part(s);
    if digits.len() > 0 && (forall|i: int| 0 <= i < digits.len() ==> is_digit(#[trigger] digits[i]))
        && number(digits) <= 255 {
        Some(number(digits) as u8)
    } else {
        None
    }
}

proof fn lemma_number_grows(s: Seq<u8>, n: int)
    requires
        0 <= n <= s.len(),
        forall|i: int| 0 <= i < s.len() ==> is_digit(#[trigger] s[i]),
    ensures
        number(s.take(n)) <= number(s),
    decreases s.len() - n,
{
    if n < s.len() {
        lemma_number_grows(s, n + 1);
        assert(s.take(n + 1).drop_last() =~= s.take(n));
        assert(is_digit(s.take(n + 1).last()));
    } else {
        assert(s.take(n) =~= s);
    }
}

/// Reads a number below 256 from the bytes of `s` between `start` and `end`.
pub fn parse_u8(s: &[u8], start: usize, end: usize) -> (r: Option<u8>)
    requires
        start <= end <= s@.len(),
    ensures
        r == u8_of_text(s@.subrange(start as int, end as int)),
{
    let ghost text = s@.subrange(start as int, end as int);
    let ghost digits = unsigned_part(text);
    let from: usize = if start < end && s[start] == '+' as u8 {
        start + 1
    } else {
        start
    };
    assert(digits =~= s@.subrange(from as int, end as int));
    if from == end {
        return None;
    }
    let mut n: u32 = 0;
    let mut i: usize = from;
    assert(digits.take(0) =~= Seq::empty());
    while i < end
        invariant
            start <= from <= i <= end <= s@.len(),
            digits == s@.subrange(from as int, end as int),
            n <= 255,
            n == number(digits.take(i - from)),
            forall|j: int| 0 <= j < i - from ==> is_digit(#[trigger] digits[j]),
            digits == unsigned_part(text),
            text == s@.subrange(start as int, end as int),
        decreases end - i,
    {
        let c = s[i];
        assert(c == digits[i - from]);
        if c < 48 || c > 57 {
            return None;
        }
        proof {
            let longer = digits.take(i + 1 - from);
            assert(longer.drop_last() =~= digits.take(i - from));
            assert(longer.last() == c);
        }
        n = n * 10 + (c - 48) as u32;
        i = i + 1;
        if n > 255 {
            proof {
                if forall|j: int| 0 <= j < digits.len() ==> is_digit(#[trigger] digits[j]) {
                    lemma_number_grows(digits, i - from);
                }
            }
            return None;
        }
    }
    assert(digits.take(i - from) =~= digits);
    Some(n as u8)
}

/// Whether a pattern stands at a place of text.
pub open spec fn stands_at(text: Seq<u8>, pattern: Seq<u8>, i: int) -> bool {
    0 <= i <= text.len() - pattern.len() && text.subrange(i, i + pattern.len()) == pattern
}

/// Whether a pattern stands anywhere in text.
pub open spec fn has_part(text: Seq<u8>, pattern: Seq<u8>) -> bool {
    exists|i: int| stands_at(text, pattern, i)
}

/// Whether `pattern` stands in `text` at `i`.
fn found_at(text: &[u8], pattern: &[u8], i: usize) -> (yes: bool)
    requires
        i + pattern@.len() <= text@.len(),
    ensures
        yes == stands_at(text@, pattern@, i as int),
        yes == (text@.subrange(i as int, i + pattern@.len()) == pattern@),
{
    let n: usize = text.len();
    let mut k: usize = 0;
    while k < pattern.len()
        invariant
            n == text@.len(),
            k <= pattern@.len(),
            i + pattern@.len() <= text@.len(),
            forall|j: int| 0 <= j < k ==> text@[i + j] == #[trigger] pattern@[j],
        decreases pattern@.len() - k,
    {
        if text[i + k] != pattern[k] {
            assert(text@.subrange(i as int, i + pattern@.len())[k as int] != pattern@[k as int]);
            return false;
        }
        k = k + 1;
    }
    assert(text@.subrange(i as int, i + pattern@.len()) =~= pattern@);
    true
}

/// Whether `pattern` stands anywhere in `text`.
pub fn contains(text: &[u8], pattern: &[u8]) -> (yes: bool)
    ensures
        yes == has_part(text@, pattern@),
        yes == exists|i: int|
            0 <= i <= text@.len() - pattern@.len() && #[trigger] text@.subrange(
                i,
                i + pattern@.len(),
            ) == pattern@,
{
    if pattern.len() > text.len() {
        return false;
    }
    let mut i: usize = 0;
    while i <= text.len() - pattern.len()
        invariant
            pattern@.len() <= text@.len(),
            i <= text@.len() - pattern@.len() + 1,
            forall|j: int| 0 <= j < i ==> !stands_at(text@, pattern@, j),
            forall|j: int|
                0 <= j < i ==> #[trigger] text@.subrange(j, j + pattern@.len()) != pattern@,
        decreases text@.len() - pattern@.len() + 1 - i,
    {
        if found_at(text, pattern, i) {
            assert(stands_at(text@, pattern@, i as int));
            return true;
        }
        assert(text@.subrange(i as int, i + pattern@.len()) != pattern@);
        if i == text.len() - pattern.len() {
            return false;
        }
        i = i + 1;
    }
    false
}

/// The text that `String::from_utf8_lossy` makes of bytes.
pub uninterp spec fn lossy(bytes: Seq<u8>) -> Seq<char>;

/// `String::from_utf8_lossy`, as an owned string: the text that the bytes encode where
/// they are UTF-8. Elsewhere replacement characters stand for what is not UTF-8; how
/// many of them is not stated.
#[verifier::external_body]
pub(crate) fn utf8_lossy(bytes: &[u8]) -> (s: String)
    ensures
        s@ == lossy(bytes@),
        valid_utf8(bytes@) ==> s@ == decode_utf8(bytes@),
{
    String::from_utf8_lossy(bytes).into_owned()
}

/// Parts with a separator between each two.
pub open spec fn joined(parts: Seq<Seq<u8>>, c: u8) -> Seq<u8>
    decreases parts.len(),
{
    if parts.len() == 0 {
        Seq::empty()
    } else if parts.len() == 1 {
        parts[0]
    } else {
        parts[0] + seq![c] + joined(parts.drop_first(), c)
    }
}

/// The parts between the separators, joined by separators again, are the text, and none of
/// them holds a separator.
pub proof fn law_split_joined(s: Seq<u8>, c: u8)
    ensures
        split(s, c).len() >= 1,
        joined(split(s, c), c) == s,
        forall|i: int, j: int|
            0 <= i < split(s, c).len() && 0 <= j < split(s, c)[i].len() ==> #[trigger] split(
                s,
                c,
            )[i][j] != c,
    decreases s.len(),
{
    let k = first_index(s, c);
    lemma_first_index(s, c);
    let parts = split(s, c);
    if k < s.len() {
        let rest = s.skip(k + 1);
        law_split_joined(rest, c);
        assert(parts.drop_first() =~= split(rest, c));
        assert(joined(parts, c) =~= s);
        assert forall|i: int, j: int| 0 <= i < parts.len() && 0 <= j < parts[i].len() implies #[trigger] parts[i][j]
            != c by {
            if i > 0 {
                assert(parts[i] == split(rest, c)[i - 1]);
            }
        }
    }
}

/// Text joined from parts without separators has these parts and no others.
pub proof fn law_joined_split(parts: Seq<Seq<u8>>, c: u8)
    requires
        parts.len() >= 1,
        forall|i: int, j: int|
            0 <= i < parts.len() && 0 <= j < parts[i].len() ==> #[trigger] parts[i][j] != c,
    ensures
        split(joined(parts, c), c) == parts,
    decreases parts.len(),
{
    let s = joined(parts, c);
    let k = first_index(s, c);
    lemma_first_index(s, c);
    let n = parts[0].len() as int;
    assert forall|j: int| 0 <= j < n implies s[j] != c by {
        assert(s[j] == parts[0][j]);
    }
    if parts.len() == 1 {
        assert(k == s.len());
        assert(split(s, c) =~= parts);
    } else {
        let rest = parts.drop_first();
        assert(s[n] == c);
        assert(k == n);
        assert(s.take(n) =~= parts[0]);
        assert(s.skip(n + 1) =~= joined(rest, c));
        assert forall|i: int, j: int| 0 <= i < rest.len() && 0 <= j < rest[i].len() implies #[trigger] rest[i][j]
            != c by {
            assert(rest[i] == parts[i + 1]);
            assert(parts[i + 1][j] != c);
        }
        law_joined_split(rest, c);
        assert(split(s, c) =~= parts);
    }
}

/// A further digit multiplies a number by ten and adds itself.
pub proof fn law_number_digit(s: Seq<u8>, d: u8)
    requires
        48 <= d <= 57,
    ensures
        number(Seq::<u8>::empty()) == 0,
        number(s.push(d)) == 10 * number(s) + (d - 48),
{
    assert(s.push(d).drop_last() =~= s);
}

/// Text stands for a number below 256 exactly where it is made of digits, at least one of
/// them, behind at most one plus sign, and they stand for that number.
pub proof fn law_u8_of_text(digits: Seq<u8>)
    requires
        digits.len() == 0 || digits[0] != 43,
    ensures
        ({
            let ok = digits.len() > 0 && number(digits) <= 255 && forall|i: int|
                0 <= i < digits.len() ==> 48 <= #[trigger] digits[i] <= 57;
            &&& u8_of_text(digits) == (if ok {
                Some(number(digits) as u8)
            } else {
                None
            })
            &&& u8_of_text(seq![43u8] + digits) == u8_of_text(digits)
        }),
{
    let plus = seq![43u8] + digits;
    assert(plus.drop_first() =~= digits);
    assert(unsigned_part(plus) == digits);
    assert(unsigned_part(digits) == digits);
    assert((forall|i: int| 0 <= i < digits.len() ==> is_digit(#[trigger] digits[i])) == (forall|i: int|
        0 <= i < digits.len() ==> 48 <= #[trigger] digits[i] <= 57));
}

/// Two signs in front of digits stand for no number.
pub proof fn law_one_sign(s: Seq<u8>)
    ensures
        u8_of_text(seq![43u8, 43u8] + s) is None,
        u8_of_text(seq![43u8, 45u8] + s) is None,
        u8_of_text(seq![45u8] + s) is None,
{
    let a = seq![43u8, 43u8] + s;
    assert(a.drop_first()[0] == 43);
    assert(!is_digit(unsigned_part(a)[0]));
    let b = seq![43u8, 45u8] + s;
    assert(b.drop_first()[0] == 45);
    assert(!is_digit(unsigned_part(b)[0]));
    let c = seq![45u8] + s;
    assert(!is_digit(unsigned_part(c)[0]));
}

/// A pattern stands in text exactly where the text is the pattern with something in front
/// and something behind.
pub proof fn law_has_part(text: Seq<u8>, pattern: Seq<u8>)
    ensures
        has_part(text, pattern) <==> exists|a: Seq<u8>, b: Seq<u8>| #[trigger]
            (a + pattern + b) == text,
{
    if has_part(text, pattern) {
        let i = choose|i: int| stands_at(text, pattern, i);
        let a = text.take(i);
        let b = text.skip(i + pattern.len());
        assert forall|k: int| 0 <= k < pattern.len() implies text[i + k] == pattern[k] by {
            assert(text.subrange(i, i + pattern.len())[k] == pattern[k]);
        }
        assert(a + pattern + b =~= text);
    }
    if exists|a: Seq<u8>, b: Seq<u8>| #[trigger] (a + pattern + b) == text {
        let (a, b) = choose|a: Seq<u8>, b: Seq<u8>| #[trigger] (a + pattern + b) == text;
        let i = a.len() as int;
        assert(text.subrange(i, i + pattern.len()) =~= pattern);
        assert(stands_at(text, pattern, i));
    }
}

} // verus!
