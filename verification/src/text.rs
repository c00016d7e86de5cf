//! Character-level helpers shared by the parsers: scanning for classes of
//! characters, trimming and decimal numbers, each with its meaning on
//! `Seq<char>`.

use vstd::prelude::*;

verus! {

/// Whether `c` is white space: one of the characters with the Unicode
/// property White_Space.
pub open spec fn is_white_space(c: char) -> bool {
    ||| ('\u{9}' <= c && c <= '\u{d}')
    ||| c == '\u{20}'
    ||| c == '\u{85}'
    ||| c == '\u{a0}'
    ||| c == '\u{1680}'
    ||| ('\u{2000}' <= c && c <= '\u{200a}')
    ||| c == '\u{2028}'
    ||| c == '\u{2029}'
    ||| c == '\u{202f}'
    ||| c == '\u{205f}'
    ||| c == '\u{3000}'
}

/// Whether `c` is white space.
pub fn char_is_whitespace(c: char) -> (b: bool)
    ensures
        b == is_white_space(c),
{
    ('\u{9}' <= c && c <= '\u{d}') || c == '\u{20}' || c == '\u{85}' || c == '\u{a0}' || c
        == '\u{1680}' || ('\u{2000}' <= c && c <= '\u{200a}') || c == '\u{2028}' || c
        == '\u{2029}' || c == '\u{202f}' || c == '\u{205f}' || c == '\u{3000}'
}

/// Calls `String::push`, which appends `c` to the end of `s`.
#[verifier::external_body]
pub(crate) fn push_char(s: &mut String, c: char)
    ensures
        final(s)@ == old(s)@.push(c),
{
    s.push(c)
}

/// A class of characters that a scan looks for or skips.
#[derive(Clone, Copy)]
pub enum CharClass {
    /// The ASCII digits `0` to `9`.
    Digit,
    /// Unicode white space.
    Space,
    /// One given character.
    Exactly(char),
}

/// Whether `c` is an ASCII digit.
pub open spec fn is_digit(c: char) -> bool {
    '0' <= c && c <= '9'
}

/// Whether `c` belongs to the class `k`.
pub open spec fn in_class(k: CharClass, c: char) -> bool {
    match k {
        CharClass::Digit => is_digit(c),
        CharClass::Space => is_white_space(c),
        CharClass::Exactly(x) => c == x,
    }
}

/// The first index at or after `i` whose character is in `k`, or `s.len()`.
pub open spec fn find_class(s: Seq<char>, k: CharClass, i: int) -> int
    decreases s.len() - i,
{
    if i < 0 || i >= s.len() {
        s.len() as int
    } else if in_class(k, s[i]) {
        i
    } else {
        find_class(s, k, i + 1)
    }
}

/// The first index at or after `i` whose character is not in `k`, or `s.len()`.
pub open spec fn skip_class(s: Seq<char>, k: CharClass, i: int) -> int
    decreases s.len() - i,
{
    if i < 0 || i >= s.len() {
        s.len() as int
    } else if !in_class(k, s[i]) {
        i
    } else {
        skip_class(s, k, i + 1)
    }
}

/// The length of the longest prefix of `s.take(n)` that does not end in a
/// character of `k`.
pub open spec fn trim_end_class(s: Seq<char>, k: CharClass, n: int) -> int
    decreases n,
{
    if n <= 0 || n > s.len() {
        0
    } else if !in_class(k, s[n - 1]) {
        n
    } else {
        trim_end_class(s, k, n - 1)
    }
}

/// The index of the last character below `n` that is in `k`, if there is one.
pub open spec fn rfind_class(s: Seq<char>, k: CharClass, n: int) -> Option<int>
    decreases n,
{
    if n <= 0 || n > s.len() {
        None
    } else if in_class(k, s[n - 1]) {
        Some(n - 1)
    } else {
        rfind_class(s, k, n - 1)
    }
}

/// Whether `c` belongs to the class `k`.
pub fn class_has(k: CharClass, c: char) -> (b: bool)
    ensures
        b == in_class(k, c),
{
    match k {
        CharClass::Digit => '0' <= c && c <= '9',
        CharClass::Space => char_is_whitespace(c),
        CharClass::Exactly(x) => c == x,
    }
}

/// The first index at or after `from` whose character is in `k`, or the
/// length of `s`.
pub fn find_in(s: &Vec<char>, k: CharClass, from: usize) -> (at: usize)
    requires
        from <= s.len(),
    ensures
        at == find_class(s@, k, from as int),
        from <= at <= s.len(),
        at < s.len() ==> in_class(k, s@[at as int]),
        forall|j: int| from <= j < at ==> !in_class(k, #[trigger] s@[j]),
{
    let mut i: usize = from;
    while i < s.len() && !class_has(k, s[i])
        invariant
            from <= i <= s.len(),
            find_class(s@, k, from as int) == find_class(s@, k, i as int),
            forall|j: int| from <= j < i ==> !in_class(k, #[trigger] s@[j]),
        decreases s.len() - i,
    {
        i += 1;
    }
    i
}

/// The first index at or after `from` whose character is not in `k`, or the
/// length of `s`.
pub fn skip_in(s: &Vec<char>, k: CharClass, from: usize) -> (at: usize)
    requires
        from <= s.len(),
    ensures
        at == skip_class(s@, k, from as int),
        from <= at <= s.len(),
        at < s.len() ==> !in_class(k, s@[at as int]),
        forall|j: int| from <= j < at ==> in_class(k, #[trigger] s@[j]),
{
    let mut i: usize = from;
    while i < s.len() && class_has(k, s[i])
        invariant
            from <= i <= s.len(),
            skip_class(s@, k, from as int) == skip_class(s@, k, i as int),
            forall|j: int| from <= j < i ==> in_class(k, #[trigger] s@[j]),
        decreases s.len() - i,
    {
        i += 1;
    }
    i
}

/// The length of `s[..upto]` without the characters of `k` at its end.
pub fn trim_end_in(s: &Vec<char>, k: CharClass, upto: usize) -> (n: usize)
    requires
        upto <= s.len(),
    ensures
        n == trim_end_class(s@, k, upto as int),
        n <= upto,
{
    let mut n: usize = upto;
    while n > 0 && class_has(k, s[n - 1])
        invariant
            n <= upto <= s.len(),
            trim_end_class(s@, k, upto as int) == trim_end_class(s@, k, n as int),
        decreases n,
    {
        n -= 1;
    }
    n
}

/// The index of the last character of `s[..upto]` that is in `k`.
pub fn rfind_in(s: &Vec<char>, k: CharClass, upto: usize) -> (at: Option<usize>)
    requires
        upto <= s.len(),
    ensures
        match at {
            Some(i) => rfind_class(s@, k, upto as int) == Some(i as int) && i < upto,
            None => rfind_class(s@, k, upto as int).is_none(),
        },
{
    let mut n: usize = upto;
    while n > 0 && !class_has(k, s[n - 1])
        invariant
            n <= upto <= s.len(),
            rfind_class(s@, k, upto as int) == rfind_class(s@, k, n as int),
        decreases n,
    {
        n -= 1;
    }
    if n == 0 {
        None
    } else {
        Some(n - 1)
    }
}

/// Whether `s` begins with `prefix`.
pub fn starts_with(s: &Vec<char>, prefix: &Vec<char>) -> (yes: bool)
    ensures
        yes == prefix@.is_prefix_of(s@),
{
    if prefix.len() > s.len() {
        return false;
    }
    let mut i: usize = 0;
    while i < prefix.len()
        invariant
            i <= prefix.len() <= s.len(),
            forall|j: int| 0 <= j < i ==> s@[j] == prefix@[j],
        decreases prefix.len() - i,
    {
        if s[i] != prefix[i] {
            assert(s@.subrange(0, prefix.len() as int)[i as int] != prefix@[i as int]);
            return false;
        }
        i += 1;
    }
    assert(prefix@ == s@.subrange(0, prefix.len() as int));
    true
}

/// The characters of `s`, in order.
pub fn chars_of(s: &str) -> (out: Vec<char>)
    ensures
        out@ == s@,
{
    let mut out: Vec<char> = Vec::new();
    for c in it: s.chars()
        invariant
            out.len() == it.index(),
            it.seq() == s@,
            forall|i: int| 0 <= i < out.len() ==> out@[i] == it.seq()[i],
    {
        out.push(c);
    }
    out
}

/// A copy of the characters `s[from..to]`.
pub fn slice_of(s: &Vec<char>, from: usize, to: usize) -> (out: Vec<char>)
    requires
        from <= to <= s.len(),
    ensures
        out@ == s@.subrange(from as int, to as int),
{
    let mut out: Vec<char> = Vec::new();
    let mut i: usize = from;
    while i < to
        invariant
            from <= i <= to <= s.len(),
            out@ == s@.subrange(from as int, i as int),
        decreases to - i,
    {
        out.push(s[i]);
        i += 1;
    }
    out
}

/// The number that the decimal digits of `s` write.
pub open spec fn decimal(s: Seq<char>) -> nat
    decreases s.len(),
{
    if s.len() == 0 {
        0
    } else {
        decimal(s.drop_last()) * 10 + (s.last() as u32 - '0' as u32) as nat
    }
}

/// A search from `i` ends at or after `i`, within `s`.
pub proof fn lemma_find_class_bounds(s: Seq<char>, k: CharClass, i: int)
    requires
        0 <= i <= s.len(),
    ensures
        i <= find_class(s, k, i) <= s.len(),
    decreases s.len() - i,
{
    if i < s.len() && !in_class(k, s[i]) {
        lemma_find_class_bounds(s, k, i + 1);
    }
}

/// A skip from `i` ends at or after `i`, within `s`, at a character that is
/// not in `k`.
pub proof fn lemma_skip_class_bounds(s: Seq<char>, k: CharClass, i: int)
    requires
        0 <= i <= s.len(),
    ensures
        i <= skip_class(s, k, i) <= s.len(),
        skip_class(s, k, i) < s.len() ==> !in_class(k, s[skip_class(s, k, i)]),
    decreases s.len() - i,
{
    if i < s.len() && in_class(k, s[i]) {
        lemma_skip_class_bounds(s, k, i + 1);
    }
}

proof fn lemma_decimal_grows(s: Seq<char>, i: int)
    requires
        0 <= i <= s.len(),
        forall|j: int| 0 <= j < s.len() ==> is_digit(#[trigger] s[j]),
    ensures
        decimal(s.take(i)) <= decimal(s),
    decreases s.len() - i,
{
    if i < s.len() {
        lemma_decimal_grows(s, i + 1);
        assert(s.take(i + 1).drop_last() == s.take(i));
    } else {
        assert(s.take(i) == s);
    }
}

/// The number written by the digits `s[from..to]`, where it fits.
pub fn read_decimal(s: &Vec<char>, from: usize, to: usize) -> (value: Option<usize>)
    requires
        from <= to <= s.len(),
        forall|j: int| from <= j < to ==> is_digit(#[trigger] s@[j]),
    ensures
        match value {
            Some(v) => v == decimal(s@.subrange(from as int, to as int)),
            None => decimal(s@.subrange(from as int, to as int)) > usize::MAX,
        },
{
    let ghost digits = s@.subrange(from as int, to as int);
    let mut value: usize = 0;
    let mut i: usize = from;
    while i < to
        invariant
            from <= i <= to <= s.len(),
            digits == s@.subrange(from as int, to as int),
            forall|j: int| 0 <= j < digits.len() ==> is_digit(#[trigger] digits[j]),
            value == decimal(digits.take(i - from)),
        decreases to - i,
    {
        let c = s[i];
        assert(is_digit(digits[i - from]));
        let digit: usize = (c as u32 - '0' as u32) as usize;
        proof {
            assert(digits.take(i - from + 1).drop_last() == digits.take(i - from));
            lemma_decimal_grows(digits, i - from + 1);
        }
        match value.checked_mul(10) {
            None => { return None; },
            Some(tens) => match tens.checked_add(digit) {
                None => { return None; },
                Some(next) => { value = next; },
            },
        }
        i += 1;
    }
    assert(digits.take(to - from) == digits);
    Some(value)
}

/// The length of the run of digits that ends just before the index `n`.
pub open spec fn digit_run_before(s: Seq<char>, n: int) -> nat
    decreases n,
{
    if n <= 0 || n > s.len() || !is_digit(s[n - 1]) {
        0
    } else {
        digit_run_before(s, n - 1) + 1
    }
}

/// The length of the longest run of digits among the first `n` characters.
pub open spec fn longest_digit_run_in(s: Seq<char>, n: int) -> nat
    decreases n,
{
    if n <= 0 {
        0
    } else {
        let before = longest_digit_run_in(s, n - 1);
        let here = digit_run_before(s, n);
        if here > before {
            here
        } else {
            before
        }
    }
}

/// The length of the longest run of ASCII digits in `s`.
pub open spec fn longest_digit_run(s: Seq<char>) -> nat {
    longest_digit_run_in(s, s.len() as int)
}

/// The length of the longest run of ASCII digits in `s`.
pub fn digit_run_of(s: &Vec<char>) -> (longest: usize)
    ensures
        longest == longest_digit_run(s@),
{
    let mut longest: usize = 0;
    let mut run: usize = 0;
    let mut i: usize = 0;
    while i < s.len()
        invariant
            i <= s.len(),
            run <= i,
            run == digit_run_before(s@, i as int),
            longest == longest_digit_run_in(s@, i as int),
        decreases s.len() - i,
    {
        if class_has(CharClass::Digit, s[i]) {
            run += 1;
        } else {
            run = 0;
        }
        if run > longest {
            longest = run;
        }
        i += 1;
    }
    longest
}

} // verus!
