//! Text primitives with exact contracts.

use vstd::prelude::*;
use vstd::utf8::{decode_utf8, valid_utf8};

verus! {

/// `a` followed by `b`.
pub fn joined(a: &str, b: &str) -> (r: String)
    ensures
        r@ == a@ + b@,
{
    let mut r = a.to_owned();
    r.append(b);
    r
}

/// Whether the two texts are equal.
pub fn same(a: &str, b: &str) -> (r: bool)
    ensures
        r == (a@ == b@),
{
    a.to_owned() == b.to_owned()
}

/// `std::str::from_utf8`: the text that `bytes` encode, if they are valid
/// UTF-8.
#[verifier::external_body]
pub(crate) fn utf8_text(bytes: &[u8]) -> (r: Option<String>)
    ensures
        r is Some <==> valid_utf8(bytes@),
        r matches Some(s) ==> s@ == decode_utf8(bytes@),
{
    std::str::from_utf8(bytes).ok().map(|s| s.to_string())
}

/// `s` as std's `Debug` writes it: between quotes, with escapes.
pub uninterp spec fn debug_quoted(s: Seq<char>) -> Seq<char>;

/// `format!` with `{:?}` on a `str`.
#[verifier::external_body]
pub(crate) fn debug_text(s: &str) -> (r: String)
    ensures
        r@ == debug_quoted(s@),
{
    format!("{:?}", s)
}

/// The characters of `s`.
pub fn chars_of(s: &str) -> (r: Vec<char>)
    ensures
        r@ == s@,
{
    let mut r: Vec<char> = Vec::new();
    for c in it: s.chars()
        invariant
            r@ == it.seq().take(it.index()),
            it.seq() == s@,
    {
        r.push(c);
        assert(r@ =~= it.seq().take(it.index() + 1));
    }
    assert(r@ =~= s@);
    r
}

/// The characters with the Unicode property `White_Space`.
pub open spec fn is_white(c: char) -> bool {
    ||| '\u{9}' <= c <= '\u{d}'
    ||| c == '\u{20}'
    ||| c == '\u{85}'
    ||| c == '\u{a0}'
    ||| c == '\u{1680}'
    ||| '\u{2000}' <= c <= '\u{200a}'
    ||| c == '\u{2028}'
    ||| c == '\u{2029}'
    ||| c == '\u{202f}'
    ||| c == '\u{205f}'
    ||| c == '\u{3000}'
}

/// Whether `c` is white space.
pub fn white(c: char) -> (r: bool)
    ensures
        r == is_white(c),
{
    ('\u{9}' <= c && c <= '\u{d}') || c == '\u{20}' || c == '\u{85}' || c == '\u{a0}'
        || c == '\u{1680}' || ('\u{2000}' <= c && c <= '\u{200a}') || c == '\u{2028}'
        || c == '\u{2029}' || c == '\u{202f}' || c == '\u{205f}' || c == '\u{3000}'
}

/// Where `key` first occurs in `s`, from index `from` on.
pub open spec fn found(s: Seq<char>, key: Seq<char>, from: int) -> Option<int>
    decreases s.len() + 1 - from,
{
    if from + key.len() > s.len() {
        None
    } else if s.subrange(from, from + key.len()) == key {
        Some(from)
    } else {
        found(s, key, from + 1)
    }
}

fn matches_at(s: &Vec<char>, key: &Vec<char>, at: usize) -> (r: bool)
    requires
        at + key@.len() <= s@.len(),
    ensures
        r == (s@.subrange(at as int, at + key@.len()) == key@),
{
    let ghost part = s@.subrange(at as int, at + key@.len());
    let len: usize = s.len();
    let mut i: usize = 0;
    while i < key.len()
        invariant
            i <= key@.len(),
            at + key@.len() <= s@.len(),
            s@.len() == len,
            part == s@.subrange(at as int, at + key@.len()),
            forall|j: int| 0 <= j < i ==> part[j] == key@[j],
        decreases key@.len() - i,
    {
        if s[at + i] != key[i] {
            assert(part[i as int] != key@[i as int]);
            return false;
        }
        assert(part[i as int] == key@[i as int]);
        i = i + 1;
    }
    assert(part =~= key@);
    true
}

/// Where `key` first occurs in `s`, from index `from` on.
pub fn find(s: &Vec<char>, key: &Vec<char>, from: usize) -> (r: Option<usize>)
    requires
        from <= s@.len(),
    ensures
        match r {
            Some(i) => found(s@, key@, from as int) == Some(i as int) && i + key@.len()
                <= s@.len() && from <= i,
            None => found(s@, key@, from as int) is None,
        },
{
    if key.len() > s.len() {
        return None;
    }
    let last: usize = s.len() - key.len();
    let mut i: usize = from;
    while i <= last
        invariant
            from <= i <= s@.len(),
            key@.len() <= s@.len(),
            last == s@.len() - key@.len(),
            found(s@, key@, from as int) == found(s@, key@, i as int),
        decreases s@.len() + 1 - i,
    {
        if matches_at(s, key, i) {
            return Some(i);
        }
        if i == s.len() {
            assert(found(s@, key@, i + 1) is None);
            return None;
        }
        i = i + 1;
    }
    None
}

/// Where `c` first occurs in `s`, from index `from` on; the length of `s` if
/// it does not.
pub open spec fn next_char(s: Seq<char>, c: char, from: int) -> int
    decreases s.len() - from,
{
    if from >= s.len() {
        s.len() as int
    } else if s[from] == c {
        from
    } else {
        next_char(s, c, from + 1)
    }
}

/// Where `c` first occurs in `s`, from index `from` on; the length of `s` if
/// it does not.
pub fn find_char(s: &Vec<char>, c: char, from: usize) -> (r: usize)
    requires
        from <= s@.len(),
    ensures
        r == next_char(s@, c, from as int),
        from <= r <= s@.len(),
        r < s@.len() ==> s@[r as int] == c,
{
    let mut i: usize = from;
    while i < s.len()
        invariant
            from <= i <= s@.len(),
            next_char(s@, c, from as int) == next_char(s@, c, i as int),
        decreases s@.len() - i,
    {
        if s[i] == c {
            return i;
        }
        i = i + 1;
    }
    i
}

/// Whether `c` counts as padding: white space, and where `parens` is set the
/// two parentheses.
pub open spec fn is_padding(c: char, parens: bool) -> bool {
    is_white(c) || parens && (c == '(' || c == ')')
}

fn padding(c: char, parens: bool) -> (r: bool)
    ensures
        r == is_padding(c, parens),
{
    white(c) || parens && (c == '(' || c == ')')
}

/// First index from `from` on that holds no padding.
pub open spec fn padding_skipped(s: Seq<char>, from: int, parens: bool) -> int
    decreases s.len() - from,
{
    if from < s.len() && is_padding(s[from], parens) {
        padding_skipped(s, from + 1, parens)
    } else {
        from
    }
}

/// First index from `from` on that holds no white space.
pub fn skip_white(s: &Vec<char>, from: usize) -> (r: usize)
    requires
        from <= s@.len(),
    ensures
        r == padding_skipped(s@, from as int, false),
        from <= r <= s@.len(),
{
    let mut i: usize = from;
    while i < s.len() && white(s[i])
        invariant
            from <= i <= s@.len(),
            padding_skipped(s@, from as int, false) == padding_skipped(s@, i as int, false),
        decreases s@.len() - i,
    {
        i = i + 1;
    }
    i
}

/// Where the padding at the end of `s` begins.
pub open spec fn padding_dropped(s: Seq<char>, parens: bool) -> int
    decreases s.len(),
{
    if s.len() > 0 && is_padding(s.last(), parens) {
        padding_dropped(s.drop_last(), parens)
    } else {
        s.len() as int
    }
}

/// `s` without the padding at its two ends.
pub open spec fn trimmed(s: Seq<char>, parens: bool) -> Seq<char> {
    let kept = s.take(padding_dropped(s, parens));
    kept.skip(padding_skipped(kept, 0, parens))
}

/// The bounds within `s` of its part from `lo` to `hi` without the padding at
/// that part's two ends.
pub fn trim(s: &Vec<char>, lo: usize, hi: usize, parens: bool) -> (r: (usize, usize))
    requires
        lo <= hi <= s@.len(),
    ensures
        lo <= r.0 <= r.1 <= hi,
        s@.subrange(r.0 as int, r.1 as int) == trimmed(
            s@.subrange(lo as int, hi as int),
            parens,
        ),
{
    let ghost part = s@.subrange(lo as int, hi as int);
    let mut end: usize = hi;
    while end > lo && padding(s[end - 1], parens)
        invariant
            lo <= end <= hi <= s@.len(),
            part == s@.subrange(lo as int, hi as int),
            padding_dropped(part, parens) == padding_dropped(
                s@.subrange(lo as int, end as int),
                parens,
            ),
        decreases end,
    {
        assert(s@.subrange(lo as int, end as int).drop_last() =~= s@.subrange(
            lo as int,
            end - 1,
        ));
        end = end - 1;
    }
    let ghost kept = s@.subrange(lo as int, end as int);
    assert(padding_dropped(kept, parens) == kept.len());
    assert(part.take(padding_dropped(part, parens)) =~= kept);
    let mut start: usize = lo;
    while start < end && padding(s[start], parens)
        invariant
            lo <= start <= end <= hi <= s@.len(),
            kept == s@.subrange(lo as int, end as int),
            padding_skipped(kept, 0, parens) == padding_skipped(kept, start - lo, parens),
        decreases end - start,
    {
        start = start + 1;
    }
    assert(padding_skipped(kept, 0, parens) == start - lo);
    assert(kept.skip(start - lo) =~= s@.subrange(start as int, end as int));
    (start, end)
}

/// Whether `c` is a decimal digit.
pub open spec fn is_digit(c: char) -> bool {
    '0' <= c <= '9'
}

/// The number that the decimal digits `s` write.
pub open spec fn decimal(s: Seq<char>) -> nat
    decreases s.len(),
{
    if s.len() == 0 {
        0
    } else {
        decimal(s.drop_last()) * 10 + (s.last() as nat - '0' as nat) as nat
    }
}

/// Whether `s` consists of decimal digits.
pub open spec fn all_digits(s: Seq<char>) -> bool {
    forall|i: int| 0 <= i < s.len() ==> is_digit(s[i])
}

/// The number that the digits `s` write. None where `s` is empty or holds
/// anything else, or where the number is above `usize::MAX`.
pub open spec fn digits_number(s: Seq<char>) -> Option<usize> {
    if s.len() > 0 && all_digits(s) && decimal(s) <= usize::MAX {
        Some(decimal(s) as usize)
    } else {
        None
    }
}

/// The number that `s` writes: digits after an optional plus sign.
pub open spec fn number(s: Seq<char>) -> Option<usize> {
    if s.len() > 0 && s[0] == '+' {
        digits_number(s.skip(1))
    } else {
        digits_number(s)
    }
}

proof fn lemma_decimal_grows(s: Seq<char>, n: int)
    requires
        0 <= n <= s.len(),
    ensures
        decimal(s.take(n)) <= decimal(s),
    decreases s.len() - n,
{
    if n < s.len() {
        lemma_decimal_grows(s, n + 1);
        assert(s.take(n + 1).drop_last() =~= s.take(n));
    } else {
        assert(s.take(n) =~= s);
    }
}

/// The number that the part of `s` from `lo` to `hi` writes.
pub fn parse_number(s: &Vec<char>, lo: usize, hi: usize) -> (r: Option<usize>)
    requires
        lo <= hi <= s@.len(),
    ensures
        r == number(s@.subrange(lo as int, hi as int)),
{
    let ghost part = s@.subrange(lo as int, hi as int);
    let mut start: usize = lo;
    if lo < hi && s[lo] == '+' {
        start = lo + 1;
    }
    let ghost digits = s@.subrange(start as int, hi as int);
    proof {
        if start == lo {
            assert(digits =~= part);
        } else {
            assert(digits =~= part.skip(1));
        }
        assert(number(part) == digits_number(digits));
    }
    if start == hi {
        return None;
    }
    let mut i: usize = start;
    let mut n: usize = 0;
    assert(digits.take(0) =~= Seq::<char>::empty());
    while i < hi
        invariant
            start <= i <= hi <= s@.len(),
            digits == s@.subrange(start as int, hi as int),
            start < hi,
            part == s@.subrange(lo as int, hi as int),
            number(part) == digits_number(digits),
            forall|j: int| 0 <= j < i - start ==> is_digit(digits[j]),
            n == decimal(digits.take(i - start)),
        decreases hi - i,
    {
        let c = s[i];
        assert(c == digits[i - start]);
        if !('0' <= c && c <= '9') {
            assert(!all_digits(digits));
            return None;
        }
        let d: usize = (c as u32 - '0' as u32) as usize;
        proof {
            assert(digits.take(i - start + 1).drop_last() =~= digits.take(i - start));
            lemma_decimal_grows(digits, i - start + 1);
        }
        if n > (usize::MAX - d) / 10 {
            assert(n * 10 + d > usize::MAX);
            return None;
        }
        assert(n * 10 + d <= usize::MAX);
        n = n * 10 + d;
        i = i + 1;
    }
    assert(digits.take(i - start) =~= digits);
    Some(n)
}

/// The decimal digit for `d`.
pub open spec fn digit_char(d: nat) -> char {
    ('0' as nat + d) as char
}

/// `n` in decimal digits, without leading zeros.
pub open spec fn digits_of(n: nat) -> Seq<char>
    decreases n,
{
    if n < 10 {
        seq![digit_char(n)]
    } else {
        digits_of(n / 10).push(digit_char(n % 10))
    }
}

fn digit_text(d: u64) -> (r: &'static str)
    requires
        d < 10,
    ensures
        r@ == seq![digit_char(d as nat)],
{
    proof {
        reveal_strlit("0");
        reveal_strlit("1");
        reveal_strlit("2");
        reveal_strlit("3");
        reveal_strlit("4");
        reveal_strlit("5");
        reveal_strlit("6");
        reveal_strlit("7");
        reveal_strlit("8");
        reveal_strlit("9");
    }
    if d == 0 {
        "0"
    } else if d == 1 {
        "1"
    } else if d == 2 {
        "2"
    } else if d == 3 {
        "3"
    } else if d == 4 {
        "4"
    } else if d == 5 {
        "5"
    } else if d == 6 {
        "6"
    } else if d == 7 {
        "7"
    } else if d == 8 {
        "8"
    } else {
        "9"
    }
}

/// `n` in decimal digits.
pub fn decimal_text(n: u64) -> (r: String)
    ensures
        r@ == digits_of(n as nat),
    decreases n,
{
    if n < 10 {
        digit_text(n).to_owned()
    } else {
        let mut r = decimal_text(n / 10);
        r.append(digit_text(n % 10));
        assert(r@ =~= digits_of(n as nat));
        r
    }
}

/// The digits written for a number read back as that number.
pub proof fn law_digits_write_the_number(n: nat)
    ensures
        decimal(digits_of(n)) == n,
        all_digits(digits_of(n)),
        digits_of(n).len() > 0,
    decreases n,
{
    if n < 10 {
        assert(digits_of(n).drop_last() =~= Seq::<char>::empty());
        assert(decimal(Seq::<char>::empty()) == 0);
    } else {
        law_digits_write_the_number(n / 10);
        assert(digits_of(n).drop_last() =~= digits_of(n / 10));
    }
}

} // verus!
