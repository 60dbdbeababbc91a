//! What finding, trimming and reading numbers in text come to.

use vstd::prelude::*;

use crate::text::{decimal, digits_of, found, is_digit, is_padding, is_white,
    law_digits_write_the_number, next_char, number, padding_dropped, padding_skipped, trimmed};

verus! {

/// What is found stands at the place that is given, and nowhere before it; what
/// is not found stands nowhere.
pub proof fn law_found_is_the_first(s: Seq<char>, key: Seq<char>, from: int, q: int)
    requires
        0 <= from <= q,
        q + key.len() <= s.len(),
    ensures
        found(s, key, from) matches Some(p) ==> from <= p && p + key.len() <= s.len()
            && s.subrange(p, p + key.len()) == key && (q < p ==> s.subrange(q, q + key.len())
            != key),
        found(s, key, from) is None ==> s.subrange(q, q + key.len()) != key,
    decreases s.len() - from,
{
    if s.subrange(from, from + key.len()) != key {
        if from + 1 + key.len() <= s.len() {
            law_found_is_the_first(
                s,
                key,
                from + 1,
                if q == from {
                    from + 1
                } else {
                    q
                },
            );
        } else {
            assert(found(s, key, from + 1) is None);
        }
    }
}

/// The next place of a character holds it, and none before it does; where none
/// does, it is the end.
pub proof fn law_next_char_is_the_first(s: Seq<char>, c: char, from: int, q: int)
    requires
        0 <= from <= q < s.len(),
    ensures
        from <= next_char(s, c, from) <= s.len(),
        next_char(s, c, from) < s.len() ==> s[next_char(s, c, from)] == c,
        q < next_char(s, c, from) ==> s[q] != c,
    decreases s.len() - from,
{
    if s[from] != c {
        if from + 1 < s.len() {
            law_next_char_is_the_first(
                s,
                c,
                from + 1,
                if q == from {
                    from + 1
                } else {
                    q
                },
            );
        } else {
            assert(next_char(s, c, from + 1) == s.len());
        }
    }
}

proof fn lemma_skipped(s: Seq<char>, from: int, parens: bool)
    requires
        0 <= from <= s.len(),
    ensures
        from <= padding_skipped(s, from, parens) <= s.len(),
        forall|i: int|
            from <= i < padding_skipped(s, from, parens) ==> is_padding(#[trigger] s[i], parens),
        padding_skipped(s, from, parens) < s.len() ==> !is_padding(
            s[padding_skipped(s, from, parens)],
            parens,
        ),
    decreases s.len() - from,
{
    if from < s.len() && is_padding(s[from], parens) {
        lemma_skipped(s, from + 1, parens);
    }
}

proof fn lemma_dropped(s: Seq<char>, parens: bool)
    ensures
        0 <= padding_dropped(s, parens) <= s.len(),
        forall|i: int|
            padding_dropped(s, parens) <= i < s.len() ==> is_padding(#[trigger] s[i], parens),
        padding_dropped(s, parens) > 0 ==> !is_padding(s[padding_dropped(s, parens) - 1], parens),
    decreases s.len(),
{
    if s.len() > 0 && is_padding(s.last(), parens) {
        let front = s.drop_last();
        lemma_dropped(front, parens);
        assert forall|i: int| padding_dropped(s, parens) <= i < s.len() implies is_padding(
            #[trigger] s[i],
            parens,
        ) by {
            if i < s.len() - 1 {
                assert(front[i] == s[i]);
            }
        }
    }
}

/// Trimming leaves out white space, and where asked for parentheses, at the two
/// ends, and nothing else: what is left neither begins nor ends with any.
pub proof fn law_trimming_drops_the_padding(s: Seq<char>, parens: bool) -> (r: (int, int))
    ensures
        0 <= r.0 <= r.1 <= s.len(),
        trimmed(s, parens) == s.subrange(r.0, r.1),
        forall|i: int|
            0 <= i < r.0 || r.1 <= i < s.len() ==> is_white(#[trigger] s[i]) || (parens && (s[i]
                == '(' || s[i] == ')')),
        r.0 < r.1 ==> !is_white(s[r.0]) && !is_white(s[r.1 - 1]),
        r.0 < r.1 && parens ==> s[r.0] != '(' && s[r.0] != ')' && s[r.1 - 1] != '(' && s[r.1 - 1]
            != ')',
{
    let hi = padding_dropped(s, parens);
    lemma_dropped(s, parens);
    let kept = s.take(hi);
    lemma_skipped(kept, 0, parens);
    let lo = padding_skipped(kept, 0, parens);
    assert(kept.skip(lo) =~= s.subrange(lo, hi));
    assert forall|i: int| 0 <= i < lo || hi <= i < s.len() implies is_white(#[trigger] s[i]) || (
    parens && (s[i] == '(' || s[i] == ')')) by {
        if i < lo {
            assert(is_padding(kept[i], parens));
        } else {
            assert(is_padding(s[i], parens));
        }
    }
    (lo, hi)
}

/// White space are the characters with these code points.
pub proof fn law_white_space_is_listed(c: char)
    ensures
        is_white(c) <==> {
            ||| 9 <= c as int <= 13
            ||| c as int == 32
            ||| c as int == 133
            ||| c as int == 160
            ||| c as int == 5760
            ||| 8192 <= c as int <= 8202
            ||| 8232 <= c as int <= 8233
            ||| c as int == 8239
            ||| c as int == 8287
            ||| c as int == 12288
        },
{
}

/// Another digit multiplies what was written by ten and adds itself.
pub proof fn law_digits_have_places(s: Seq<char>, c: char)
    requires
        48 <= c as int <= 57,
    ensures
        is_digit(c),
        decimal(s.push(c)) == 10 * decimal(s) + (c as int - 48),
        decimal(Seq::empty()) == 0,
{
    assert(s.push(c).drop_last() =~= s);
}

/// The digits of a number, alone or behind a plus sign, read as that number,
/// unless it is too large.
pub proof fn law_numbers_read_back(n: nat)
    ensures
        n <= usize::MAX ==> number(digits_of(n)) == Some(n as usize) && number(
            seq!['+'] + digits_of(n),
        ) == Some(n as usize),
        n > usize::MAX ==> number(digits_of(n)) is None && number(seq!['+'] + digits_of(n)) is None,
{
    law_digits_write_the_number(n);
    let s = digits_of(n);
    assert(is_digit(s[0]));
    assert((seq!['+'] + s).skip(1) =~= s);
}

/// Text reads as a number only where it is made of digits behind at most one
/// plus sign, and there is one.
pub proof fn law_only_digits_read_as_numbers(s: Seq<char>, i: int)
    requires
        0 <= i < s.len(),
    ensures
        number(s) is Some ==> 48 <= s[i] as int <= 57 || (i == 0 && s[0] == '+' && s.len() > 1),
        number(Seq::empty()) is None,
{
    if s[0] == '+' {
        if i > 0 && number(s) is Some {
            assert(s.skip(1)[i - 1] == s[i]);
        }
    }
}

} // verus!
