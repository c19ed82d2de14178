//! Decimal digit sequences: the canonical decimal rendering of a number, the
//! value of a digit sequence, and verified conversions in both directions.
//! Weights are rendered without leading zeros, so rendering and reading back
//! are exact inverses.

use vstd::arithmetic::div_mod::lemma_fundamental_div_mod;
use vstd::arithmetic::div_mod::lemma_fundamental_div_mod_converse;
use vstd::prelude::*;

use crate::errors::RenhancdError;
use crate::text::push_char;

verus! {

/// The ten decimal digit characters.
pub open spec fn is_digit(c: char) -> bool {
    48 <= c as u32 <= 57
}

/// The numeric value of one digit character (zero for any other character).
pub open spec fn digit_val(c: char) -> nat {
    if 48 <= c as u32 {
        (c as u32 - 48) as nat
    } else {
        0
    }
}

/// The digit character of one value below ten.
pub open spec fn digit_char(d: nat) -> char {
    if d == 0 {
        '0'
    } else if d == 1 {
        '1'
    } else if d == 2 {
        '2'
    } else if d == 3 {
        '3'
    } else if d == 4 {
        '4'
    } else if d == 5 {
        '5'
    } else if d == 6 {
        '6'
    } else if d == 7 {
        '7'
    } else if d == 8 {
        '8'
    } else {
        '9'
    }
}

/// The digit character of a value below ten carries that value.
pub proof fn lemma_digit_char_val(d: nat)
    requires
        d < 10,
    ensures
        is_digit(digit_char(d)),
        digit_val(digit_char(d)) == d,
{
}

/// Every digit character is the rendering of its own value.
pub proof fn lemma_digit_char_of_val(c: char)
    requires
        is_digit(c),
    ensures
        digit_char(digit_val(c)) == c,
{
    let d = digit_val(c);
    lemma_digit_char_val(d);
    let l = digit_char(d);
    assert(l as u32 == c as u32);
    vstd::utf8::char_u32_cast(c, c as u32);
    vstd::utf8::char_u32_cast(l, l as u32);
}

/// Every character of the sequence is a decimal digit.
pub open spec fn all_digits(s: Seq<char>) -> bool {
    forall|i: int| 0 <= i < s.len() ==> is_digit(#[trigger] s[i])
}

/// The numeric value of a digit sequence, most significant digit first.
pub open spec fn digits_value(s: Seq<char>) -> nat
    decreases s.len(),
{
    if s.len() == 0 {
        0
    } else {
        digits_value(s.drop_last()) * 10 + digit_val(s.last())
    }
}

/// A non-empty digit sequence without a superfluous leading zero.
pub open spec fn canonical_digits(s: Seq<char>) -> bool {
    s.len() > 0 && all_digits(s) && (s[0] == '0' ==> s.len() == 1)
}

/// The canonical decimal rendering of a number.
pub open spec fn digits_of(n: nat) -> Seq<char>
    decreases n,
{
    if n < 10 {
        seq![digit_char(n)]
    } else {
        digits_of(n / 10).push(digit_char(n % 10))
    }
}

/// The rendering of a number is canonical, and it renders zero only for zero.
pub proof fn lemma_digits_of_canonical(n: nat)
    ensures
        canonical_digits(digits_of(n)),
        n > 0 ==> digits_of(n)[0] != '0',
    decreases n,
{
    if n < 10 {
        assert(digits_of(n) =~= seq![digit_char(n)]);
    } else {
        lemma_digits_of_canonical(n / 10);
        assert(digits_of(n)[0] == digits_of(n / 10)[0]);
        assert(forall|i: int|
            0 <= i < digits_of(n / 10).len() ==> #[trigger] digits_of(n)[i] == digits_of(
                n / 10,
            )[i]);
    }
}

/// Reading the rendering of a number back gives the number.
pub proof fn lemma_digits_of_value(n: nat)
    ensures
        digits_value(digits_of(n)) == n,
    decreases n,
{
    if n < 10 {
        lemma_digit_char_val(n);
        let s = digits_of(n);
        assert(s.len() == 1 && s.last() == digit_char(n));
        assert(s.drop_last().len() == 0);
        assert(digits_value(s.drop_last()) == 0);
        assert(digits_value(s) == digit_val(digit_char(n)));
    } else {
        lemma_digits_of_value(n / 10);
        lemma_digit_char_val(n % 10);
        let s = digits_of(n);
        assert(s == digits_of(n / 10).push(digit_char(n % 10)));
        assert(s.len() > 0);
        assert(s.drop_last() =~= digits_of(n / 10));
        assert(s.last() == digit_char(n % 10));
        assert(digits_value(s) == digits_value(digits_of(n / 10)) * 10 + digit_val(
            digit_char(n % 10),
        ));
        lemma_fundamental_div_mod(n as int, 10);
    }
}

/// A digit sequence that does not start with zero has a positive value.
pub proof fn lemma_digits_value_positive(s: Seq<char>)
    requires
        s.len() > 0,
        s[0] != '0',
        is_digit(s[0]),
    ensures
        digits_value(s) >= 1,
    decreases s.len(),
{
    if s.len() == 1 {
        if s[0] as u32 == 48 {
            vstd::utf8::char_u32_cast(s[0], s[0] as u32);
            vstd::utf8::char_u32_cast('0', '0' as u32);
        }
        assert(digit_val(s[0]) >= 1);
    } else {
        lemma_digits_value_positive(s.drop_last());
    }
}

/// Rendering the value of a canonical digit sequence gives the sequence back.
pub proof fn lemma_value_of_canonical(s: Seq<char>)
    requires
        canonical_digits(s),
    ensures
        digits_of(digits_value(s)) == s,
    decreases s.len(),
{
    let v = digits_value(s);
    if s.len() == 1 {
        assert(v == digit_val(s[0]));
        assert(v < 10);
        lemma_digit_char_of_val(s[0]);
        assert(digits_of(v) =~= s);
    } else {
        let s0 = s.drop_last();
        assert(s0[0] == s[0]);
        assert(canonical_digits(s0));
        lemma_value_of_canonical(s0);
        lemma_digits_value_positive(s0);
        let v0 = digits_value(s0);
        let d = digit_val(s.last());
        assert(v == v0 * 10 + d);
        assert(v >= 10) by {
            assert(v0 >= 1);
            assert(v0 * 10 >= 10) by (nonlinear_arith)
                requires
                    v0 >= 1,
            ;
        }
        lemma_fundamental_div_mod_converse(v as int, 10, v0 as int, d as int);
        assert(v / 10 == v0 && v % 10 == d);
        lemma_digit_char_of_val(s.last());
        assert(digit_char(d) == s.last());
        assert(digits_of(v) =~= s0.push(s.last()));
        assert(s0.push(s.last()) =~= s);
    }
}

/// The value of a prefix never exceeds the value of the whole sequence.
pub proof fn lemma_digits_value_prefix(s: Seq<char>, i: int)
    requires
        0 <= i <= s.len(),
    ensures
        digits_value(s.subrange(0, i)) <= digits_value(s),
    decreases s.len() - i,
{
    if i == s.len() {
        assert(s.subrange(0, i) =~= s);
    } else {
        lemma_digits_value_prefix(s, i + 1);
        let p = s.subrange(0, i + 1);
        assert(p.drop_last() =~= s.subrange(0, i));
        assert(digits_value(p) == digits_value(s.subrange(0, i)) * 10 + digit_val(p.last()));
        assert(digits_value(s.subrange(0, i)) * 10 >= digits_value(s.subrange(0, i))) by (
        nonlinear_arith);
    }
}

/// The digit character of one value below ten, in executable code.
fn digit_to_char(d: u32) -> (c: char)
    requires
        d < 10,
    ensures
        c == digit_char(d as nat),
        is_digit(c),
        digit_val(c) == d as nat,
{
    proof {
        lemma_digit_char_val(d as nat);
    }
    if d == 0 {
        '0'
    } else if d == 1 {
        '1'
    } else if d == 2 {
        '2'
    } else if d == 3 {
        '3'
    } else if d == 4 {
        '4'
    } else if d == 5 {
        '5'
    } else if d == 6 {
        '6'
    } else if d == 7 {
        '7'
    } else if d == 8 {
        '8'
    } else {
        '9'
    }
}

/// Appends the canonical decimal rendering of `n` to `out`.
pub fn push_decimal(out: &mut String, n: u32)
    ensures
        final(out)@ == old(out)@ + digits_of(n as nat),
    decreases n,
{
    if n < 10 {
        let c = digit_to_char(n);
        push_char(out, c);
        proof {
            assert(final(out)@ =~= old(out)@ + digits_of(n as nat));
        }
    } else {
        push_decimal(out, n / 10);
        let c = digit_to_char(n % 10);
        push_char(out, c);
        proof {
            assert(final(out)@ =~= old(out)@ + digits_of(n as nat));
        }
    }
}

/// Reads the digit span `[from, to)` of `s` as a number, if the span is a
/// non-empty run of digits whose value fits a weight.
pub fn parse_digits_range(s: &str, from: usize, to: usize) -> (r: Option<u32>)
    requires
        from <= to <= s@.len(),
    ensures
        ({
            let span = s@.subrange(from as int, to as int);
            match r {
                Some(w) => span.len() > 0 && all_digits(span) && digits_value(span) == w as nat,
                None => !(span.len() > 0 && all_digits(span) && digits_value(span)
                    <= u32::MAX as nat),
            }
        }),
{
    let ghost span = s@.subrange(from as int, to as int);
    if from == to {
        return None;
    }
    let mut acc: u64 = 0;
    let mut i = from;
    while i < to
        invariant
            from <= i <= to <= s@.len(),
            acc <= u32::MAX as u64,
            span == s@.subrange(from as int, to as int),
            acc as nat == digits_value(span.subrange(0, i - from)),
            forall|j: int| 0 <= j < i - from ==> is_digit(#[trigger] span[j]),
        decreases to - i,
    {
        let c = s.get_char(i);
        let u = c as u32;
        proof {
            assert(span[i - from] == s@[i as int]);
        }
        if u < 48 || u > 57 {
            return None;
        }
        acc = acc * 10 + ((u - 48) as u64);
        proof {
            let p = span.subrange(0, i - from + 1);
            assert(p.drop_last() =~= span.subrange(0, i - from));
            assert(p.last() == span[i - from]);
        }
        i = i + 1;
        if acc > u32::MAX as u64 {
            proof {
                lemma_digits_value_prefix(span, i - from);
            }
            return None;
        }
    }
    proof {
        assert(span.subrange(0, to - from) =~= span);
    }
    Some(acc as u32)
}

/// Reads a weight argument: a non-empty run of decimal digits whose value
/// fits a weight.  Any other text is rejected as a weight-parse failure.
pub fn parse_weight(s: &str) -> (r: Result<u32, RenhancdError>)
    ensures
        match r {
            Ok(w) => s@.len() > 0 && all_digits(s@) && digits_value(s@) == w as nat,
            Err(e) => {
                &&& e == RenhancdError::WeightParseError
                &&& !(s@.len() > 0 && all_digits(s@) && digits_value(s@) <= u32::MAX as nat)
            },
        },
{
    let len = s.unicode_len();
    proof {
        assert(s@.subrange(0, len as int) =~= s@);
    }
    match parse_digits_range(s, 0, len) {
        Some(w) => Ok(w),
        None => Err(RenhancdError::WeightParseError),
    }
}

} // verus!
