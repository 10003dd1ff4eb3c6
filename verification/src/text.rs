//! Character-level helpers shared by the text forms: appending single
//! characters to a `String`, and reading and writing unsigned decimal
//! numbers.

use vstd::prelude::*;

verus! {

/// Relies on `String::push`: appends exactly the given character at the
/// end of the string.
#[verifier::external_body]
pub fn push_char(s: &mut String, c: char)
    ensures
        final(s)@ == old(s)@.push(c),
{
    s.push(c);
}

/// The character for one decimal digit.
pub open spec fn digit_char_spec(d: nat) -> char {
    (48 + d) as char
}

/// The decimal form of `n`, most significant digit first, with no sign
/// and no leading zero (except for `n == 0` itself).
pub open spec fn dec_digits(n: nat) -> Seq<char>
    decreases n,
{
    if n < 10 {
        seq![digit_char_spec(n)]
    } else {
        dec_digits(n / 10).push(digit_char_spec(n % 10))
    }
}

pub proof fn lemma_dec_digits_len(n: nat)
    ensures
        dec_digits(n).len() >= 1,
    decreases n,
{
    if n >= 10 {
        lemma_dec_digits_len(n / 10);
    }
}

/// Every character of a decimal form is a digit character.
pub proof fn lemma_dec_digits_are_digits(n: nat)
    ensures
        forall|i: int|
            0 <= i < dec_digits(n).len()
                ==> 48 <= (#[trigger] dec_digits(n)[i]) as u32 <= 57,
    decreases n,
{
    if n < 10 {
        assert(dec_digits(n) == seq![digit_char_spec(n)]);
        assert(dec_digits(n)[0] == digit_char_spec(n));
        assert(digit_char_spec(n) as u32 == 48 + n);
    } else {
        lemma_dec_digits_are_digits(n / 10);
        assert(dec_digits(n) == dec_digits(n / 10).push(digit_char_spec(n % 10)));
        assert(digit_char_spec((n % 10) as nat) as u32 == 48 + n % 10);
        assert forall|i: int| 0 <= i < dec_digits(n).len()
            implies 48 <= (#[trigger] dec_digits(n)[i]) as u32 <= 57 by {
            if i < dec_digits(n / 10).len() {
                assert(dec_digits(n)[i] == dec_digits(n / 10)[i]);
            } else {
                assert(dec_digits(n)[i] == digit_char_spec((n % 10) as nat));
            }
        }
    }
}

/// The numeric value of a digit-character sequence, most significant
/// digit first.
pub open spec fn dec_value(s: Seq<char>) -> int
    decreases s.len(),
{
    if s.len() == 0 {
        0
    } else {
        dec_value(s.drop_last()) * 10 + (s.last() as u32 - 48)
    }
}

/// Whether every character of `s` is a decimal digit, and there is at
/// least one.
pub open spec fn is_digits(s: Seq<char>) -> bool {
    s.len() >= 1 && forall|i: int| 0 <= i < s.len() ==> 48 <= (#[trigger] s[i]) as u32 <= 57
}

/// Reading back the decimal form of `n` yields `n`.
pub proof fn lemma_dec_value_of_digits(n: nat)
    ensures
        dec_value(dec_digits(n)) == n,
    decreases n,
{
    lemma_dec_digits_len(n);
    assert(dec_value(Seq::<char>::empty()) == 0);
    if n < 10 {
        assert(dec_digits(n) == seq![digit_char_spec(n)]);
        assert(dec_digits(n).last() == digit_char_spec(n));
        assert(digit_char_spec(n) as u32 == 48 + n);
        assert(dec_digits(n).drop_last() =~= Seq::<char>::empty());
        assert(dec_value(dec_digits(n))
            == dec_value(dec_digits(n).drop_last()) * 10 + (dec_digits(n).last() as u32 - 48));
    } else {
        lemma_dec_value_of_digits(n / 10);
        assert(dec_digits(n) == dec_digits(n / 10).push(digit_char_spec((n % 10) as nat)));
        assert(dec_digits(n).last() == digit_char_spec((n % 10) as nat));
        assert(digit_char_spec((n % 10) as nat) as u32 == 48 + n % 10);
        assert(dec_digits(n).drop_last() =~= dec_digits(n / 10));
        assert(dec_value(dec_digits(n))
            == dec_value(dec_digits(n / 10)) * 10 + (n % 10));
        assert(n / 10 * 10 + n % 10 == n);
    }
}

/// The exec counterpart of `digit_char_spec`.
pub fn digit_char(d: u8) -> (c: char)
    requires
        d < 10,
    ensures
        c == digit_char_spec(d as nat),
{
    (48 + d) as char
}

/// Appends the decimal form of `n` to `out`.
pub fn append_u32_decimal(out: &mut String, n: u32)
    ensures
        final(out)@ == old(out)@ + dec_digits(n as nat),
    decreases n,
{
    if n < 10 {
        push_char(out, digit_char(n as u8));
        proof {
            assert(out@ =~= old(out)@ + dec_digits(n as nat));
        }
    } else {
        append_u32_decimal(out, n / 10);
        push_char(out, digit_char((n % 10) as u8));
        proof {
            assert(out@ =~= old(out)@ + dec_digits(n as nat));
        }
    }
}

/// Appends the decimal form of `n` to `out`.
pub fn append_usize_decimal(out: &mut String, n: usize)
    ensures
        final(out)@ == old(out)@ + dec_digits(n as nat),
    decreases n,
{
    if n < 10 {
        push_char(out, digit_char(n as u8));
        proof {
            assert(out@ =~= old(out)@ + dec_digits(n as nat));
        }
    } else {
        append_usize_decimal(out, n / 10);
        push_char(out, digit_char((n % 10) as u8));
        proof {
            assert(out@ =~= old(out)@ + dec_digits(n as nat));
        }
    }
}

/// Reads an unsigned decimal number from the characters of `s` between
/// `from` (inclusive) and `to` (exclusive). Returns `None` when the range
/// is empty, holds a non-digit, or the value does not fit in a `u32`.
pub fn parse_u32_range(s: &str, from: usize, to: usize) -> (r: Option<u32>)
    requires
        from <= to <= s@.len(),
    ensures
        match r {
            Some(n) => is_digits(s@.subrange(from as int, to as int))
                && n == dec_value(s@.subrange(from as int, to as int))
                && dec_value(s@.subrange(from as int, to as int)) <= u32::MAX,
            None => !is_digits(s@.subrange(from as int, to as int))
                || dec_value(s@.subrange(from as int, to as int)) > u32::MAX,
        },
{
    if from == to {
        return None;
    }
    let mut acc: u32 = 0;
    let mut i: usize = from;
    while i < to
        invariant
            from <= i <= to <= s@.len(),
            is_digits_prefix(s@, from as int, i as int),
            acc == dec_value(s@.subrange(from as int, i as int)),
            from < to,
        decreases to - i,
    {
        let c: char = s.get_char(i);
        let u: u32 = c as u32;
        if u < 48 || u > 57 {
            proof {
                assert(s@.subrange(from as int, to as int)[i - from] == c);
            }
            return None;
        }
        let d: u32 = u - 48;
        if acc > (u32::MAX - d) / 10 {
            proof {
                lemma_dec_value_lower_bound(s@, from as int, i as int, to as int);
            }
            return None;
        }
        proof {
            assert(s@.subrange(from as int, i + 1).drop_last()
                =~= s@.subrange(from as int, i as int));
        }
        acc = acc * 10 + d;
        i = i + 1;
    }
    Some(acc)
}

/// Every character of `s` between `from` and `i` is a digit.
pub open spec fn is_digits_prefix(s: Seq<char>, from: int, i: int) -> bool {
    forall|k: int| from <= k < i ==> 48 <= (#[trigger] s[k]) as u32 <= 57
}

/// When the digits seen so far already overflow a `u32` after one more
/// digit, the value of the whole range overflows as well.
proof fn lemma_dec_value_lower_bound(s: Seq<char>, from: int, i: int, to: int)
    requires
        0 <= from <= i < to <= s.len(),
        dec_value(s.subrange(from, i)) * 10 + (s[i] as u32 - 48) > u32::MAX,
        48 <= s[i] as u32 <= 57,
    ensures
        dec_value(s.subrange(from, to)) > u32::MAX || !is_digits(s.subrange(from, to)),
    decreases to - i,
{
    if is_digits(s.subrange(from, to)) {
        assert forall|k: int| from <= k < to implies 48 <= (#[trigger] s[k]) as u32 <= 57 by {
            assert(s.subrange(from, to)[k - from] == s[k]);
        }
        lemma_dec_value_monotone(s, from, i + 1, to);
        assert(s.subrange(from, i + 1).drop_last() =~= s.subrange(from, i));
        assert(dec_value(s.subrange(from, i + 1))
            == dec_value(s.subrange(from, i)) * 10 + (s[i] as u32 - 48));
    }
}

/// The value of a digit range is not negative.
proof fn lemma_dec_value_nonneg(s: Seq<char>, from: int, to: int)
    requires
        0 <= from <= to <= s.len(),
        is_digits_prefix(s, from, to),
    ensures
        dec_value(s.subrange(from, to)) >= 0,
    decreases to - from,
{
    if from < to {
        lemma_dec_value_nonneg(s, from, to - 1);
        assert(s.subrange(from, to).drop_last() =~= s.subrange(from, to - 1));
        assert(s.subrange(from, to).last() == s[to - 1]);
        let v = dec_value(s.subrange(from, to - 1));
        assert(v * 10 >= 0) by (nonlinear_arith)
            requires
                v >= 0,
        ;
    } else {
        assert(s.subrange(from, to).len() == 0);
    }
}

/// Extending a digit range to the right cannot decrease its value.
proof fn lemma_dec_value_monotone(s: Seq<char>, from: int, mid: int, to: int)
    requires
        0 <= from <= mid <= to <= s.len(),
        is_digits_prefix(s, from, to),
    ensures
        dec_value(s.subrange(from, to)) >= dec_value(s.subrange(from, mid)),
    decreases to - mid,
{
    if mid < to {
        lemma_dec_value_monotone(s, from, mid + 1, to);
        assert(s.subrange(from, mid + 1).drop_last() =~= s.subrange(from, mid));
        assert(s.subrange(from, mid + 1).last() == s[mid]);
        assert(dec_value(s.subrange(from, mid + 1))
            == dec_value(s.subrange(from, mid)) * 10 + (s[mid] as u32 - 48));
        lemma_dec_value_nonneg(s, from, mid);
        let v = dec_value(s.subrange(from, mid));
        assert(v * 10 >= v) by (nonlinear_arith)
            requires
                v >= 0,
        ;
    }
}

} // verus!
