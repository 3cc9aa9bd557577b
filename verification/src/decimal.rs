//! Integers in ASCII decimal, as Bencode writes lengths and numbers: how a
//! number is written, which texts are read as a number, and that what was
//! written is read back.

use vstd::prelude::*;

verus! {

/// `0` to `9` in ASCII.
pub open spec fn is_digit(b: u8) -> bool {
    0x30 <= b <= 0x39
}

/// Every byte of `s` is a digit.
pub open spec fn all_digits(s: Seq<u8>) -> bool {
    forall|i: int| 0 <= i < s.len() ==> is_digit(#[trigger] s[i])
}

/// The number that the digits `s` denote; leading zeros count for nothing.
pub open spec fn digits_value(s: Seq<u8>) -> nat
    decreases s.len(),
{
    if s.len() == 0 {
        0
    } else {
        digits_value(s.drop_last()) * 10 + (s.last() - 0x30) as nat
    }
}

/// `n` in decimal, without leading zeros.
pub open spec fn decimal(n: nat) -> Seq<u8>
    decreases n,
{
    if n < 10 {
        seq![(0x30 + n) as u8]
    } else {
        decimal(n / 10).push((0x30 + n % 10) as u8)
    }
}

/// `i` in decimal, with a minus sign in front of a negative number.
pub open spec fn signed_decimal(i: int) -> Seq<u8> {
    if i < 0 {
        seq![0x2du8] + decimal((-i) as nat)
    } else {
        decimal(i as nat)
    }
}

/// The number that `s` is read as, if any: one digit or more.
pub open spec fn parse_digits(s: Seq<u8>) -> Option<nat> {
    if s.len() > 0 && all_digits(s) {
        Some(digits_value(s))
    } else {
        None
    }
}

/// The unsigned number that `s` is read as, if any: an optional plus sign,
/// then one digit or more.
pub open spec fn parse_unsigned(s: Seq<u8>) -> Option<nat> {
    if s.len() > 0 && s[0] == 0x2b {
        parse_digits(s.skip(1))
    } else {
        parse_digits(s)
    }
}

/// The signed number that `s` is read as, if any: an optional plus or minus
/// sign, then one digit or more.
pub open spec fn parse_signed(s: Seq<u8>) -> Option<int> {
    if s.len() > 0 && s[0] == 0x2d {
        match parse_digits(s.skip(1)) {
            Some(n) => Some(-(n as int)),
            None => None,
        }
    } else {
        match parse_unsigned(s) {
            Some(n) => Some(n as int),
            None => None,
        }
    }
}

/// The length that `s` is read as: an unsigned number that fits a `usize`.
pub open spec fn parse_length(s: Seq<u8>) -> Option<usize> {
    match parse_unsigned(s) {
        Some(n) => if n <= usize::MAX {
            Some(n as usize)
        } else {
            None
        },
        None => None,
    }
}

/// The 64-bit integer that `s` is read as: a signed number in range.
pub open spec fn parse_integer(s: Seq<u8>) -> Option<i64> {
    match parse_signed(s) {
        Some(i) => if i64::MIN <= i <= i64::MAX {
            Some(i as i64)
        } else {
            None
        },
        None => None,
    }
}

/// A number's decimal form is made of digits, one at least, and denotes the
/// number.
pub proof fn lemma_decimal_digits(n: nat)
    ensures
        decimal(n).len() >= 1,
        all_digits(decimal(n)),
        digits_value(decimal(n)) == n,
    decreases n,
{
    if n < 10 {
        let s = decimal(n);
        assert(s.drop_last() =~= Seq::<u8>::empty());
        assert(digits_value(s.drop_last()) == 0);
    } else {
        lemma_decimal_digits(n / 10);
        let s = decimal(n);
        assert(s.drop_last() =~= decimal(n / 10));
        assert forall|i: int| 0 <= i < s.len() implies is_digit(#[trigger] s[i]) by {
            if i < s.len() - 1 {
                assert(s[i] == decimal(n / 10)[i]);
            }
        }
    }
}

/// What is written for an unsigned number is read as that number.
pub proof fn lemma_parse_unsigned_decimal(n: nat)
    ensures
        parse_unsigned(decimal(n)) == Some(n),
{
    lemma_decimal_digits(n);
    assert(is_digit(decimal(n)[0]));
}

/// What is written for a signed number is read as that number.
pub proof fn lemma_parse_signed_decimal(i: int)
    ensures
        parse_signed(signed_decimal(i)) == Some(i),
{
    if i < 0 {
        let n = (-i) as nat;
        lemma_decimal_digits(n);
        assert(signed_decimal(i).skip(1) =~= decimal(n));
    } else {
        lemma_parse_unsigned_decimal(i as nat);
        assert(is_digit(decimal(i as nat)[0])) by {
            lemma_decimal_digits(i as nat);
        }
    }
}

/// Among digits, a prefix denotes no more than the whole.
pub proof fn lemma_digits_value_prefix(s: Seq<u8>, k: int)
    requires
        0 <= k <= s.len(),
    ensures
        digits_value(s.take(k)) <= digits_value(s),
    decreases s.len() - k,
{
    if k < s.len() {
        lemma_digits_value_prefix(s, k + 1);
        assert(s.take(k + 1).drop_last() =~= s.take(k));
    } else {
        assert(s.take(k) =~= s);
    }
}

/// Appends `n` in decimal to `out`.
pub fn push_decimal(out: &mut Vec<u8>, n: u64)
    ensures
        final(out)@ == old(out)@ + decimal(n as nat),
    decreases n,
{
    if n >= 10 {
        push_decimal(out, n / 10);
    }
    out.push(0x30 + (n % 10) as u8);
    assert(out@ =~= old(out)@ + decimal(n as nat));
}

/// Appends `i` in decimal to `out`, with a minus sign if it is negative.
pub fn push_signed_decimal(out: &mut Vec<u8>, i: i64)
    ensures
        final(out)@ == old(out)@ + signed_decimal(i as int),
{
    if i < 0 {
        out.push(0x2d);
        let magnitude: u64 = (-(i + 1)) as u64 + 1;
        push_decimal(out, magnitude);
        assert(out@ =~= old(out)@ + signed_decimal(i as int));
    } else {
        push_decimal(out, i as u64);
    }
}

/// Reads the digits `s[from..]` as a number, if they are digits, at least one,
/// and the number fits.
fn read_digits(s: &[u8], from: usize) -> (r: Option<u64>)
    requires
        from <= s@.len(),
    ensures
        r == match parse_digits(s@.skip(from as int)) {
            Some(n) => if n <= u64::MAX {
                Some(n as u64)
            } else {
                None
            },
            None => None,
        },
{
    let ghost digits = s@.skip(from as int);
    if from == s.len() {
        return None;
    }
    let mut acc: u64 = 0;
    let mut i: usize = from;
    while i < s.len()
        invariant
            from <= i <= s@.len(),
            digits == s@.skip(from as int),
            all_digits(digits.take(i - from)),
            acc == digits_value(digits.take(i - from)),
        decreases s@.len() - i,
    {
        let b = s[i];
        let ghost next = digits.take(i - from + 1);
        proof {
            assert(digits[i - from] == b);
            assert(next.drop_last() =~= digits.take(i - from));
            assert(next.last() == b);
        }
        if b < 0x30 || b > 0x39 {
            assert(!all_digits(digits));
            return None;
        }
        proof {
            assert forall|j: int| 0 <= j < next.len() implies is_digit(#[trigger] next[j]) by {
                if j < next.len() - 1 {
                    assert(next[j] == digits.take(i - from)[j]);
                }
            }
            lemma_digits_value_prefix(digits, i - from + 1);
        }
        let d: u64 = (b - 0x30) as u64;
        if acc > (u64::MAX - d) / 10 {
            return None;
        }
        acc = acc * 10 + d;
        i += 1;
    }
    assert(digits.take(i - from) =~= digits);
    Some(acc)
}

/// Reads `s` as a length.
pub fn parse_usize(s: &[u8]) -> (r: Option<usize>)
    ensures
        r == parse_length(s@),
{
    let from: usize = if s.len() > 0 && s[0] == 0x2b {
        1
    } else {
        0
    };
    assert(s@.skip(0) =~= s@);
    match read_digits(s, from) {
        Some(n) => {
            if n <= usize::MAX as u64 {
                Some(n as usize)
            } else {
                None
            }
        },
        None => None,
    }
}

/// Reads `s` as a 64-bit integer.
pub fn parse_i64(s: &[u8]) -> (r: Option<i64>)
    ensures
        r == parse_integer(s@),
{
    if s.len() > 0 && s[0] == 0x2d {
        match read_digits(s, 1) {
            Some(n) => {
                if n <= i64::MAX as u64 {
                    Some(-(n as i64))
                } else if n == i64::MAX as u64 + 1 {
                    Some(i64::MIN)
                } else {
                    None
                }
            },
            None => None,
        }
    } else {
        let from: usize = if s.len() > 0 && s[0] == 0x2b {
            1
        } else {
            0
        };
        assert(s@.skip(0) =~= s@);
        match read_digits(s, from) {
            Some(n) => {
                if n <= i64::MAX as u64 {
                    Some(n as i64)
                } else {
                    None
                }
            },
            None => None,
        }
    }
}

} // verus!
