//! Decimal byte-string parsing and formatting for the integer arguments and
//! identifiers of the protocol, with round-trip lemmas.
use vstd::prelude::*;
use vstd::arithmetic::div_mod::lemma_fundamental_div_mod;

verus! {

/// The byte is an ASCII decimal digit.
pub open spec fn is_digit(b: u8) -> bool {
    48 <= b <= 57
}

/// Numeric value of one digit byte.
pub open spec fn digit_val(b: u8) -> nat {
    (b - 48) as nat
}

/// Every byte of the string is a decimal digit.
pub open spec fn all_digits(s: Seq<u8>) -> bool {
    forall|i: int| 0 <= i < s.len() ==> is_digit(#[trigger] s[i])
}

/// Value of a digit string read most-significant first.
pub open spec fn digits_val(s: Seq<u8>) -> nat
    decreases s.len(),
{
    if s.len() == 0 {
        0
    } else {
        digits_val(s.drop_last()) * 10 + digit_val(s.last())
    }
}

/// Canonical decimal digits of a natural number (no leading zeros).
pub open spec fn dec_nat(n: nat) -> Seq<u8>
    decreases n,
{
    if n < 10 {
        seq![(48 + n) as u8]
    } else {
        dec_nat(n / 10).push((48 + n % 10) as u8)
    }
}

/// Canonical decimal form of a signed 64-bit integer.
pub open spec fn dec_i64(n: i64) -> Seq<u8> {
    if n < 0 {
        seq![45u8] + dec_nat((-(n as int)) as nat)
    } else {
        dec_nat(n as nat)
    }
}

/// A string with a possible leading `+`, as the integer parsers accept it.
pub open spec fn strip_plus(s: Seq<u8>) -> Seq<u8> {
    if s.len() > 0 && s[0] == 43 {
        s.drop_first()
    } else {
        s
    }
}

/// What parsing an unsigned decimal up to `max` yields: the value of the
/// digits when the whole string is digits (after an optional `+`) and the
/// value is in range, and nothing otherwise.
pub open spec fn parse_unsigned_spec(s: Seq<u8>, max: nat) -> Option<nat> {
    let d = strip_plus(s);
    if d.len() > 0 && all_digits(d) && digits_val(d) <= max {
        Some(digits_val(d))
    } else {
        None
    }
}

/// What parsing a signed 64-bit decimal yields, following the usual grammar:
/// an optional sign, then digits.
pub open spec fn parse_i64_spec(s: Seq<u8>) -> Option<i64> {
    if s.len() > 0 && s[0] == 45 {
        let d = s.drop_first();
        if d.len() > 0 && all_digits(d) && digits_val(d) <= 0x8000000000000000 {
            Some((-(digits_val(d) as int)) as i64)
        } else {
            None
        }
    } else {
        match parse_unsigned_spec(s, 0x7fffffffffffffff) {
            Some(v) => Some(v as i64),
            None => None,
        }
    }
}

/// The digits of a number value a digit string back to the number.
pub proof fn lemma_digits_val_dec_nat(n: nat)
    ensures
        digits_val(dec_nat(n)) == n,
        dec_nat(n).len() >= 1,
        all_digits(dec_nat(n)),
    decreases n,
{
    if n < 10 {
        assert(digits_val(dec_nat(n)) == digits_val(seq![(48 + n) as u8]));
        assert(seq![(48 + n) as u8].drop_last() =~= Seq::<u8>::empty());
        assert(digits_val(Seq::<u8>::empty()) == 0);
    } else {
        lemma_digits_val_dec_nat(n / 10);
        let s = dec_nat(n / 10);
        let b = (48 + n % 10) as u8;
        assert(s.push(b).drop_last() =~= s);
        assert(s.push(b).last() == b);
        assert(digits_val(s.push(b)) == (n / 10) * 10 + n % 10);
        lemma_fundamental_div_mod(n as int, 10);
    }
}

/// Extending a digit string by one digit multiplies its value by ten and
/// adds the digit.
pub proof fn lemma_digits_val_extend(s: Seq<u8>, i: int)
    requires
        0 <= i < s.len(),
    ensures
        digits_val(s.take(i + 1)) == digits_val(s.take(i)) * 10 + digit_val(s[i]),
{
    assert(s.take(i + 1).drop_last() =~= s.take(i));
    assert(s.take(i + 1).last() == s[i]);
}

/// A full digit string values at least any of its prefixes.
pub proof fn lemma_digits_val_prefix_le(s: Seq<u8>, i: int)
    requires
        0 <= i <= s.len(),
    ensures
        digits_val(s.take(i)) <= digits_val(s),
    decreases s.len() - i,
{
    if i == s.len() {
        assert(s.take(i) =~= s);
    } else {
        lemma_digits_val_extend(s, i);
        lemma_digits_val_prefix_le(s, i + 1);
    }
}

/// Relates the overflow test `a <= (m - d) / 10` to `a * 10 + d <= m`.
pub proof fn lemma_mul10_bound(a: nat, d: nat, m: nat)
    requires
        d < 10,
        d <= m,
    ensures
        (a * 10 + d <= m) <==> (a <= (m - d) / 10),
{
    let q = ((m - d) as int) / 10;
    let r = ((m - d) as int) % 10;
    lemma_fundamental_div_mod((m - d) as int, 10);
    if a <= q {
        assert(a * 10 <= q * 10) by (nonlinear_arith)
            requires a <= q,
        ;
    }
    if a * 10 + d <= m {
        assert(a <= q) by (nonlinear_arith)
            requires
                a * 10 <= q * 10 + r,
                0 <= r < 10,
                0 <= a,
        ;
    }
}

/// Formats a `u64` in decimal.
pub fn fmt_u64(n: u64) -> (r: Vec<u8>)
    ensures
        r@ == dec_nat(n as nat),
    decreases n,
{
    if n < 10 {
        let mut r: Vec<u8> = Vec::new();
        r.push(48 + n as u8);
        proof {
            assert(r@ =~= dec_nat(n as nat));
        }
        r
    } else {
        let mut r = fmt_u64(n / 10);
        r.push(48 + (n % 10) as u8);
        r
    }
}

/// Formats a `u128` in decimal.
pub fn fmt_u128(n: u128) -> (r: Vec<u8>)
    ensures
        r@ == dec_nat(n as nat),
    decreases n,
{
    if n < 10 {
        let mut r: Vec<u8> = Vec::new();
        r.push(48 + n as u8);
        proof {
            assert(r@ =~= dec_nat(n as nat));
        }
        r
    } else {
        let mut r = fmt_u128(n / 10);
        r.push(48 + (n % 10) as u8);
        r
    }
}

/// Formats an `i64` in decimal, with a leading `-` when negative.
pub fn fmt_i64(n: i64) -> (r: Vec<u8>)
    ensures
        r@ == dec_i64(n),
{
    if n >= 0 {
        fmt_u64(n as u64)
    } else {
        let mag: u64 = (-(n as i128)) as u64;
        let digits = fmt_u64(mag);
        let mut r: Vec<u8> = Vec::new();
        r.push(45);
        let mut i: usize = 0;
        while i < digits.len()
            invariant
                i <= digits@.len(),
                r@ == seq![45u8] + digits@.take(i as int),
            decreases digits@.len() - i,
        {
            r.push(digits[i]);
            proof {
                assert(r@ =~= seq![45u8] + digits@.take(i as int + 1));
            }
            i = i + 1;
        }
        proof {
            assert(digits@.take(digits@.len() as int) =~= digits@);
        }
        r
    }
}

/// Parses the digits of `s` starting at `from` as an unsigned value bounded
/// by `max`; the whole tail must be digits and the value must fit.
fn parse_digits_u128(s: &Vec<u8>, from: usize, max: u128) -> (r: Option<u128>)
    requires
        from <= s@.len(),
        max >= 9,
    ensures
        match r {
            Some(v) => {
                &&& s@.len() > from
                &&& all_digits(s@.skip(from as int))
                &&& digits_val(s@.skip(from as int)) == v as nat
                &&& v <= max
            },
            None => {
                let d = s@.skip(from as int);
                d.len() == 0 || !all_digits(d) || digits_val(d) > max as nat
            },
        },
{
    let ghost d = s@.skip(from as int);
    if s.len() == from {
        return None;
    }
    let mut acc: u128 = 0;
    let mut i: usize = from;
    while i < s.len()
        invariant
            from <= i <= s@.len(),
            max >= 9,
            d == s@.skip(from as int),
            all_digits(d.take(i - from)),
            acc as nat == digits_val(d.take(i - from)),
            acc <= max,
        decreases s@.len() - i,
    {
        let b = s[i];
        if b < 48 || b > 57 {
            proof {
                assert(d[i - from] == s@[i as int]);
            }
            return None;
        }
        let dig = (b - 48) as u128;
        proof {
            lemma_mul10_bound(acc as nat, dig as nat, max as nat);
            lemma_digits_val_extend(d, i - from);
        }
        if acc > (max - dig) / 10 {
            proof {
                lemma_digits_val_prefix_le(d, i - from + 1);
            }
            return None;
        }
        acc = acc * 10 + dig;
        proof {
            assert(d.take(i - from + 1).drop_last() =~= d.take(i - from));
            assert(forall|j: int| 0 <= j < i - from + 1 ==> is_digit(#[trigger] d.take(
                i - from + 1,
            )[j]));
        }
        i = i + 1;
    }
    proof {
        assert(d.take(i - from) =~= d);
    }
    Some(acc)
}

/// Parses an unsigned 64-bit decimal, accepting a leading `+`.
pub fn parse_u64(s: &Vec<u8>) -> (r: Option<u64>)
    ensures
        match r {
            Some(v) => parse_unsigned_spec(s@, u64::MAX as nat) == Some(v as nat),
            None => parse_unsigned_spec(s@, u64::MAX as nat) is None,
        },
{
    let from: usize = if s.len() > 0 && s[0] == 43 {
        1
    } else {
        0
    };
    proof {
        assert(strip_plus(s@) =~= s@.skip(from as int));
    }
    match parse_digits_u128(s, from, u64::MAX as u128) {
        Some(v) => Some(v as u64),
        None => None,
    }
}

/// Parses an unsigned 128-bit decimal, accepting a leading `+`.
pub fn parse_u128(s: &Vec<u8>) -> (r: Option<u128>)
    ensures
        match r {
            Some(v) => parse_unsigned_spec(s@, u128::MAX as nat) == Some(v as nat),
            None => parse_unsigned_spec(s@, u128::MAX as nat) is None,
        },
{
    let from: usize = if s.len() > 0 && s[0] == 43 {
        1
    } else {
        0
    };
    proof {
        assert(strip_plus(s@) =~= s@.skip(from as int));
    }
    parse_digits_u128(s, from, u128::MAX)
}

/// Parses a signed 64-bit decimal, accepting a leading `+` or `-`.
pub fn parse_i64(s: &Vec<u8>) -> (r: Option<i64>)
    ensures
        r == parse_i64_spec(s@),
{
    if s.len() > 0 && s[0] == 45 {
        match parse_digits_u128(s, 1, 0x8000000000000000) {
            Some(v) => {
                proof {
                    assert(s@.drop_first() =~= s@.skip(1));
                }
                if v == 0x8000000000000000 {
                    Some(i64::MIN)
                } else {
                    Some(-((v as u64) as i64))
                }
            },
            None => {
                proof {
                    assert(s@.drop_first() =~= s@.skip(1));
                }
                None
            },
        }
    } else {
        let from: usize = if s.len() > 0 && s[0] == 43 {
            1
        } else {
            0
        };
        proof {
            assert(strip_plus(s@) =~= s@.skip(from as int));
        }
        match parse_digits_u128(s, from, 0x7fffffffffffffff) {
            Some(v) => Some(v as i64),
            None => None,
        }
    }
}

} // verus!
