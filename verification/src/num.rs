//! Decimal numerals as ASCII bytes: rendering and parsing, with exact
//! specifications.  The line protocol writes lengths and integers in
//! decimal, so both directions are needed.

use vstd::prelude::*;

verus! {

/// Whether a byte is an ASCII decimal digit.
pub open spec fn is_dec_digit(b: u8) -> bool {
    48 <= b <= 57
}

/// A nonempty run of ASCII decimal digits.
pub open spec fn all_dec_digits(s: Seq<u8>) -> bool {
    s.len() > 0 && forall|i: int| 0 <= i < s.len() ==> is_dec_digit(#[trigger] s[i])
}

/// The number a digit run denotes, most significant digit first.
pub open spec fn dec_value(s: Seq<u8>) -> int
    decreases s.len(),
{
    if s.len() == 0 {
        0
    } else {
        dec_value(s.drop_last()) * 10 + (s.last() - 48)
    }
}

/// The shortest digit run denoting `n`: no leading zeros except for
/// zero itself.
pub open spec fn dec_digits(n: nat) -> Seq<u8>
    decreases n,
{
    if n < 10 {
        seq![(48 + n) as u8]
    } else {
        dec_digits(n / 10) + seq![(48 + n % 10) as u8]
    }
}

/// A signed numeral: a minus sign ahead of the magnitude's digits.
pub open spec fn dec_int(n: int) -> Seq<u8> {
    if n < 0 {
        seq![45u8] + dec_digits((-n) as nat)
    } else {
        dec_digits(n as nat)
    }
}

/// The reading of an unsigned decimal line: a nonempty digit run whose
/// value fits 32 bits.
pub open spec fn spec_parse_u32(s: Seq<u8>) -> Option<u32> {
    if all_dec_digits(s) && dec_value(s) <= u32::MAX {
        Some(dec_value(s) as u32)
    } else {
        None
    }
}

/// The reading of a signed decimal line: a nonempty digit run with an
/// optional leading minus, whose value fits 64 signed bits.
pub open spec fn spec_parse_i64(s: Seq<u8>) -> Option<i64> {
    if s.len() > 0 && s[0] == 45 {
        let digits = s.skip(1);
        if all_dec_digits(digits) && dec_value(digits) <= 0x8000000000000000 {
            Some((-dec_value(digits)) as i64)
        } else {
            None
        }
    } else {
        if all_dec_digits(s) && dec_value(s) <= i64::MAX {
            Some(dec_value(s) as i64)
        } else {
            None
        }
    }
}

/// Rendering then reading a number gives it back.
pub proof fn lemma_dec_digits_value(n: nat)
    ensures
        all_dec_digits(dec_digits(n)),
        dec_value(dec_digits(n)) == n,
    decreases n,
{
    if n < 10 {
        let d = dec_digits(n);
        assert(d.drop_last() =~= Seq::<u8>::empty());
        assert(d.last() == (48 + n) as u8);
        assert(dec_value(d) == dec_value(d.drop_last()) * 10 + (d.last() - 48));
        assert(dec_value(Seq::<u8>::empty()) == 0);
        assert(dec_value(d) == n);
        assert(is_dec_digit(d[0]));
    } else {
        lemma_dec_digits_value(n / 10);
        let d = dec_digits(n);
        let h = dec_digits(n / 10);
        assert(d.drop_last() =~= h);
        assert(d.last() == (48 + n % 10) as u8);
        assert(d.last() - 48 == n % 10);
        assert(dec_value(d) == dec_value(h) * 10 + (d.last() - 48));
        assert(dec_value(d) == (n / 10) * 10 + n % 10);
        assert(n == (n / 10) * 10 + n % 10) by (nonlinear_arith);
        assert forall|i: int| 0 <= i < d.len() implies is_dec_digit(#[trigger] d[i]) by {
            if i < h.len() {
                assert(d[i] == h[i]);
            }
        }
    }
}

/// A digit run's value is nonnegative and grows (weakly) with every
/// digit appended, so a too-large prefix never recovers.
pub proof fn lemma_dec_value_prefix(s: Seq<u8>, i: int)
    requires
        forall|j: int| 0 <= j < s.len() ==> is_dec_digit(#[trigger] s[j]),
        0 <= i <= s.len(),
    ensures
        dec_value(s) >= dec_value(s.subrange(0, i)) >= 0,
    decreases s.len() - i,
{
    if i == s.len() {
        assert(s.subrange(0, i) =~= s);
        lemma_dec_value_nonneg(s);
    } else {
        lemma_dec_value_prefix(s, i + 1);
        let p = s.subrange(0, i);
        let q = s.subrange(0, i + 1);
        assert(q.drop_last() =~= p);
        lemma_dec_value_nonneg(p);
    }
}

/// A digit run's value is nonnegative.
pub proof fn lemma_dec_value_nonneg(s: Seq<u8>)
    requires
        forall|j: int| 0 <= j < s.len() ==> is_dec_digit(#[trigger] s[j]),
    ensures
        dec_value(s) >= 0,
    decreases s.len(),
{
    if s.len() > 0 {
        assert(forall|j: int| 0 <= j < s.len() - 1 ==> is_dec_digit(#[trigger] s.drop_last()[j]));
        lemma_dec_value_nonneg(s.drop_last());
    }
}

/// Renders `x` in decimal.
pub fn u64_to_dec(x: u64) -> (out: Vec<u8>)
    ensures
        out@ == dec_digits(x as nat),
    decreases x,
{
    if x < 10 {
        let mut out: Vec<u8> = Vec::new();
        out.push(48 + x as u8);
        proof {
            assert(out@ =~= dec_digits(x as nat));
        }
        out
    } else {
        let mut out = u64_to_dec(x / 10);
        out.push(48 + (x % 10) as u8);
        proof {
            assert(out@ =~= dec_digits(x as nat));
        }
        out
    }
}

/// Renders `x` in decimal, minus sign included when negative.
pub fn i64_to_dec(x: i64) -> (out: Vec<u8>)
    ensures
        out@ == dec_int(x as int),
{
    if x >= 0 {
        u64_to_dec(x as u64)
    } else {
        let mag: u64 = if x == i64::MIN {
            9223372036854775808u64
        } else {
            (-x) as u64
        };
        let mut out: Vec<u8> = Vec::new();
        out.push(45);
        let mut d = u64_to_dec(mag);
        out.append(&mut d);
        proof {
            assert(mag as nat == (-(x as int)) as nat);
            assert(out@ =~= dec_int(x as int));
        }
        out
    }
}

/// Reads a digit run from `s[from..to]` as a number, refusing anything
/// that is not all digits or does not fit `bound`.
pub fn dec_to_u64(s: &[u8], from: usize, to: usize, bound: u64) -> (r: Option<u64>)
    requires
        from <= to <= s@.len(),
    ensures
        ({
            let digits = s@.subrange(from as int, to as int);
            match r {
                Some(x) => all_dec_digits(digits) && dec_value(digits) == x && x <= bound,
                None => !(all_dec_digits(digits) && dec_value(digits) <= bound),
            }
        }),
{
    let ghost digits = s@.subrange(from as int, to as int);
    if from == to {
        return None;
    }
    let mut acc: u64 = 0;
    let mut i: usize = from;
    while i < to
        invariant
            from <= i <= to <= s@.len(),
            digits == s@.subrange(from as int, to as int),
            digits.len() > 0,
            forall|j: int| 0 <= j < i - from ==> is_dec_digit(#[trigger] digits[j]),
            acc == dec_value(digits.subrange(0, i - from)),
            acc <= bound,
            bound <= u64::MAX,
        decreases to - i,
    {
        let b = s[i];
        if b < 48 || b > 57 {
            proof {
                assert(!is_dec_digit(digits[i - from]));
            }
            return None;
        }
        if acc > bound / 10 || (acc == bound / 10 && (b - 48) as u64 > bound % 10) {
            // The prefix alone already exceeds the bound, and more
            // digits can only grow the value.
            proof {
                let p = digits.subrange(0, i - from + 1);
                assert(p.drop_last() =~= digits.subrange(0, i - from));
                assert(dec_value(p) == acc * 10 + (b - 48));
                assert(dec_value(p) > bound);
                if all_dec_digits(digits) {
                    lemma_dec_value_prefix(digits, i - from + 1);
                }
            }
            return None;
        }
        acc = acc * 10 + (b - 48) as u64;
        i = i + 1;
        proof {
            let p = digits.subrange(0, i - from);
            assert(p.drop_last() =~= digits.subrange(0, i - from - 1));
            assert(p.last() == b);
        }
    }
    proof {
        assert(digits.subrange(0, to - from) =~= digits);
    }
    Some(acc)
}

} // verus!
