//! Unsigned decimal numerals, as they stand on the wire and in operands.

use vstd::prelude::*;

verus! {

/// The outcome of reading a run of bytes as an unsigned decimal numeral.
#[derive(Clone, Copy, Debug, PartialEq, Eq, Structural)]
pub enum Numeral {
    /// A numeral that fits in 64 bits.
    Value(u64),
    /// A numeral whose value does not fit in 64 bits.
    TooLarge,
    /// Not a numeral: no bytes at all, or a byte that is no digit.
    Malformed,
}

/// Whether `b` is one of the characters `0` to `9`.
pub open spec fn is_digit(b: u8) -> bool {
    0x30 <= b <= 0x39
}

/// Whether `s` is a numeral: one digit or more, and nothing else.
pub open spec fn is_numeral(s: Seq<u8>) -> bool {
    s.len() > 0 && forall|i: int| 0 <= i < s.len() ==> is_digit(#[trigger] s[i])
}

/// The number that the digits `s` denote, the first digit weighing most.
pub open spec fn value(s: Seq<u8>) -> nat
    decreases s.len(),
{
    if s.len() == 0 {
        0
    } else {
        value(s.drop_last()) * 10 + (s.last() - 0x30) as nat
    }
}

/// The numeral of `n`, without leading zeros.
pub open spec fn digits(n: nat) -> Seq<u8>
    decreases n,
{
    if n < 10 {
        seq![(0x30 + n) as u8]
    } else {
        digits(n / 10).push((0x30 + n % 10) as u8)
    }
}

/// What reading `s` as a numeral gives.
pub open spec fn read(s: Seq<u8>) -> Numeral {
    if !is_numeral(s) {
        Numeral::Malformed
    } else if value(s) > u64::MAX {
        Numeral::TooLarge
    } else {
        Numeral::Value(value(s) as u64)
    }
}

/// The numeral of a number is a numeral, and it denotes that number.
pub proof fn lemma_digits_value(n: nat)
    ensures
        is_numeral(digits(n)),
        value(digits(n)) == n,
    decreases n,
{
    if n < 10 {
        let s = digits(n);
        assert(s.drop_last() =~= Seq::<u8>::empty());
        assert(value(s.drop_last()) == 0);
    } else {
        lemma_digits_value(n / 10);
        let s = digits(n);
        assert(s.drop_last() =~= digits(n / 10));
    }
}

/// Reads the whole of `s` as a numeral.
pub fn parse(s: &[u8]) -> (numeral: Numeral)
    ensures
        numeral == read(s@),
{
    if s.len() == 0 {
        return Numeral::Malformed;
    }
    let mut total: u64 = 0;
    let mut fits = true;
    let mut i: usize = 0;
    assert(s@.take(0) =~= Seq::<u8>::empty());
    while i < s.len()
        invariant
            i <= s.len(),
            forall|j: int| 0 <= j < i ==> is_digit(#[trigger] s@[j]),
            fits ==> total == value(s@.take(i as int)),
            !fits ==> value(s@.take(i as int)) > u64::MAX,
        decreases s.len() - i,
    {
        let b = s[i];
        if b < 0x30 || b > 0x39 {
            return Numeral::Malformed;
        }
        let digit: u64 = (b - 0x30) as u64;
        proof {
            assert(s@.take(i + 1).drop_last() =~= s@.take(i as int));
            assert(s@.take(i + 1).last() == b);
        }
        if fits {
            if total > (u64::MAX - digit) / 10 {
                fits = false;
            } else {
                total = total * 10 + digit;
            }
        }
        i += 1;
    }
    proof {
        assert(s@.take(s.len() as int) =~= s@);
    }
    if fits {
        Numeral::Value(total)
    } else {
        Numeral::TooLarge
    }
}

/// Appends the numeral of `n` to `out`.
pub fn write(n: u64, out: &mut Vec<u8>)
    ensures
        final(out)@ == old(out)@ + digits(n as nat),
{
    let mut reversed: Vec<u8> = Vec::new();
    let mut rest: u64 = n;
    while rest >= 10
        invariant
            digits(n as nat) == digits(rest as nat) + reversed@.reverse(),
        decreases rest,
    {
        let low: u8 = (rest % 10) as u8;
        proof {
            let now = reversed@;
            assert(digits(rest as nat) == digits(rest as nat / 10).push((0x30 + rest % 10) as u8));
            assert(now.push((0x30 + low) as u8).reverse() =~= seq![(0x30 + low) as u8]
                + now.reverse());
            assert(digits(rest as nat / 10).push((0x30 + low) as u8) + now.reverse() =~= digits(
                rest as nat / 10,
            ) + (seq![(0x30 + low) as u8] + now.reverse()));
        }
        reversed.push(0x30 + low);
        rest = rest / 10;
    }
    out.push(0x30 + rest as u8);
    assert(digits(rest as nat) =~= seq![(0x30 + rest) as u8]);
    let ghost start = out@;
    let mut k: usize = reversed.len();
    while k > 0
        invariant
            k <= reversed.len(),
            out@ == start + reversed@.reverse().take(reversed.len() - k),
        decreases k,
    {
        k -= 1;
        proof {
            let r = reversed@.reverse();
            let m = reversed.len() - k;
            assert(r.take(m as int) =~= r.take(m - 1).push(reversed@[k as int]));
        }
        out.push(reversed[k]);
    }
    proof {
        let r = reversed@.reverse();
        assert(r.take(reversed.len() as int) =~= r);
        assert(old(out)@ + digits(n as nat) =~= start + r);
    }
}

} // verus!
