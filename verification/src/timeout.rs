//! How long a blocking pop waits, read from a decimal operand.

use vstd::prelude::*;
use vstd::slice::slice_subrange;

use crate::error::ParseError;
use crate::buf::append;
use crate::num::{is_digit, is_numeral, value, Numeral};

verus! {

/// Nanoseconds in a second.
pub const NANOS_PER_SEC: u32 = 1_000_000_000;

/// The number of fraction digits that count.
pub const FRACTION_DIGITS: usize = 9;

/// The full stop between seconds and their fraction.
pub const POINT: u8 = 0x2e;

/// The signs that may open the operand and its exponent.
pub const PLUS: u8 = 0x2b;

pub const MINUS: u8 = 0x2d;

/// The letters that open an exponent.
pub const EXP_LOWER: u8 = 0x65;

pub const EXP_UPPER: u8 = 0x45;

/// The digit nought.
pub const NOUGHT: u8 = 0x30;

/// A span of time in whole seconds and nanoseconds; zero stands for waiting
/// without end.
#[derive(Clone, Copy, Debug, PartialEq, Eq, Structural)]
pub struct Timeout {
    pub secs: u64,
    pub nanos: u32,
}

/// `10` to the power `k`.
pub open spec fn pow10(k: nat) -> nat
    decreases k,
{
    if k == 0 {
        1
    } else {
        10 * pow10((k - 1) as nat)
    }
}

/// Whether `s` holds digits and nothing else; it may be empty.
pub open spec fn all_digits(s: Seq<u8>) -> bool {
    forall|i: int| 0 <= i < s.len() ==> is_digit(#[trigger] s[i])
}

/// Whether a sign opens `s`.
pub open spec fn signed(s: Seq<u8>) -> bool {
    s.len() > 0 && (s[0] == PLUS || s[0] == MINUS)
}

/// Whether a minus sign opens `s`.
pub open spec fn negative(s: Seq<u8>) -> bool {
    s.len() > 0 && s[0] == MINUS
}

/// What follows the sign of `s`, or all of `s` if no sign opens it.
pub open spec fn unsigned(s: Seq<u8>) -> Seq<u8> {
    if signed(s) {
        s.drop_first()
    } else {
        s
    }
}

/// Where the first letter `e` of `s` at or after `from` stands, in either
/// case; the length of `s` if there is none.
pub open spec fn mark(s: Seq<u8>, from: int) -> int
    decreases s.len() - from,
{
    if from < 0 || from >= s.len() {
        s.len() as int
    } else if s[from] == EXP_LOWER || s[from] == EXP_UPPER {
        from
    } else {
        mark(s, from + 1)
    }
}

/// What stands before the exponent in an operand without sign.
pub open spec fn mantissa_of(body: Seq<u8>) -> Seq<u8> {
    body.take(mark(body, 0))
}

/// Whether an operand without sign has an exponent.
pub open spec fn has_exponent(body: Seq<u8>) -> bool {
    mark(body, 0) < body.len()
}

/// What stands after the letter `e` in an operand without sign.
pub open spec fn exponent_of(body: Seq<u8>) -> Seq<u8> {
    body.skip(mark(body, 0) + 1)
}

/// The number of places by which the exponent of an operand without sign
/// moves the full stop to the right; to the left if it is below zero.
pub open spec fn shift_of(body: Seq<u8>) -> int {
    if !has_exponent(body) {
        0
    } else if negative(exponent_of(body)) {
        -(value(unsigned(exponent_of(body))) as int)
    } else {
        value(unsigned(exponent_of(body))) as int
    }
}

/// `k` noughts.
pub open spec fn noughts(k: nat) -> Seq<u8> {
    Seq::new(k, |i: int| NOUGHT)
}

/// The digits before the full stop once it has moved `shift` places to the
/// right from between `whole` and `fraction`.
pub open spec fn moved_whole(whole: Seq<u8>, fraction: Seq<u8>, shift: int) -> Seq<u8> {
    let all = whole + fraction;
    let place = whole.len() + shift;
    if place >= all.len() {
        all + noughts((place - all.len()) as nat)
    } else if place > 0 {
        all.take(place)
    } else {
        Seq::empty()
    }
}

/// The digits after the full stop once it has moved `shift` places to the
/// right from between `whole` and `fraction`.
pub open spec fn moved_fraction(whole: Seq<u8>, fraction: Seq<u8>, shift: int) -> Seq<u8> {
    let all = whole + fraction;
    let place = whole.len() + shift;
    if place >= all.len() {
        Seq::empty()
    } else if place > 0 {
        all.skip(place)
    } else {
        noughts((-place) as nat) + all
    }
}

/// Where the first full stop of `s` at or after `from` stands; the length of
/// `s` if there is none.
pub open spec fn point(s: Seq<u8>, from: int) -> int
    decreases s.len() - from,
{
    if from < 0 || from >= s.len() {
        s.len() as int
    } else if s[from] == POINT {
        from
    } else {
        point(s, from + 1)
    }
}

/// The digits of the seconds in an operand without sign: what stands before
/// the full stop.
pub open spec fn whole_of(body: Seq<u8>) -> Seq<u8> {
    body.take(point(body, 0))
}

/// The digits of the fraction in an operand without sign: what stands after
/// the full stop, and nothing if there is no full stop.
pub open spec fn fraction_of(body: Seq<u8>) -> Seq<u8> {
    if point(body, 0) < body.len() {
        body.skip(point(body, 0) + 1)
    } else {
        Seq::empty()
    }
}

/// The nanoseconds in the first nine digits of `fraction`.
pub open spec fn counted(fraction: Seq<u8>) -> nat {
    if fraction.len() >= 9 {
        value(fraction.take(9))
    } else {
        value(fraction) * pow10((9 - fraction.len()) as nat)
    }
}

/// The nanoseconds that the fraction digits `fraction` stand for: those in
/// the first nine digits, and one nanosecond where these are nought and the
/// fraction is not, so that no time above zero is taken for zero.
pub open spec fn nanos(fraction: Seq<u8>) -> nat {
    if counted(fraction) == 0 && value(fraction) > 0 {
        1
    } else {
        counted(fraction)
    }
}

/// The time of `whole` seconds and the fraction `fraction` of a second;
/// `InvalidRange` when the seconds do not fit in 64 bits.
pub open spec fn timed(whole: Seq<u8>, fraction: Seq<u8>) -> Result<Timeout, ParseError> {
    if value(whole) > u64::MAX {
        Err(ParseError::InvalidRange)
    } else {
        Ok(Timeout { secs: value(whole) as u64, nanos: nanos(fraction) as u32 })
    }
}

/// Whether an operand without sign has the form of a number: digits, among
/// which one full stop may stand, and after them, if at all, the letter `e`,
/// a sign if any, and one digit or more.
pub open spec fn well_formed(body: Seq<u8>) -> bool {
    &&& all_digits(whole_of(mantissa_of(body)))
    &&& all_digits(fraction_of(mantissa_of(body)))
    &&& whole_of(mantissa_of(body)).len() + fraction_of(mantissa_of(body)).len() > 0
    &&& has_exponent(body) ==> is_numeral(unsigned(exponent_of(body)))
}

/// What the operand `s` says about the time to wait.
///
/// The operand is a number of seconds as a floating-point number is written
/// in decimal: a sign if any; digits, among which one full stop may stand,
/// before, between or after them; and an exponent if any, which is the
/// letter `e`, a sign if any, and digits, and moves the full stop by that many
/// places. It is `InvalidNumber` when it has another form. It is
/// `InvalidRange` when the number is below zero, or when its seconds do not
/// fit in 64 bits. The time is zero only if every digit before the exponent
/// is nought; of a time above zero the first nine places after the full stop
/// count, and it is never less than a nanosecond.
///
/// Left out on purpose, and so `InvalidNumber`: the words for the infinite
/// and for what is no number, which are no times.
pub open spec fn reading(s: Seq<u8>) -> Result<Timeout, ParseError> {
    let body = unsigned(s);
    let whole = whole_of(mantissa_of(body));
    let fraction = fraction_of(mantissa_of(body));
    if !well_formed(body) {
        Err(ParseError::InvalidNumber)
    } else if value(whole) == 0 && value(fraction) == 0 {
        Ok(Timeout { secs: 0, nanos: 0 })
    } else if negative(s) {
        Err(ParseError::InvalidRange)
    } else {
        timed(
            moved_whole(whole, fraction, shift_of(body)),
            moved_fraction(whole, fraction, shift_of(body)),
        )
    }
}

/// A numeral of `k` digits denotes less than `10` to the power `k`.
proof fn lemma_value_bound(s: Seq<u8>)
    requires
        all_digits(s),
    ensures
        value(s) < pow10(s.len()),
    decreases s.len(),
{
    if s.len() > 0 {
        assert(all_digits(s.drop_last())) by {
            assert forall|i: int| 0 <= i < s.drop_last().len() implies is_digit(
                #[trigger] s.drop_last()[i],
            ) by {
                assert(is_digit(s[i]));
            }
        }
        lemma_value_bound(s.drop_last());
    }
}

/// Digits denote at least what any run of their first digits denotes.
proof fn lemma_value_grows(s: Seq<u8>, k: int)
    requires
        all_digits(s),
        0 <= k <= s.len(),
    ensures
        value(s.take(k)) <= value(s),
    decreases s.len() - k,
{
    if k < s.len() {
        lemma_value_grows(s, k + 1);
        assert(s.take(k + 1).drop_last() =~= s.take(k));
        assert(is_digit(s[k]));
    } else {
        assert(s.take(k) =~= s);
    }
}

/// Powers of ten grow with the exponent.
proof fn lemma_pow10_grows(a: nat, b: nat)
    requires
        a <= b,
    ensures
        pow10(a) <= pow10(b),
    decreases b,
{
    if a < b {
        lemma_pow10_grows(a, (b - 1) as nat);
    }
}

/// A number below `10` to the `a`, times `10` to the `b`, is below `10` to the
/// `a + b`.
proof fn lemma_pow10_scale(v: nat, a: nat, b: nat)
    requires
        v < pow10(a),
    ensures
        v * pow10(b) < pow10(a + b),
    decreases b,
{
    if b > 0 {
        lemma_pow10_scale(v, a, (b - 1) as nat);
        assert(v * (10 * pow10((b - 1) as nat)) == 10 * (v * pow10((b - 1) as nat)))
            by (nonlinear_arith);
    } else {
        assert(v * 1 == v);
    }
}

/// The fraction digits stand for less than a second, and for nothing only if
/// they denote nought.
pub proof fn lemma_nanos(fraction: Seq<u8>)
    requires
        all_digits(fraction),
    ensures
        nanos(fraction) < NANOS_PER_SEC,
        nanos(fraction) == 0 <==> value(fraction) == 0,
{
    reveal_with_fuel(pow10, 11);
    assert(pow10(9) == 1_000_000_000);
    if fraction.len() >= 9 {
        lemma_value_grows(fraction, 9);
        assert(all_digits(fraction.take(9))) by {
            assert forall|i: int| 0 <= i < 9 implies is_digit(#[trigger] fraction.take(9)[i]) by {
                assert(is_digit(fraction[i]));
            }
        }
        lemma_value_bound(fraction.take(9));
    } else {
        lemma_value_bound(fraction);
        lemma_pow10_scale(value(fraction), fraction.len(), (9 - fraction.len()) as nat);
        if value(fraction) == 0 {
            assert(0 * pow10((9 - fraction.len()) as nat) == 0);
        }
    }
}

/// Noughts denote nought.
proof fn lemma_noughts(k: nat)
    ensures
        all_digits(noughts(k)),
        value(noughts(k)) == 0,
    decreases k,
{
    if k > 0 {
        lemma_noughts((k - 1) as nat);
        assert(noughts(k).drop_last() =~= noughts((k - 1) as nat));
    }
}

/// Noughts after digits multiply what they denote by ten each.
proof fn lemma_noughts_after(d: Seq<u8>, k: nat)
    ensures
        value(d + noughts(k)) == value(d) * pow10(k),
    decreases k,
{
    if k > 0 {
        lemma_noughts_after(d, (k - 1) as nat);
        assert((d + noughts(k)).drop_last() =~= d + noughts((k - 1) as nat));
        assert(value(d) * (10 * pow10((k - 1) as nat)) == (value(d) * pow10((k - 1) as nat)) * 10)
            by (nonlinear_arith);
    } else {
        assert(d + noughts(0) =~= d);
        assert(value(d) * 1 == value(d));
    }
}

/// Noughts before digits change nothing of what they denote.
proof fn lemma_noughts_before(k: nat, d: Seq<u8>)
    ensures
        value(noughts(k) + d) == value(d),
    decreases d.len(),
{
    if d.len() > 0 {
        lemma_noughts_before(k, d.drop_last());
        assert((noughts(k) + d).drop_last() =~= noughts(k) + d.drop_last());
    } else {
        lemma_noughts(k);
        assert(noughts(k) + d =~= noughts(k));
    }
}

/// Digits among which one is not nought denote more than nought.
proof fn lemma_above_nought(s: Seq<u8>, i: int)
    requires
        all_digits(s),
        0 <= i < s.len(),
        s[i] != NOUGHT,
    ensures
        value(s) > 0,
    decreases s.len(),
{
    assert(is_digit(s[s.len() - 1]));
    if i < s.len() - 1 {
        assert(all_digits(s.drop_last())) by {
            assert forall|j: int| 0 <= j < s.drop_last().len() implies is_digit(
                #[trigger] s.drop_last()[j],
            ) by {
                assert(is_digit(s[j]));
            }
        }
        lemma_above_nought(s.drop_last(), i);
    }
}

/// Digits that denote more than nought are not all nought.
proof fn lemma_not_all_nought(s: Seq<u8>) -> (i: int)
    requires
        all_digits(s),
        value(s) > 0,
    ensures
        0 <= i < s.len(),
        s[i] != NOUGHT,
    decreases s.len(),
{
    if s.last() != NOUGHT {
        s.len() - 1
    } else {
        assert(all_digits(s.drop_last())) by {
            assert forall|j: int| 0 <= j < s.drop_last().len() implies is_digit(
                #[trigger] s.drop_last()[j],
            ) by {
                assert(is_digit(s[j]));
            }
        }
        lemma_not_all_nought(s.drop_last())
    }
}

/// Wherever the full stop moves, digits stay digits, and digits that are not
/// all nought stay so on one side of it or the other.
proof fn lemma_moved(whole: Seq<u8>, fraction: Seq<u8>, shift: int)
    requires
        all_digits(whole),
        all_digits(fraction),
    ensures
        all_digits(moved_whole(whole, fraction, shift)),
        all_digits(moved_fraction(whole, fraction, shift)),
        value(whole) > 0 || value(fraction) > 0 ==> value(moved_whole(whole, fraction, shift)) > 0
            || value(moved_fraction(whole, fraction, shift)) > 0,
{
    let all = whole + fraction;
    let place = whole.len() + shift;
    let w = moved_whole(whole, fraction, shift);
    let f = moved_fraction(whole, fraction, shift);
    assert(all_digits(all)) by {
        assert forall|j: int| 0 <= j < all.len() implies is_digit(#[trigger] all[j]) by {
            if j < whole.len() {
                assert(is_digit(whole[j]));
            } else {
                assert(is_digit(fraction[j - whole.len()]));
            }
        }
    }
    assert(all_digits(w)) by {
        assert forall|j: int| 0 <= j < w.len() implies is_digit(#[trigger] w[j]) by {
            if j < all.len() {
                assert(is_digit(all[j]));
            }
        }
    }
    assert(all_digits(f)) by {
        assert forall|j: int| 0 <= j < f.len() implies is_digit(#[trigger] f[j]) by {
            if place >= all.len() {
            } else if place > 0 {
                assert(is_digit(all[j + place]));
            } else if j >= -place {
                assert(is_digit(all[j + place]));
            }
        }
    }
    if value(whole) > 0 || value(fraction) > 0 {
        let z = if value(whole) > 0 {
            lemma_not_all_nought(whole)
        } else {
            lemma_not_all_nought(fraction) + whole.len()
        };
        assert(all[z] != NOUGHT);
        if place >= all.len() {
            assert(w[z] == all[z]);
            lemma_above_nought(w, z);
        } else if place > 0 {
            if z < place {
                assert(w[z] == all[z]);
                lemma_above_nought(w, z);
            } else {
                assert(f[z - place] == all[z]);
                lemma_above_nought(f, z - place);
            }
        } else {
            assert(f[z - place] == all[z]);
            lemma_above_nought(f, z - place);
        }
    }
}

/// The time read from an operand is zero, which stands for waiting without
/// end, exactly when every digit before its exponent is nought: a time above
/// zero, however short, is never read as zero.
pub proof fn lemma_zero_time(s: Seq<u8>)
    ensures
        reading(s) matches Ok(t) ==> ((t.secs == 0 && t.nanos == 0) <==> (value(
            whole_of(mantissa_of(unsigned(s))),
        ) == 0 && value(fraction_of(mantissa_of(unsigned(s)))) == 0)),
        reading(s) matches Ok(t) ==> t.nanos < NANOS_PER_SEC,
{
    let body = unsigned(s);
    let whole = whole_of(mantissa_of(body));
    let fraction = fraction_of(mantissa_of(body));
    if reading(s) is Ok && !(value(whole) == 0 && value(fraction) == 0) {
        lemma_moved(whole, fraction, shift_of(body));
        lemma_nanos(moved_fraction(whole, fraction, shift_of(body)));
    }
}

/// Where the first full stop of `body` stands.
fn find_point(body: &[u8]) -> (dot: usize)
    ensures
        dot == point(body@, 0),
        dot <= body.len(),
{
    let mut dot: usize = 0;
    while dot < body.len() && body[dot] != POINT
        invariant
            dot <= body.len(),
            point(body@, 0) == point(body@, dot as int),
        decreases body.len() - dot,
    {
        dot += 1;
    }
    dot
}

/// `total` with `pad` noughts after it.
fn scale(total: u32, pad: usize) -> (scaled: u32)
    requires
        pad <= 9,
        total < pow10((9 - pad) as nat),
    ensures
        scaled == total * pow10(pad as nat),
        scaled < NANOS_PER_SEC,
{
    let mut scaled: u32 = total;
    let mut left: usize = pad;
    assert(total * 1 == total);
    while left > 0
        invariant
            left <= pad <= 9,
            total < pow10((9 - pad) as nat),
            scaled == total * pow10((pad - left) as nat),
        decreases left,
    {
        proof {
            lemma_pow10_scale(total as nat, (9 - pad) as nat, (pad - left + 1) as nat);
            lemma_pow10_grows((9 - left + 1) as nat, 9);
            reveal_with_fuel(pow10, 11);
            assert(pow10(9) == 1_000_000_000);
            assert(total * (10 * pow10((pad - left) as nat)) == 10 * (total * pow10(
                (pad - left) as nat,
            ))) by (nonlinear_arith);
        }
        scaled = scaled * 10;
        left -= 1;
    }
    proof {
        lemma_pow10_scale(total as nat, (9 - pad) as nat, pad as nat);
        reveal_with_fuel(pow10, 11);
        assert(pow10(9) == 1_000_000_000);
    }
    scaled
}

/// The nanoseconds that the fraction digits stand for; nothing if a byte
/// among them is no digit.
fn read_fraction(fraction: &[u8]) -> (read: Option<u32>)
    ensures
        match read {
            Some(n) => all_digits(fraction@) && n == nanos(fraction@) && n < NANOS_PER_SEC,
            None => !all_digits(fraction@),
        },
{
    let mut total: u32 = 0;
    let mut some = false;
    let mut i: usize = 0;
    assert(fraction@.take(0) =~= Seq::<u8>::empty());
    while i < fraction.len()
        invariant
            i <= fraction.len(),
            forall|j: int| 0 <= j < i ==> is_digit(#[trigger] fraction@[j]),
            i <= 9 ==> total == value(fraction@.take(i as int)),
            i > 9 ==> total == value(fraction@.take(9)),
            total < pow10(if i <= 9 { i as nat } else { 9 }),
            some == (value(fraction@.take(i as int)) > 0),
        decreases fraction.len() - i,
    {
        let b = fraction[i];
        if b < 0x30 || b > 0x39 {
            return None;
        }
        proof {
            assert(fraction@.take(i + 1).drop_last() =~= fraction@.take(i as int));
            assert(fraction@.take(i + 1).last() == b);
        }
        if b != 0x30 {
            some = true;
        }
        if i < FRACTION_DIGITS {
            proof {
                reveal_with_fuel(pow10, 11);
                assert(pow10(9) == 1_000_000_000);
                lemma_pow10_grows((i + 1) as nat, 9);
            }
            total = total * 10 + (b - 0x30) as u32;
        }
        i += 1;
    }
    proof {
        assert(fraction@.take(fraction.len() as int) =~= fraction@);
    }
    let counted = if fraction.len() < FRACTION_DIGITS {
        scale(total, FRACTION_DIGITS - fraction.len())
    } else {
        total
    };
    proof {
        lemma_nanos(fraction@);
    }
    if counted == 0 && some {
        Some(1)
    } else {
        Some(counted)
    }
}

/// Where the first letter `e` of `body` stands.
fn find_mark(body: &[u8]) -> (at: usize)
    ensures
        at == mark(body@, 0),
        at <= body.len(),
{
    let mut at: usize = 0;
    while at < body.len() && body[at] != EXP_LOWER && body[at] != EXP_UPPER
        invariant
            at <= body.len(),
            mark(body@, 0) == mark(body@, at as int),
        decreases body.len() - at,
    {
        at += 1;
    }
    at
}

/// Whether `d` holds digits only and, if so, whether they denote more than
/// nought.
fn scan(d: &[u8]) -> (seen: Option<bool>)
    ensures
        match seen {
            Some(above) => all_digits(d@) && above == (value(d@) > 0),
            None => !all_digits(d@),
        },
{
    let mut above = false;
    let mut i: usize = 0;
    assert(d@.take(0) =~= Seq::<u8>::empty());
    while i < d.len()
        invariant
            i <= d.len(),
            forall|j: int| 0 <= j < i ==> is_digit(#[trigger] d@[j]),
            above == (value(d@.take(i as int)) > 0),
        decreases d.len() - i,
    {
        let b = d[i];
        if b < 0x30 || b > 0x39 {
            return None;
        }
        proof {
            assert(d@.take(i + 1).drop_last() =~= d@.take(i as int));
            assert(d@.take(i + 1).last() == b);
        }
        if b != NOUGHT {
            above = true;
        }
        i += 1;
    }
    assert(d@.take(d.len() as int) =~= d@);
    Some(above)
}

/// `before` noughts, then `a`, then `b`, then `after` noughts.
fn join(before: usize, a: &[u8], b: &[u8], after: usize) -> (all: Vec<u8>)
    ensures
        all@ == noughts(before as nat) + a@ + b@ + noughts(after as nat),
{
    let mut all: Vec<u8> = Vec::new();
    let mut i: usize = 0;
    while i < before
        invariant
            i <= before,
            all@ == noughts(i as nat),
        decreases before - i,
    {
        all.push(NOUGHT);
        i += 1;
        assert(all@ =~= noughts(i as nat));
    }
    append(&mut all, a);
    append(&mut all, b);
    let ghost front = all@;
    let mut j: usize = 0;
    assert(front + noughts(0) =~= front);
    while j < after
        invariant
            j <= after,
            all@ == front + noughts(j as nat),
        decreases after - j,
    {
        all.push(NOUGHT);
        j += 1;
        assert(all@ =~= front + noughts(j as nat));
    }
    all
}

/// The time of the seconds `whole` and the fraction `fraction`.
fn settle(whole: &[u8], fraction: &[u8]) -> (time: Result<Timeout, ParseError>)
    requires
        all_digits(whole@),
        all_digits(fraction@),
    ensures
        time == timed(whole@, fraction@),
        time matches Ok(t) ==> t.nanos < NANOS_PER_SEC,
{
    let nanos = match read_fraction(fraction) {
        Some(nanos) => nanos,
        None => 0,
    };
    if whole.len() == 0 {
        return Ok(Timeout { secs: 0, nanos });
    }
    match crate::num::parse(whole) {
        Numeral::Value(secs) => Ok(Timeout { secs, nanos }),
        _ => Err(ParseError::InvalidRange),
    }
}

/// Digits that denote more than 64 bits hold are twenty at least.
proof fn lemma_long(by: Seq<u8>)
    requires
        all_digits(by),
        value(by) > u64::MAX,
    ensures
        by.len() >= 20,
{
    lemma_value_bound(by);
    if by.len() < 20 {
        lemma_pow10_grows(by.len(), 19);
        reveal_with_fuel(pow10, 20);
        assert(pow10(19) == 10_000_000_000_000_000_000);
    }
}

/// The time of a number above nought whose exponent `by` moves the full stop
/// to the right.
fn raised(whole: &[u8], fraction: &[u8], by: &[u8]) -> (time: Result<Timeout, ParseError>)
    requires
        all_digits(whole@),
        all_digits(fraction@),
        is_numeral(by@),
        value(whole@) > 0 || value(fraction@) > 0,
        whole.len() + fraction.len() + by.len() <= usize::MAX,
    ensures
        time == timed(
            moved_whole(whole@, fraction@, value(by@) as int),
            moved_fraction(whole@, fraction@, value(by@) as int),
        ),
        time matches Ok(t) ==> t.nanos < NANOS_PER_SEC,
{
    let ghost shift = value(by@) as int;
    let ghost joined = whole@ + fraction@;
    proof {
        lemma_moved(whole@, fraction@, shift);
        lemma_moved(whole@, fraction@, fraction@.len() as int);
        lemma_noughts_after(joined, 0);
        assert(value(joined) > 0) by {
            assert(value(Seq::<u8>::empty()) == 0);
        }
    }
    let places = crate::num::parse(by);
    match places {
        Numeral::Value(v) => {
            if v <= fraction.len() as u64 {
                let all = join(0, whole, fraction, 0);
                let place = whole.len() + v as usize;
                let w = slice_subrange(all.as_slice(), 0, place);
                let f = slice_subrange(all.as_slice(), place, all.len());
                proof {
                    assert(all@ =~= joined);
                    assert(w@ =~= moved_whole(whole@, fraction@, shift));
                    assert(f@ =~= moved_fraction(whole@, fraction@, shift));
                }
                return settle(w, f);
            }
            let more = v - fraction.len() as u64;
            if more <= 20 {
                let w = join(0, whole, fraction, more as usize);
                let f = slice_subrange(w.as_slice(), 0, 0);
                proof {
                    assert(w@ =~= moved_whole(whole@, fraction@, shift));
                    assert(f@ =~= moved_fraction(whole@, fraction@, shift));
                }
                return settle(w.as_slice(), f);
            }
        },
        _ => {
            proof {
                lemma_long(by@);
            }
        },
    }
    proof {
        let more = (shift - fraction@.len()) as nat;
        assert(more > 20);
        assert(moved_whole(whole@, fraction@, shift) == joined + noughts(more));
        lemma_noughts_after(joined, more);
        lemma_pow10_grows(21, more);
        reveal_with_fuel(pow10, 22);
        assert(pow10(21) == 1_000_000_000_000_000_000_000);
        assert(value(joined) * pow10(more) >= pow10(more)) by (nonlinear_arith)
            requires
                value(joined) >= 1,
        ;
    }
    Err(ParseError::InvalidRange)
}

/// The time of a number above nought whose exponent `by` moves the full stop
/// to the left.
fn lowered(whole: &[u8], fraction: &[u8], by: &[u8]) -> (time: Result<Timeout, ParseError>)
    requires
        all_digits(whole@),
        all_digits(fraction@),
        is_numeral(by@),
        value(whole@) > 0 || value(fraction@) > 0,
        whole.len() + fraction.len() + by.len() <= usize::MAX,
    ensures
        time == timed(
            moved_whole(whole@, fraction@, -(value(by@) as int)),
            moved_fraction(whole@, fraction@, -(value(by@) as int)),
        ),
        time matches Ok(t) ==> t.nanos < NANOS_PER_SEC,
{
    let ghost shift = -(value(by@) as int);
    let ghost joined = whole@ + fraction@;
    proof {
        lemma_moved(whole@, fraction@, shift);
        lemma_moved(whole@, fraction@, fraction@.len() as int);
        lemma_noughts_after(joined, 0);
        assert(value(joined) > 0) by {
            assert(value(Seq::<u8>::empty()) == 0);
        }
        assert(joined.len() > 0);
    }
    let places = crate::num::parse(by);
    match places {
        Numeral::Value(v) => {
            if v < whole.len() as u64 {
                let all = join(0, whole, fraction, 0);
                let place = whole.len() - v as usize;
                let w = slice_subrange(all.as_slice(), 0, place);
                let f = slice_subrange(all.as_slice(), place, all.len());
                proof {
                    assert(all@ =~= joined);
                    assert(w@ =~= moved_whole(whole@, fraction@, shift));
                    assert(f@ =~= moved_fraction(whole@, fraction@, shift));
                }
                return settle(w, f);
            }
            let more = v - whole.len() as u64;
            if more < 9 {
                let f = join(more as usize, whole, fraction, 0);
                let w = slice_subrange(f.as_slice(), 0, 0);
                proof {
                    assert(f@ =~= moved_fraction(whole@, fraction@, shift));
                    assert(w@ =~= moved_whole(whole@, fraction@, shift));
                }
                return settle(w, f.as_slice());
            }
        },
        _ => {
            proof {
                lemma_long(by@);
            }
        },
    }
    proof {
        let more = (-shift - whole@.len()) as nat;
        assert(more >= 9);
        let f = moved_fraction(whole@, fraction@, shift);
        assert(f == noughts(more) + joined);
        assert(moved_whole(whole@, fraction@, shift) =~= Seq::<u8>::empty());
        lemma_noughts_before(more, joined);
        lemma_noughts(9);
        assert(f.take(9) =~= noughts(9));
    }
    Ok(Timeout { secs: 0, nanos: 1 })
}

/// Whether a minus sign opens `s`, and what follows the sign of `s`.
fn unsign(s: &[u8]) -> (parts: (bool, &[u8]))
    ensures
        parts.0 == negative(s@),
        parts.1@ == unsigned(s@),
        parts.1.len() <= s.len(),
{
    let below = s.len() > 0 && s[0] == MINUS;
    if s.len() > 0 && (s[0] == PLUS || s[0] == MINUS) {
        let rest = slice_subrange(s, 1, s.len());
        assert(rest@ =~= unsigned(s@));
        (below, rest)
    } else {
        (below, s)
    }
}

/// The digits before and after the full stop of `mantissa`.
fn halves(mantissa: &[u8]) -> (parts: (&[u8], &[u8]))
    ensures
        parts.0@ == whole_of(mantissa@),
        parts.1@ == fraction_of(mantissa@),
        parts.0.len() + parts.1.len() <= mantissa.len(),
{
    let dot = find_point(mantissa);
    let whole = slice_subrange(mantissa, 0, dot);
    let fraction = if dot < mantissa.len() {
        slice_subrange(mantissa, dot + 1, mantissa.len())
    } else {
        slice_subrange(mantissa, dot, dot)
    };
    proof {
        assert(whole@ =~= whole_of(mantissa@));
        assert(fraction@ =~= fraction_of(mantissa@));
    }
    (whole, fraction)
}

/// Whether the two halves of a mantissa are digits, one of them at least,
/// and, if so, whether they denote more than nought.
fn weigh(whole: &[u8], fraction: &[u8]) -> (seen: Option<bool>)
    ensures
        match seen {
            Some(above) => {
                &&& all_digits(whole@)
                &&& all_digits(fraction@)
                &&& whole@.len() + fraction@.len() > 0
                &&& above == (value(whole@) > 0 || value(fraction@) > 0)
            },
            None => !all_digits(whole@) || !all_digits(fraction@) || whole@.len()
                + fraction@.len() == 0,
        },
{
    if whole.len() == 0 && fraction.len() == 0 {
        return None;
    }
    match scan(whole) {
        Some(first) => match scan(fraction) {
            Some(second) => Some(first || second),
            None => None,
        },
        None => None,
    }
}

/// The time of a number without exponent.
fn unmoved(whole: &[u8], fraction: &[u8]) -> (time: Result<Timeout, ParseError>)
    requires
        all_digits(whole@),
        all_digits(fraction@),
    ensures
        time == timed(moved_whole(whole@, fraction@, 0), moved_fraction(whole@, fraction@, 0)),
        time matches Ok(t) ==> t.nanos < NANOS_PER_SEC,
{
    proof {
        let all = whole@ + fraction@;
        assert(moved_whole(whole@, fraction@, 0) =~= whole@);
        assert(moved_fraction(whole@, fraction@, 0) =~= fraction@) by {
            assert(noughts(0) + all =~= all);
        }
    }
    settle(whole, fraction)
}

/// The time of a number above nought and not below it, with the exponent
/// `exponent` if it has one.
fn moved(whole: &[u8], fraction: &[u8], exponent: Option<(bool, &[u8])>) -> (time: Result<
    Timeout,
    ParseError,
>)
    requires
        all_digits(whole@),
        all_digits(fraction@),
        value(whole@) > 0 || value(fraction@) > 0,
        exponent matches Some(e) ==> is_numeral(e.1@) && whole.len() + fraction.len() + e.1.len()
            <= usize::MAX,
    ensures
        time == timed(
            moved_whole(
                whole@,
                fraction@,
                match exponent {
                    None => 0,
                    Some(e) => if e.0 {
                        -(value(e.1@) as int)
                    } else {
                        value(e.1@) as int
                    },
                },
            ),
            moved_fraction(
                whole@,
                fraction@,
                match exponent {
                    None => 0,
                    Some(e) => if e.0 {
                        -(value(e.1@) as int)
                    } else {
                        value(e.1@) as int
                    },
                },
            ),
        ),
        time matches Ok(t) ==> t.nanos < NANOS_PER_SEC,
{
    match exponent {
        None => unmoved(whole, fraction),
        Some((down, by)) => if down {
            lowered(whole, fraction, by)
        } else {
            raised(whole, fraction, by)
        },
    }
}

/// The exponent that follows the letter `e` at `at` in `body`, if there is
/// one: whether it is below zero, and its digits. `Err` when what follows the
/// letter is no exponent.
fn exponent_at(body: &[u8], at: usize) -> (read: Result<Option<(bool, &[u8])>, ParseError>)
    requires
        at == mark(body@, 0),
        at <= body.len(),
    ensures
        match read {
            Ok(None) => !has_exponent(body@),
            Ok(Some(e)) => {
                &&& has_exponent(body@)
                &&& e.0 == negative(exponent_of(body@))
                &&& e.1@ == unsigned(exponent_of(body@))
                &&& is_numeral(e.1@)
                &&& at + e.1.len() < body.len()
            },
            Err(e) => {
                &&& e == ParseError::InvalidNumber
                &&& has_exponent(body@)
                &&& !is_numeral(unsigned(exponent_of(body@)))
            },
        },
{
    if at == body.len() {
        return Ok(None);
    }
    let exponent = slice_subrange(body, at + 1, body.len());
    assert(exponent@ =~= exponent_of(body@));
    let (down, by) = unsign(exponent);
    if by.len() == 0 || scan(by).is_none() {
        return Err(ParseError::InvalidNumber);
    }
    Ok(Some((down, by)))
}

impl Timeout {
    /// Whether the wait has no end.
    pub fn is_zero(&self) -> (zero: bool)
        ensures
            zero == (self.secs == 0 && self.nanos == 0),
    {
        self.secs == 0 && self.nanos == 0
    }

    /// Reads the operand `s`.
    pub fn parse(s: &[u8]) -> (timeout: Result<Timeout, ParseError>)
        ensures
            timeout == reading(s@),
            timeout matches Ok(t) ==> t.nanos < NANOS_PER_SEC,
    {
        let (below, body) = unsign(s);
        let at = find_mark(body);
        let mantissa = slice_subrange(body, 0, at);
        assert(mantissa@ =~= mantissa_of(body@));
        let (whole, fraction) = halves(mantissa);
        let above = match weigh(whole, fraction) {
            Some(above) => above,
            None => {
                return Err(ParseError::InvalidNumber);
            },
        };
        let exponent = match exponent_at(body, at) {
            Ok(exponent) => exponent,
            Err(e) => {
                return Err(e);
            },
        };
        if !above {
            Ok(Timeout { secs: 0, nanos: 0 })
        } else if below {
            Err(ParseError::InvalidRange)
        } else {
            moved(whole, fraction, exponent)
        }
    }
}

} // verus!
