//! Exact decimal fractions, as they are written in a configuration.

use vstd::prelude::*;
use vstd::slice::slice_subrange;

verus! {

/// A fraction, `numerator / denominator`, negated where `negative` is set.
#[derive(Debug, Copy, Clone, PartialEq, Eq, Structural)]
pub struct Fraction {
    pub negative: bool,
    pub numerator: u32,
    pub denominator: u32,
}

/// Most digits behind the point that a fraction can hold.
pub const MAX_PLACES: usize = 9;

/// Whether `byte` is an ASCII digit.
pub open spec fn is_digit(byte: u8) -> bool {
    48 <= byte <= 57
}

/// Every byte of `text` is an ASCII digit.
pub open spec fn all_digits(text: Seq<u8>) -> bool {
    forall|i: int| 0 <= i < text.len() ==> is_digit(#[trigger] text[i])
}

/// The number that the decimal digits `text` spell.
pub open spec fn digits_value(text: Seq<u8>) -> nat
    decreases text.len(),
{
    if text.len() == 0 {
        0
    } else {
        digits_value(text.drop_last()) * 10 + (text.last() - 48) as nat
    }
}

/// Ten to the power `k`.
pub open spec fn pow10(k: nat) -> nat
    decreases k,
{
    if k == 0 {
        1
    } else {
        10 * pow10((k - 1) as nat)
    }
}

/// Position of the first `byte` in `text`, or the length of `text` where
/// there is none.
pub open spec fn position_of(text: Seq<u8>, byte: u8) -> int
    decreases text.len(),
{
    if text.len() == 0 {
        0
    } else if text[0] == byte {
        0
    } else {
        1 + position_of(text.subrange(1, text.len() as int), byte)
    }
}

/// The digits of a mantissa before its point.
pub open spec fn whole_part(text: Seq<u8>) -> Seq<u8> {
    text.subrange(0, position_of(text, 46))
}

/// The digits of a mantissa behind its point; none where it has no point.
pub open spec fn fraction_part(text: Seq<u8>) -> Seq<u8> {
    if position_of(text, 46) < text.len() {
        text.subrange(position_of(text, 46) + 1, text.len() as int)
    } else {
        Seq::empty()
    }
}

/// Whether `text` begins with a minus sign.
pub open spec fn is_negative(text: Seq<u8>) -> bool {
    text.len() > 0 && text[0] == 45
}

/// `text` without the sign that it may begin with.
pub open spec fn unsigned_part(text: Seq<u8>) -> Seq<u8> {
    if text.len() > 0 && (text[0] == 45 || text[0] == 43) {
        text.subrange(1, text.len() as int)
    } else {
        text
    }
}

/// Position of the first `e` or `E` in `body`, or its length.
pub open spec fn exponent_at(body: Seq<u8>) -> int {
    if position_of(body, 101) <= position_of(body, 69) {
        position_of(body, 101)
    } else {
        position_of(body, 69)
    }
}

/// The mantissa of a decimal: what stands between the sign and the exponent
/// mark.
pub open spec fn mantissa_part(text: Seq<u8>) -> Seq<u8> {
    unsigned_part(text).subrange(0, exponent_at(unsigned_part(text)))
}

/// The exponent of a decimal: what stands behind the first `e` or `E`; none
/// where there is no such mark.
pub open spec fn exponent_part(text: Seq<u8>) -> Option<Seq<u8>> {
    let body = unsigned_part(text);
    if exponent_at(body) < body.len() {
        Some(body.subrange(exponent_at(body) + 1, body.len() as int))
    } else {
        None
    }
}

/// All digits of the mantissa, those before the point and those behind it.
pub open spec fn mantissa_digits(text: Seq<u8>) -> Seq<u8> {
    whole_part(mantissa_part(text)) + fraction_part(mantissa_part(text))
}

/// Whether `text` is an exponent: digits, at least one, with or without a
/// sign before them, that spell a number of at most `u32::MAX`.
pub open spec fn is_exponent(text: Seq<u8>) -> bool {
    &&& unsigned_part(text).len() >= 1
    &&& all_digits(unsigned_part(text))
    &&& digits_value(unsigned_part(text)) <= u32::MAX
}

/// The power of ten that a decimal is multiplied by: what its exponent
/// spells, or zero where it has none.
pub open spec fn exponent_value(exponent: Option<Seq<u8>>) -> int {
    match exponent {
        None => 0,
        Some(text) => if is_negative(text) {
            -(digits_value(unsigned_part(text)) as int)
        } else {
            digits_value(unsigned_part(text)) as int
        },
    }
}

/// Whether `text` is written as a decimal: optionally a sign; then digits,
/// optionally a point and more digits, at least one digit in all; then
/// optionally `e` or `E` and an exponent.
pub open spec fn well_written(text: Seq<u8>) -> bool {
    &&& all_digits(whole_part(mantissa_part(text)))
    &&& all_digits(fraction_part(mantissa_part(text)))
    &&& mantissa_digits(text).len() >= 1
    &&& exponent_part(text).is_some() ==> is_exponent(exponent_part(text).unwrap())
}

/// The power of ten by which the mantissa's digits, read as one whole
/// number, are to be multiplied: the exponent less the digits behind the
/// point.
pub open spec fn net_exponent(text: Seq<u8>) -> int {
    exponent_value(exponent_part(text)) - fraction_part(mantissa_part(text)).len()
}

/// `digits` without zeros at its end, as far as there are `q` powers of ten
/// to divide by; with it the powers of ten that are left.
pub open spec fn trim(digits: Seq<u8>, q: int) -> (Seq<u8>, int)
    decreases digits.len(),
{
    if q > 0 && digits.len() > 0 && digits.last() == 48 {
        trim(digits.drop_last(), q - 1)
    } else {
        (digits, q)
    }
}

/// Numerator and denominator of the number `digits · 10^net`, where a
/// [`Fraction`] can hold it: zero is `0 / 1`; a whole number stands over 1;
/// and a number with places behind the point stands over the least power of
/// ten that serves, which is at most the ninth.
pub open spec fn magnitude_of(digits: Seq<u8>, net: int) -> Option<(nat, nat)> {
    if digits_value(digits) == 0 {
        Some((0, 1))
    } else if net >= 0 {
        if digits_value(digits) * pow10(net as nat) <= u32::MAX {
            Some((digits_value(digits) * pow10(net as nat), 1))
        } else {
            None
        }
    } else {
        let trimmed = trim(digits, -net);
        if trimmed.1 <= MAX_PLACES && digits_value(trimmed.0) <= u32::MAX {
            Some((digits_value(trimmed.0), pow10(trimmed.1 as nat)))
        } else {
            None
        }
    }
}

/// The fraction that the decimal `text` spells, where it is written as a
/// decimal and a [`Fraction`] can hold its value exactly.
pub open spec fn decimal_of(text: Seq<u8>) -> Option<Fraction> {
    if well_written(text) {
        match magnitude_of(mantissa_digits(text), net_exponent(text)) {
            Some(parts) => Some(
                Fraction {
                    negative: is_negative(text),
                    numerator: parts.0 as u32,
                    denominator: parts.1 as u32,
                },
            ),
            None => None,
        }
    } else {
        None
    }
}

/// Whether `text` is a decimal that a [`Fraction`] can hold.
pub open spec fn is_decimal(text: Seq<u8>) -> bool {
    decimal_of(text).is_some()
}

/// The fraction that the decimal `text` spells.
pub open spec fn decimal_value(text: Seq<u8>) -> Fraction {
    decimal_of(text).unwrap()
}

impl Fraction {
    /// The fraction has a value.
    pub open spec fn wf(&self) -> bool {
        self.denominator > 0
    }

    /// The fraction `numerator / denominator`.
    pub fn new(numerator: u32, denominator: u32) -> (fraction: Fraction)
        ensures
            fraction == (Fraction { negative: false, numerator, denominator }),
    {
        Fraction { negative: false, numerator, denominator }
    }

    /// The fraction `-numerator / denominator`.
    pub fn below_zero(numerator: u32, denominator: u32) -> (fraction: Fraction)
        ensures
            fraction == (Fraction { negative: true, numerator, denominator }),
    {
        Fraction { negative: true, numerator, denominator }
    }
}

/// Where the first `at` bytes of `text` are not `byte` and the next one, if
/// there is one, is, the first `byte` stands at `at`.
pub proof fn lemma_position_of(text: Seq<u8>, byte: u8, at: int)
    requires
        0 <= at <= text.len(),
        forall|j: int| 0 <= j < at ==> text[j] != byte,
        at < text.len() ==> text[at] == byte,
    ensures
        position_of(text, byte) == at,
    decreases at,
{
    if at > 0 {
        let rest = text.subrange(1, text.len() as int);
        assert forall|j: int| 0 <= j < at - 1 implies rest[j] != byte by {
            assert(rest[j] == text[j + 1]);
        }
        lemma_position_of(rest, byte, at - 1);
    }
}

/// Digits that follow never make the number smaller.
pub proof fn lemma_digits_grow(head: Seq<u8>, tail: Seq<u8>)
    requires
        all_digits(tail),
    ensures
        digits_value(head + tail) >= digits_value(head),
    decreases tail.len(),
{
    if tail.len() == 0 {
        assert(head + tail =~= head);
    } else {
        assert((head + tail).drop_last() =~= head + tail.drop_last());
        assert((head + tail).last() == tail.last());
        assert(is_digit(tail[tail.len() - 1]));
        lemma_digits_grow(head, tail.drop_last());
    }
}

/// The powers of ten up to the ninth.
pub proof fn lemma_pow10(k: nat)
    ensures
        pow10(0) == 1,
        pow10(k + 1) == 10 * pow10(k),
        k <= 9 ==> 1 <= pow10(k) <= 1_000_000_000,
        k < 9 ==> pow10(k) <= 100_000_000,
{
    reveal_with_fuel(pow10, 11);
    if k <= 9 {
        assert(pow10(9) == 1_000_000_000);
        if k == 0 {
        } else if k == 1 {
        } else if k == 2 {
        } else if k == 3 {
        } else if k == 4 {
        } else if k == 5 {
        } else if k == 6 {
        } else if k == 7 {
        } else if k == 8 {
        } else {
        }
    }
}

/// Reads the digits `text[from..to]` behind the number `start`, which the
/// digits `before` spell. Returns `None` where a byte is no digit or the
/// number grows above `u32::MAX`.
pub(crate) fn read_digits(
    text: &[u8],
    from: usize,
    to: usize,
    start: u64,
    Ghost(before): Ghost<Seq<u8>>,
) -> (read: Option<u64>)
    requires
        from <= to <= text.len(),
        start == digits_value(before),
        start <= u32::MAX,
    ensures
        match read {
            Some(value) => all_digits(text@.subrange(from as int, to as int)) && value
                == digits_value(before + text@.subrange(from as int, to as int)) && value
                <= u32::MAX,
            None => !all_digits(text@.subrange(from as int, to as int)) || forall|tail: Seq<u8>|
                all_digits(tail) ==> digits_value(
                    #[trigger] (before + text@.subrange(from as int, to as int) + tail),
                ) > u32::MAX,
        },
{
    let ghost part = text@.subrange(from as int, to as int);
    let mut value: u64 = start;
    let mut i: usize = from;
    proof {
        assert(before + part.take(0) =~= before);
    }
    while i < to
        invariant
            from <= i <= to <= text.len(),
            part == text@.subrange(from as int, to as int),
            all_digits(part.take(i - from)),
            value == digits_value(before + part.take(i - from)),
            value <= u32::MAX,
        decreases to - i,
    {
        let byte = text[i];
        if byte < 48 || byte > 57 {
            assert(!is_digit(part[i - from]));
            return None;
        }
        let ghost consumed = before + part.take(i - from + 1);
        proof {
            assert(consumed.drop_last() =~= before + part.take(i - from));
            assert(consumed.last() == byte);
            assert forall|j: int| 0 <= j < part.take(i - from + 1).len() implies is_digit(
                #[trigger] part.take(i - from + 1)[j],
            ) by {
                if j < i - from {
                    assert(part.take(i - from)[j] == part[j]);
                }
            }
        }
        value = value * 10 + (byte - 48) as u64;
        if value > 0xffff_ffff {
            proof {
                if all_digits(part) {
                    assert forall|tail: Seq<u8>| all_digits(tail) implies digits_value(
                        #[trigger] (before + part + tail),
                    ) > u32::MAX by {
                        let rest = part.subrange(i - from + 1, part.len() as int) + tail;
                        assert(before + part + tail =~= consumed + rest);
                        assert forall|j: int| 0 <= j < rest.len() implies is_digit(
                            #[trigger] rest[j],
                        ) by {
                            if j < part.len() - (i - from + 1) {
                                assert(rest[j] == part[j + i - from + 1]);
                            } else {
                                assert(rest[j] == tail[j - (part.len() - (i - from + 1))]);
                            }
                        }
                        lemma_digits_grow(consumed, rest);
                    }
                }
            }
            return None;
        }
        i += 1;
    }
    proof {
        assert(part.take(to - from) =~= part);
    }
    Some(value)
}

/// Before the first `byte` there is none.
pub proof fn lemma_position_bounds(text: Seq<u8>, byte: u8, at: int)
    requires
        0 <= at <= text.len(),
        forall|j: int| 0 <= j < at ==> text[j] != byte,
    ensures
        at <= position_of(text, byte) <= text.len(),
    decreases text.len(),
{
    if text.len() > 0 && text[0] != byte {
        let rest = text.subrange(1, text.len() as int);
        if at > 0 {
            assert forall|j: int| 0 <= j < at - 1 implies rest[j] != byte by {
                assert(rest[j] == text[j + 1]);
            }
            lemma_position_bounds(rest, byte, at - 1);
        } else {
            lemma_position_bounds(rest, byte, 0);
        }
    }
}

/// The powers of ten from the tenth on are above `u32::MAX`.
pub proof fn lemma_pow10_large(k: nat)
    requires
        k >= 10,
    ensures
        pow10(k) >= 10_000_000_000,
    decreases k,
{
    if k == 10 {
        reveal_with_fuel(pow10, 12);
    } else {
        lemma_pow10_large((k - 1) as nat);
    }
}

/// Trimming zeros leaves a number zero or not as it was, takes no more
/// powers of ten than there were, and leaves digits.
pub proof fn lemma_trim(digits: Seq<u8>, q: int)
    requires
        q >= 0,
    ensures
        digits_value(trim(digits, q).0) == 0 <==> digits_value(digits) == 0,
        0 <= trim(digits, q).1 <= q,
    decreases digits.len(),
{
    if q > 0 && digits.len() > 0 && digits.last() == 48 {
        lemma_trim(digits.drop_last(), q - 1);
    }
}

/// Position of the first `e` or `E` in `text`, or its length.
fn find_exponent(text: &[u8]) -> (at: usize)
    ensures
        at == exponent_at(text@),
        at <= text.len(),
{
    let mut at: usize = 0;
    while at < text.len() && text[at] != 101 && text[at] != 69
        invariant
            at <= text.len(),
            forall|j: int| 0 <= j < at ==> text[j] != 101 && text[j] != 69,
        decreases text.len() - at,
    {
        at += 1;
    }
    proof {
        lemma_position_bounds(text@, 101, at as int);
        lemma_position_bounds(text@, 69, at as int);
        if at < text.len() {
            if text[at as int] == 101 {
                lemma_position_of(text@, 101, at as int);
            } else {
                lemma_position_of(text@, 69, at as int);
            }
        }
    }
    at
}

/// Reads an exponent. Returns `None` where `text` is none.
fn parse_exponent(text: &[u8]) -> (parsed: Option<i64>)
    ensures
        parsed.is_some() == is_exponent(text@),
        parsed.is_some() ==> parsed.unwrap() == exponent_value(Some(text@)),
        parsed.is_some() ==> -0xffff_ffff <= parsed.unwrap() <= 0xffff_ffff,
{
    let signed = text.len() > 0 && (text[0] == 45 || text[0] == 43);
    let negative = text.len() > 0 && text[0] == 45;
    let digits = if signed {
        slice_subrange(text, 1, text.len())
    } else {
        text
    };
    assert(digits@ =~= unsigned_part(text@));
    if digits.len() == 0 {
        return None;
    }
    proof {
        assert(digits@.subrange(0, digits.len() as int) =~= digits@);
        assert(Seq::<u8>::empty() + digits@ =~= digits@);
        assert(all_digits(Seq::<u8>::empty()));
        assert(digits@ + Seq::<u8>::empty() =~= digits@);
    }
    match read_digits(digits, 0, digits.len(), 0, Ghost(Seq::empty())) {
        Some(value) => if negative {
            Some(-(value as i64))
        } else {
            Some(value as i64)
        },
        None => None,
    }
}

/// Copies the digits of `part` behind `digits`. Returns `false` where a byte
/// of `part` is no digit.
fn collect_digits(digits: &mut Vec<u8>, part: &[u8]) -> (ok: bool)
    requires
        all_digits(old(digits)@),
    ensures
        ok == all_digits(part@),
        ok ==> final(digits)@ == old(digits)@ + part@,
        ok ==> all_digits(final(digits)@),
{
    let ghost before = digits@;
    let mut i: usize = 0;
    while i < part.len()
        invariant
            i <= part.len(),
            digits@ == before + part@.subrange(0, i as int),
            all_digits(digits@),
        decreases part.len() - i,
    {
        let byte = part[i];
        if byte < 48 || byte > 57 {
            assert(!is_digit(part@[i as int]));
            return false;
        }
        digits.push(byte);
        proof {
            assert(digits@ =~= before + part@.subrange(0, i + 1));
        }
        i += 1;
    }
    proof {
        assert(part@.subrange(0, part.len() as int) =~= part@);
        assert forall|k: int| 0 <= k < part.len() implies is_digit(#[trigger] part@[k]) by {
            assert(digits@[before.len() + k] == part@[k]);
        }
    }
    true
}

/// Ten to the power `k`.
fn power_of_ten(k: usize) -> (power: u32)
    requires
        k <= MAX_PLACES,
    ensures
        power == pow10(k as nat),
        1 <= power <= 1_000_000_000,
{
    let mut power: u32 = 1;
    let mut i: usize = 0;
    proof {
        lemma_pow10(0);
    }
    while i < k
        invariant
            i <= k <= MAX_PLACES,
            power == pow10(i as nat),
        decreases k - i,
    {
        proof {
            lemma_pow10(i as nat);
        }
        power = power * 10;
        i += 1;
    }
    proof {
        lemma_pow10(k as nat);
    }
    power
}

/// Numerator and denominator of `digits · 10^net`.
fn magnitude(digits: &Vec<u8>, net: i128) -> (parts: Option<(u32, u32)>)
    requires
        all_digits(digits@),
        i128::MIN < net,
    ensures
        match parts {
            Some(found) => magnitude_of(digits@, net as int) == Some(
                (found.0 as nat, found.1 as nat),
            ) && found.1 > 0,
            None => magnitude_of(digits@, net as int).is_none(),
        },
{
    let all = digits.as_slice();
    let mut keep: usize = all.len();
    let mut q: i128 = if net < 0 {
        -net
    } else {
        0
    };
    proof {
        assert(digits@.subrange(0, keep as int) =~= digits@);
    }
    while q > 0 && keep > 0 && all[keep - 1] == 48
        invariant
            keep <= all.len(),
            all@ == digits@,
            0 <= q,
            net < 0 ==> trim(digits@, -(net as int)) == trim(
                digits@.subrange(0, keep as int),
                q as int,
            ),
            net >= 0 ==> keep == all.len() && q == 0,
        decreases keep,
    {
        proof {
            assert(digits@.subrange(0, keep as int).drop_last() =~= digits@.subrange(
                0,
                keep - 1,
            ));
        }
        keep -= 1;
        q -= 1;
    }
    let ghost kept = digits@.subrange(0, keep as int);
    proof {
        assert(digits@.subrange(0, digits.len() as int) =~= digits@);
        assert(Seq::<u8>::empty() + kept =~= kept);
        assert(kept + Seq::<u8>::empty() =~= kept);
        assert(all_digits(Seq::<u8>::empty()));
        assert(all_digits(kept));
        if net < 0 {
            assert(trim(digits@, -(net as int)) == (kept, q as int));
            lemma_trim(digits@, -(net as int));
        }
    }
    let value = match read_digits(all, 0, keep, 0, Ghost(Seq::empty())) {
        Some(value) => value,
        None => {
            proof {
                if net >= 0 {
                    lemma_pow10_positive(net as nat);
                    assert(digits_value(digits@) * pow10(net as nat) >= digits_value(digits@))
                        by (nonlinear_arith)
                        requires
                            pow10(net as nat) >= 1,
                    ;
                }
            }
            return None;
        },
    };
    if value == 0 {
        return Some((0, 1));
    }
    if net >= 0 {
        if net > 9 {
            proof {
                lemma_pow10_large(net as nat);
                assert(digits_value(digits@) * pow10(net as nat) >= 10_000_000_000)
                    by (nonlinear_arith)
                    requires
                        digits_value(digits@) >= 1,
                        pow10(net as nat) >= 10_000_000_000,
                ;
            }
            return None;
        }
        let power = power_of_ten(net as usize);
        proof {
            vstd::arithmetic::mul::lemma_mul_upper_bound(
                value as int,
                0xffff_ffff,
                power as int,
                1_000_000_000,
            );
        }
        let product: u64 = value * (power as u64);
        if product > 0xffff_ffff {
            None
        } else {
            Some((product as u32, 1))
        }
    } else if q <= 9 {
        Some((value as u32, power_of_ten(q as usize)))
    } else {
        None
    }
}

/// Every power of ten is at least one.
pub proof fn lemma_pow10_positive(k: nat)
    ensures
        pow10(k) >= 1,
    decreases k,
{
    if k > 0 {
        lemma_pow10_positive((k - 1) as nat);
    }
}

/// Reads a decimal such as `0.02`, `3`, `.5`, `-1.5` or `8e-4` as an exact
/// fraction. Succeeds exactly on the texts for which [`decimal_of`] has a
/// value.
pub fn parse_decimal(text: &[u8]) -> (parsed: Option<Fraction>)
    ensures
        parsed == decimal_of(text@),
        parsed.is_some() == is_decimal(text@),
        parsed.is_some() ==> parsed.unwrap() == decimal_value(text@) && parsed.unwrap().wf(),
{
    let signed = text.len() > 0 && (text[0] == 45 || text[0] == 43);
    let negative = text.len() > 0 && text[0] == 45;
    let body = if signed {
        slice_subrange(text, 1, text.len())
    } else {
        text
    };
    assert(body@ =~= unsigned_part(text@));
    let mark = find_exponent(body);
    let mantissa = slice_subrange(body, 0, mark);
    let mut dot: usize = 0;
    while dot < mantissa.len() && mantissa[dot] != 46
        invariant
            dot <= mantissa.len(),
            forall|j: int| 0 <= j < dot ==> mantissa[j] != 46,
        decreases mantissa.len() - dot,
    {
        dot += 1;
    }
    proof {
        lemma_position_of(mantissa@, 46, dot as int);
    }
    let behind: usize = if dot < mantissa.len() {
        dot + 1
    } else {
        mantissa.len()
    };
    let whole = slice_subrange(mantissa, 0, dot);
    let fraction = slice_subrange(mantissa, behind, mantissa.len());
    assert(mantissa@ =~= mantissa_part(text@));
    assert(whole@ =~= whole_part(mantissa@));
    assert(fraction@ =~= fraction_part(mantissa@));
    let mut digits: Vec<u8> = Vec::new();
    if !collect_digits(&mut digits, whole) {
        return None;
    }
    if !collect_digits(&mut digits, fraction) {
        return None;
    }
    assert(digits@ =~= mantissa_digits(text@));
    if digits.len() == 0 {
        return None;
    }
    let exponent: i64 = if mark < body.len() {
        match parse_exponent(slice_subrange(body, mark + 1, body.len())) {
            Some(value) => value,
            None => {
                return None;
            },
        }
    } else {
        0
    };
    let net: i128 = exponent as i128 - fraction.len() as i128;
    match magnitude(&digits, net) {
        Some((numerator, denominator)) => Some(Fraction { negative, numerator, denominator }),
        None => None,
    }
}

} // verus!
