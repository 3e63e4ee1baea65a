//! Recognizing JSON numbers, one byte at a time.

use vstd::prelude::*;

verus! {

/// How far a number has been recognized.
#[derive(Clone, Copy, PartialEq, Eq, Structural, Debug)]
pub enum NumberPhase {
    /// In front of the number.
    Start,
    /// Behind the minus sign.
    Minus,
    /// Behind a 0 as integer part.
    Zero,
    /// Behind a digit of an integer part which does not start with 0.
    Integer,
    /// Behind the decimal point.
    Point,
    /// Behind a digit of the fraction part.
    Fraction,
    /// Behind the `e` or `E`.
    Exponent,
    /// Behind the sign of the exponent.
    ExponentSign,
    /// Behind a leading 0 of the exponent.
    ExponentZero,
    /// Behind a digit of the exponent which is no leading 0.
    ExponentDigits,
}

/// A number of which some bytes have been recognized.
#[derive(Clone, Copy, PartialEq, Eq, Structural, Debug)]
pub struct NumberScan {
    pub phase: NumberPhase,
    /// Number of exponent digits so far, without leading 0s.
    pub exponent_digits: u64,
    /// Number of bytes so far.
    pub len: u64,
}

pub open spec fn is_digit(byte: u8) -> bool {
    0x30 <= byte <= 0x39
}

/// The phase behind `byte`, or `None` if `byte` does not continue the number.
pub open spec fn number_step(phase: NumberPhase, byte: u8) -> Option<NumberPhase> {
    match phase {
        NumberPhase::Start => if byte == 0x2D {
            Some(NumberPhase::Minus)
        } else {
            first_digit(byte)
        },
        NumberPhase::Minus => first_digit(byte),
        NumberPhase::Zero => behind_integer(byte),
        NumberPhase::Integer => if is_digit(byte) {
            Some(NumberPhase::Integer)
        } else {
            behind_integer(byte)
        },
        NumberPhase::Point => if is_digit(byte) {
            Some(NumberPhase::Fraction)
        } else {
            None
        },
        NumberPhase::Fraction => if is_digit(byte) {
            Some(NumberPhase::Fraction)
        } else {
            behind_fraction(byte)
        },
        NumberPhase::Exponent => if byte == 0x2D || byte == 0x2B {
            Some(NumberPhase::ExponentSign)
        } else {
            exponent_digit(byte)
        },
        NumberPhase::ExponentSign => exponent_digit(byte),
        NumberPhase::ExponentZero => exponent_digit(byte),
        NumberPhase::ExponentDigits => if is_digit(byte) {
            Some(NumberPhase::ExponentDigits)
        } else {
            None
        },
    }
}

pub open spec fn first_digit(byte: u8) -> Option<NumberPhase> {
    if byte == 0x30 {
        Some(NumberPhase::Zero)
    } else if is_digit(byte) {
        Some(NumberPhase::Integer)
    } else {
        None
    }
}

pub open spec fn behind_integer(byte: u8) -> Option<NumberPhase> {
    if byte == 0x2E {
        Some(NumberPhase::Point)
    } else {
        behind_fraction(byte)
    }
}

pub open spec fn behind_fraction(byte: u8) -> Option<NumberPhase> {
    if byte == 0x65 || byte == 0x45 {
        Some(NumberPhase::Exponent)
    } else {
        None
    }
}

pub open spec fn exponent_digit(byte: u8) -> Option<NumberPhase> {
    if byte == 0x30 {
        Some(NumberPhase::ExponentZero)
    } else if is_digit(byte) {
        Some(NumberPhase::ExponentDigits)
    } else {
        None
    }
}

/// Whether the number may end in the phase.
pub open spec fn number_complete(phase: NumberPhase) -> bool {
    ||| phase == NumberPhase::Zero
    ||| phase == NumberPhase::Integer
    ||| phase == NumberPhase::Fraction
    ||| phase == NumberPhase::ExponentZero
    ||| phase == NumberPhase::ExponentDigits
}

/// The scan in front of a number.
pub open spec fn number_start() -> NumberScan {
    NumberScan { phase: NumberPhase::Start, exponent_digits: 0, len: 0 }
}

/// The scan behind `byte`, or `None` if `byte` does not continue the number.
pub open spec fn number_next(scan: NumberScan, byte: u8) -> Option<NumberScan> {
    match number_step(scan.phase, byte) {
        None => None,
        Some(phase) => Some(
            NumberScan {
                phase,
                exponent_digits: if phase == NumberPhase::ExponentDigits {
                    (scan.exponent_digits + 1) as u64
                } else {
                    scan.exponent_digits
                },
                len: (scan.len + 1) as u64,
            },
        ),
    }
}

/// Whether the number exceeds what the settings allow when they restrict numbers: an
/// exponent of three or more digits, or more than 100 characters.
pub open spec fn exceeds_restrictions(scan: NumberScan) -> bool {
    scan.exponent_digits > 2 || scan.len > 100
}

fn step_first_digit(byte: u8) -> (r: Option<NumberPhase>)
    ensures
        r == first_digit(byte),
{
    if byte == 0x30 {
        Some(NumberPhase::Zero)
    } else if 0x30 <= byte && byte <= 0x39 {
        Some(NumberPhase::Integer)
    } else {
        None
    }
}

fn step_behind_fraction(byte: u8) -> (r: Option<NumberPhase>)
    ensures
        r == behind_fraction(byte),
{
    if byte == 0x65 || byte == 0x45 {
        Some(NumberPhase::Exponent)
    } else {
        None
    }
}

fn step_behind_integer(byte: u8) -> (r: Option<NumberPhase>)
    ensures
        r == behind_integer(byte),
{
    if byte == 0x2E {
        Some(NumberPhase::Point)
    } else {
        step_behind_fraction(byte)
    }
}

fn step_exponent_digit(byte: u8) -> (r: Option<NumberPhase>)
    ensures
        r == exponent_digit(byte),
{
    if byte == 0x30 {
        Some(NumberPhase::ExponentZero)
    } else if 0x30 <= byte && byte <= 0x39 {
        Some(NumberPhase::ExponentDigits)
    } else {
        None
    }
}

/// Decides whether `byte` continues the number, and where it leads.
pub fn next_number_phase(phase: NumberPhase, byte: u8) -> (r: Option<NumberPhase>)
    ensures
        r == number_step(phase, byte),
{
    let digit = 0x30 <= byte && byte <= 0x39;
    match phase {
        NumberPhase::Start => if byte == 0x2D {
            Some(NumberPhase::Minus)
        } else {
            step_first_digit(byte)
        },
        NumberPhase::Minus => step_first_digit(byte),
        NumberPhase::Zero => step_behind_integer(byte),
        NumberPhase::Integer => if digit {
            Some(NumberPhase::Integer)
        } else {
            step_behind_integer(byte)
        },
        NumberPhase::Point => if digit {
            Some(NumberPhase::Fraction)
        } else {
            None
        },
        NumberPhase::Fraction => if digit {
            Some(NumberPhase::Fraction)
        } else {
            step_behind_fraction(byte)
        },
        NumberPhase::Exponent => if byte == 0x2D || byte == 0x2B {
            Some(NumberPhase::ExponentSign)
        } else {
            step_exponent_digit(byte)
        },
        NumberPhase::ExponentSign => step_exponent_digit(byte),
        NumberPhase::ExponentZero => step_exponent_digit(byte),
        NumberPhase::ExponentDigits => if digit {
            Some(NumberPhase::ExponentDigits)
        } else {
            None
        },
    }
}

/// Consumes the next byte of a number, if it continues the number.
pub fn consume_number_byte(scan: NumberScan, byte: u8) -> (r: Option<NumberScan>)
    requires
        scan.exponent_digits <= scan.len,
        scan.len < u64::MAX,
    ensures
        r == number_next(scan, byte),
{
    match next_number_phase(scan.phase, byte) {
        None => None,
        Some(phase) => {
            let exponent_digits: u64 = if phase == NumberPhase::ExponentDigits {
                scan.exponent_digits + 1
            } else {
                scan.exponent_digits
            };
            Some(NumberScan { phase, exponent_digits, len: scan.len + 1 })
        },
    }
}

/// Whether the number may end here.
pub fn is_number_complete(phase: NumberPhase) -> (r: bool)
    ensures
        r == number_complete(phase),
{
    match phase {
        NumberPhase::Zero => true,
        NumberPhase::Integer => true,
        NumberPhase::Fraction => true,
        NumberPhase::ExponentZero => true,
        NumberPhase::ExponentDigits => true,
        _ => false,
    }
}

/// The scan behind all of `s`, or `None` if a byte of `s` does not continue the number.
pub open spec fn scan_from(scan: NumberScan, s: Seq<u8>) -> Option<NumberScan>
    decreases s.len(),
{
    if s.len() == 0 {
        Some(scan)
    } else {
        match number_next(scan, s[0]) {
            None => None,
            Some(next) => scan_from(next, s.skip(1)),
        }
    }
}

/// The number of digits at the start of `s`.
pub open spec fn digits_len(s: Seq<u8>) -> nat
    decreases s.len(),
{
    if s.len() > 0 && is_digit(s[0]) {
        1 + digits_len(s.skip(1))
    } else {
        0
    }
}

/// Whether `s` consists of one or more digits.
pub open spec fn is_digits(s: Seq<u8>) -> bool {
    s.len() > 0 && digits_len(s) == s.len()
}

/// `s` without the sign which it may start with.
pub open spec fn behind_sign(s: Seq<u8>) -> Seq<u8> {
    if s.len() > 0 && (s[0] == 0x2D || s[0] == 0x2B) {
        s.skip(1)
    } else {
        s
    }
}

/// Whether `s` is the optional exponent of a JSON number.
pub open spec fn is_exponent_part(s: Seq<u8>) -> bool {
    s.len() > 0 ==> (s[0] == 0x65 || s[0] == 0x45) && is_digits(behind_sign(s.skip(1)))
}

/// Whether `s` is what follows the integer part of a JSON number: an optional fraction and an
/// optional exponent.
pub open spec fn is_fraction_and_exponent(s: Seq<u8>) -> bool {
    if s.len() > 0 && s[0] == 0x2E {
        let digits = digits_len(s.skip(1));
        digits > 0 && is_exponent_part(s.skip(1 + digits as int))
    } else {
        is_exponent_part(s)
    }
}

/// Whether `s` is a JSON number without minus sign. The integer part does not start with 0
/// unless it is 0.
pub open spec fn is_unsigned_number(s: Seq<u8>) -> bool {
    &&& s.len() > 0
    &&& is_digit(s[0])
    &&& is_fraction_and_exponent(
        s.skip(
            if s[0] == 0x30 {
                1
            } else {
                digits_len(s) as int
            },
        ),
    )
}

/// Whether `s` is a JSON number.
pub open spec fn is_json_number(s: Seq<u8>) -> bool {
    if s.len() > 0 && s[0] == 0x2D {
        is_unsigned_number(s.skip(1))
    } else {
        is_unsigned_number(s)
    }
}

/// The number which a sequence of digits continues, where the digits in front of it stand
/// for `value`.
pub open spec fn digits_value(value: nat, s: Seq<u8>) -> nat
    decreases s.len(),
{
    if s.len() == 0 {
        value
    } else {
        digits_value((value * 10 + (s[0] - 0x30)) as nat, s.skip(1))
    }
}

/// The magnitude of the exponent of a JSON number, 0 if it has none.
pub open spec fn exponent_magnitude(s: Seq<u8>) -> nat
    decreases s.len(),
{
    if s.len() == 0 {
        0
    } else if s[0] == 0x65 || s[0] == 0x45 {
        digits_value(0, behind_sign(s.skip(1)))
    } else {
        exponent_magnitude(s.skip(1))
    }
}

/// Whether a number which is recognized up to `phase` is completed by `s`.
pub open spec fn completes(phase: NumberPhase, s: Seq<u8>) -> bool {
    match phase {
        NumberPhase::Start => is_json_number(s),
        NumberPhase::Minus => is_unsigned_number(s),
        NumberPhase::Zero => is_fraction_and_exponent(s),
        NumberPhase::Integer => is_fraction_and_exponent(s.skip(digits_len(s) as int)),
        NumberPhase::Point => digits_len(s) > 0 && is_exponent_part(s.skip(digits_len(s) as int)),
        NumberPhase::Fraction => is_exponent_part(s.skip(digits_len(s) as int)),
        NumberPhase::Exponent => is_digits(behind_sign(s)),
        NumberPhase::ExponentSign => is_digits(s),
        NumberPhase::ExponentZero => digits_len(s) == s.len(),
        NumberPhase::ExponentDigits => digits_len(s) == s.len(),
    }
}

proof fn lemma_digits_len(s: Seq<u8>)
    ensures
        digits_len(s) <= s.len(),
    decreases s.len(),
{
    if s.len() > 0 && is_digit(s[0]) {
        lemma_digits_len(s.skip(1));
    }
}

/// The bytes which are accepted from a phase on are those which complete the number.
proof fn lemma_completes(scan: NumberScan, s: Seq<u8>)
    ensures
        (scan_from(scan, s) matches Some(end) && number_complete(end.phase)) <==> completes(
            scan.phase,
            s,
        ),
    decreases s.len(),
{
    lemma_digits_len(s);
    if s.len() == 0 {
        assert(s.skip(0) =~= s);
        assert(behind_sign(s) == s);
    } else {
        let byte = s[0];
        let tail = s.skip(1);
        lemma_digits_len(tail);
        let n = digits_len(tail) as int;
        assert(s.skip(1 + n) =~= tail.skip(n));
        assert(s.skip(0) =~= s);
        assert(is_digit(byte) ==> digits_len(s) == 1 + n);
        assert(!is_digit(byte) ==> digits_len(s) == 0);
        match number_next(scan, byte) {
            Some(next) => {
                lemma_completes(next, tail);
                if !is_digit(byte) && (scan.phase == NumberPhase::Exponent) {
                    assert(behind_sign(s) == tail);
                }
            },
            None => {},
        }
    }
}

/// A sequence of bytes is accepted as number if and only if it is a JSON number.
pub proof fn law_accepts_json_numbers(s: Seq<u8>)
    ensures
        (scan_from(number_start(), s) matches Some(end) && number_complete(end.phase))
            <==> is_json_number(s),
{
    lemma_completes(number_start(), s);
}

/// Whether `digits` is the number of digits of `value`, as far as it matters for the
/// restriction of exponents.
spec fn digit_count_fits(digits: nat, value: nat) -> bool {
    &&& digits == 0 <==> value == 0
    &&& digits == 1 <==> 1 <= value <= 9
    &&& digits == 2 <==> 10 <= value <= 99
}

proof fn lemma_exponent_digits(scan: NumberScan, s: Seq<u8>, value: nat)
    requires
        scan.phase == NumberPhase::ExponentSign || scan.phase == NumberPhase::ExponentZero
            || scan.phase == NumberPhase::ExponentDigits,
        scan.phase == NumberPhase::ExponentDigits <==> value > 0,
        digit_count_fits(scan.exponent_digits as nat, value),
        scan_from(scan, s) is Some,
        scan.exponent_digits + s.len() <= u64::MAX,
    ensures
        digit_count_fits(scan_from(scan, s)->0.exponent_digits as nat, digits_value(value, s)),
    decreases s.len(),
{
    if s.len() > 0 {
        let next = number_next(scan, s[0])->0;
        let v = (value * 10 + (s[0] - 0x30)) as nat;
        assert(digit_count_fits(next.exponent_digits as nat, v));
        lemma_exponent_digits(next, s.skip(1), v);
    }
}

proof fn lemma_exponent(scan: NumberScan, s: Seq<u8>)
    requires
        scan.phase != NumberPhase::ExponentSign,
        scan.phase != NumberPhase::ExponentZero,
        scan.phase != NumberPhase::ExponentDigits,
        scan.phase != NumberPhase::Exponent,
        scan.exponent_digits == 0,
        scan_from(scan, s) is Some,
        s.len() <= u64::MAX,
    ensures
        digit_count_fits(scan_from(scan, s)->0.exponent_digits as nat, exponent_magnitude(s)),
    decreases s.len(),
{
    if s.len() > 0 {
        let next = number_next(scan, s[0])->0;
        let tail = s.skip(1);
        if next.phase == NumberPhase::Exponent {
            assert(s[0] == 0x65 || s[0] == 0x45);
            let digits = behind_sign(tail);
            if tail.len() == 0 {
                assert(digits =~= tail);
            } else if tail[0] == 0x2D || tail[0] == 0x2B {
                let signed = number_next(next, tail[0])->0;
                lemma_exponent_digits(signed, tail.skip(1), 0);
            } else {
                let first = number_next(next, tail[0])->0;
                let v = (tail[0] - 0x30) as nat;
                assert(digits_value(0, tail) == digits_value(v, tail.skip(1)));
                lemma_exponent_digits(first, tail.skip(1), v);
            }
        } else {
            assert(s[0] != 0x65 && s[0] != 0x45);
            lemma_exponent(next, tail);
        }
    }
}

/// When numbers are restricted, exactly those are rejected which have an exponent below -99 or
/// above 99, or more than 100 characters.
pub proof fn law_restriction(s: Seq<u8>)
    requires
        is_json_number(s),
        s.len() <= u64::MAX,
    ensures
        scan_from(number_start(), s) is Some,
        exceeds_restrictions(scan_from(number_start(), s)->0) <==> exponent_magnitude(s) > 99
            || s.len() > 100,
{
    law_accepts_json_numbers(s);
    lemma_exponent(number_start(), s);
    lemma_scan_len(number_start(), s);
}

/// The scan counts the bytes.
pub proof fn lemma_scan_len(scan: NumberScan, s: Seq<u8>)
    requires
        scan.len + s.len() <= u64::MAX,
        scan.exponent_digits <= scan.len,
    ensures
        scan_from(scan, s) matches Some(end) ==> end.len == scan.len + s.len()
            && end.exponent_digits <= end.len,
    decreases s.len(),
{
    if s.len() > 0 {
        if let Some(next) = number_next(scan, s[0]) {
            lemma_scan_len(next, s.skip(1));
        }
    }
}

/// Scanning one byte more.
pub proof fn lemma_scan_push(scan: NumberScan, s: Seq<u8>, byte: u8)
    requires
        scan_from(scan, s) is Some,
    ensures
        scan_from(scan, s.push(byte)) == number_next(scan_from(scan, s)->0, byte),
    decreases s.len(),
{
    let t = s.push(byte);
    if s.len() == 0 {
        assert(t.skip(1) =~= Seq::<u8>::empty());
        reveal_with_fuel(scan_from, 2);
    } else {
        assert(t[0] == s[0]);
        assert(t.skip(1) =~= s.skip(1).push(byte));
        lemma_scan_push(number_next(scan, s[0])->0, s.skip(1), byte);
    }
}

/// Every byte of a number is an ASCII character.
pub proof fn lemma_number_ascii(scan: NumberScan, s: Seq<u8>)
    requires
        scan_from(scan, s) is Some,
    ensures
        forall|i: int| 0 <= i < s.len() ==> #[trigger] s[i] <= 0x7F,
    decreases s.len(),
{
    if s.len() > 0 {
        lemma_number_ascii(number_next(scan, s[0])->0, s.skip(1));
        assert forall|i: int| 0 <= i < s.len() implies #[trigger] s[i] <= 0x7F by {
            if i > 0 {
                assert(s.skip(1)[i - 1] == s[i]);
            }
        }
    }
}

} // verus!
