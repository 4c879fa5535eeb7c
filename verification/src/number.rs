//! Numbers in text: decimal numbers read and written, hexadecimal written.

use vstd::arithmetic::power::{lemma_pow0, lemma_pow1, lemma_pow_adds, pow};
use vstd::prelude::*;
use vstd::slice::slice_subrange;

verus! {

/// The value of a decimal digit.
pub open spec fn is_digit(c: char) -> bool {
    '0' <= c <= '9'
}

/// The number that a run of decimal digits writes.
pub open spec fn digits_value(digits: Seq<char>) -> nat
    decreases digits.len(),
{
    if digits.len() == 0 {
        0
    } else {
        (digits_value(digits.drop_last()) * 10 + (digits.last() as u32 - '0' as u32)) as nat
    }
}

/// The digits of an unsigned number, whose sign may be written.
pub open spec fn unsigned_digits(text: Seq<char>) -> Seq<char> {
    if text.len() > 0 && text[0] == '+' {
        text.skip(1)
    } else {
        text
    }
}

/// The number up to `max` that `text` writes: decimal digits, at least one,
/// after an optional plus sign.
pub open spec fn number(text: Seq<char>, max: nat) -> Option<nat> {
    let digits = unsigned_digits(text);
    if digits.len() > 0 && (forall|i: int| 0 <= i < digits.len() ==> is_digit(#[trigger] digits[i]))
        && digits_value(digits) <= max {
        Some(digits_value(digits))
    } else {
        None
    }
}

/// Why a text is no unsigned number.
#[derive(Debug, Clone, Copy, PartialEq, Eq, Structural)]
pub enum NumberFault {
    Empty,
    InvalidDigit,
    TooLarge,
}

/// The first fault in a run of digits, read from the left.
pub open spec fn digits_fault(digits: Seq<char>, max: nat) -> Option<NumberFault>
    decreases digits.len(),
{
    if digits.len() == 0 {
        None
    } else {
        match digits_fault(digits.drop_last(), max) {
            Some(fault) => Some(fault),
            None => if !is_digit(digits.last()) {
                Some(NumberFault::InvalidDigit)
            } else if digits_value(digits) > max {
                Some(NumberFault::TooLarge)
            } else {
                None
            },
        }
    }
}

/// Why `text` is no number up to `max`, where it is none.
pub open spec fn number_fault(text: Seq<char>, max: nat) -> Option<NumberFault> {
    if text.len() == 0 {
        Some(NumberFault::Empty)
    } else if unsigned_digits(text).len() == 0 {
        Some(NumberFault::InvalidDigit)
    } else {
        digits_fault(unsigned_digits(text), max)
    }
}

proof fn lemma_digits_fault(digits: Seq<char>, max: nat)
    ensures
        digits_fault(digits, max) is None <==> (forall|i: int|
            0 <= i < digits.len() ==> is_digit(#[trigger] digits[i])) && digits_value(digits)
            <= max,
    decreases digits.len(),
{
    if digits.len() > 0 {
        let before = digits.drop_last();
        lemma_digits_fault(before, max);
        if forall|i: int| 0 <= i < digits.len() ==> is_digit(#[trigger] digits[i]) {
            assert forall|i: int| 0 <= i < before.len() implies is_digit(#[trigger] before[i]) by {
                assert(before[i] == digits[i]);
            }
            assert(is_digit(digits[digits.len() - 1]));
        }
        if digits_fault(digits, max) is None {
            assert forall|i: int| 0 <= i < digits.len() implies is_digit(#[trigger] digits[i]) by {
                if i < before.len() {
                    assert(before[i] == digits[i]);
                }
            }
        }
    }
}

proof fn lemma_fault_stays(digits: Seq<char>, n: int, max: nat)
    requires
        0 <= n <= digits.len(),
        digits_fault(digits.take(n), max) is Some,
    ensures
        digits_fault(digits, max) == digits_fault(digits.take(n), max),
    decreases digits.len() - n,
{
    if n < digits.len() {
        assert(digits.take(n + 1).drop_last() == digits.take(n));
        lemma_fault_stays(digits, n + 1, max);
    } else {
        assert(digits.take(n) == digits);
    }
}

/// A text is a number or has a fault, never both.
pub proof fn number_or_fault(text: Seq<char>, max: nat)
    ensures
        number(text, max) is Some <==> number_fault(text, max) is None,
{
    lemma_digits_fault(unsigned_digits(text), max);
}

/// What a fault reads like.
pub open spec fn fault_text(fault: NumberFault) -> Seq<char> {
    match fault {
        NumberFault::Empty => "cannot parse integer from empty string"@,
        NumberFault::InvalidDigit => "invalid digit found in string"@,
        NumberFault::TooLarge => "number too large to fit in target type"@,
    }
}

impl NumberFault {
    /// What the fault reads like.
    pub fn text(&self) -> (text: &'static str)
        ensures
            text@ == fault_text(*self),
    {
        match self {
            NumberFault::Empty => "cannot parse integer from empty string",
            NumberFault::InvalidDigit => "invalid digit found in string",
            NumberFault::TooLarge => "number too large to fit in target type",
        }
    }
}

/// Reads an unsigned number up to `max`.
pub fn parse_up_to(chars: &[char], max: u64) -> (value: Result<u64, NumberFault>)
    ensures
        (match value {
            Ok(v) => number(chars@, max as nat) == Some(v as nat) && number_fault(
                chars@,
                max as nat,
            ) is None,
            Err(fault) => number_fault(chars@, max as nat) == Some(fault) && number(
                chars@,
                max as nat,
            ) is None,
        }),
{
    proof {
        number_or_fault(chars@, max as nat);
    }
    if chars.len() == 0 {
        return Err(NumberFault::Empty);
    }
    let start: usize = if chars[0] == '+' {
        1
    } else {
        0
    };
    let digits = slice_subrange(chars, start, chars.len());
    assert(digits@ == unsigned_digits(chars@));
    if digits.len() == 0 {
        return Err(NumberFault::InvalidDigit);
    }
    let mut value: u64 = 0;
    let mut i: usize = 0;
    assert(digits@.take(0) == Seq::<char>::empty());
    while i < digits.len()
        invariant
            i <= digits@.len(),
            0 < digits@.len(),
            0 < chars@.len(),
            value <= max,
            digits@ == unsigned_digits(chars@),
            digits_fault(digits@.take(i as int), max as nat) is None,
            value == digits_value(digits@.take(i as int)),
            number(chars@, max as nat) is Some <==> number_fault(chars@, max as nat) is None,
        decreases digits@.len() - i,
    {
        let c = digits[i];
        assert(digits@.take(i + 1).drop_last() == digits@.take(i as int));
        if c < '0' || c > '9' {
            proof {
                assert(digits_fault(digits@.take(i + 1), max as nat) == Some(
                    NumberFault::InvalidDigit,
                ));
                lemma_fault_stays(digits@, i + 1, max as nat);
            }
            return Err(NumberFault::InvalidDigit);
        }
        let digit: u64 = (c as u64) - ('0' as u64);
        assert(digits_value(digits@.take(i + 1)) == value * 10 + digit);
        if digit > max || value > (max - digit) / 10 {
            proof {
                assert(digits_fault(digits@.take(i + 1), max as nat) == Some(
                    NumberFault::TooLarge,
                ));
                lemma_fault_stays(digits@, i + 1, max as nat);
            }
            return Err(NumberFault::TooLarge);
        }
        value = value * 10 + digit;
        i += 1;
    }
    assert(digits@.take(i as int) == digits@);
    Ok(value)
}

/// Reads a `u64` in decimal.
pub fn parse_u64(chars: &[char]) -> (value: Result<u64, NumberFault>)
    ensures
        (match value {
            Ok(v) => number(chars@, u64::MAX as nat) == Some(v as nat),
            Err(fault) => number_fault(chars@, u64::MAX as nat) == Some(fault) && number(
                chars@,
                u64::MAX as nat,
            ) is None,
        }),
{
    parse_up_to(chars, u64::MAX)
}

/// Reads a `usize` in decimal.
pub fn parse_usize(chars: &[char]) -> (value: Result<usize, NumberFault>)
    ensures
        (match value {
            Ok(v) => number(chars@, usize::MAX as nat) == Some(v as nat),
            Err(fault) => number_fault(chars@, usize::MAX as nat) == Some(fault) && number(
                chars@,
                usize::MAX as nat,
            ) is None,
        }),
{
    match parse_up_to(chars, usize::MAX as u64) {
        Ok(v) => Ok(v as usize),
        Err(fault) => Err(fault),
    }
}

/// The character of a digit below sixteen.
pub open spec fn digit_char(d: nat) -> char {
    if d < 10 {
        (d + '0' as u32) as char
    } else {
        (d - 10 + 'a' as u32) as char
    }
}

/// `n` written in `base`, without leading zeros.
pub open spec fn numeral(n: nat, base: nat) -> Seq<char>
    recommends
        2 <= base <= 16,
    decreases n,
{
    if n < base || base < 2 {
        seq![digit_char(n)]
    } else {
        proof {
            assert(n / base < n) by (nonlinear_arith)
                requires
                    2 <= base <= n,
            ;
        }
        numeral(n / base, base).push(digit_char(n % base))
    }
}

/// `n` in decimal.
pub open spec fn decimal(n: nat) -> Seq<char> {
    numeral(n, 10)
}

/// `text` with zeros before it up to `width` characters.
pub open spec fn zero_padded(text: Seq<char>, width: nat) -> Seq<char> {
    if text.len() < width {
        Seq::new((width - text.len()) as nat, |i: int| '0') + text
    } else {
        text
    }
}

fn digit_to_char(d: u8) -> (c: char)
    requires
        d < 16,
    ensures
        c == digit_char(d as nat),
{
    if d < 10 {
        (d + 48) as char
    } else {
        (d - 10 + 97) as char
    }
}

/// Writes `n` in `base`, without leading zeros.
fn write_numeral(n: u128, base: u128) -> (chars: Vec<char>)
    requires
        2 <= base <= 16,
    ensures
        chars@ == numeral(n as nat, base as nat),
    decreases n,
{
    if n < base {
        let mut chars: Vec<char> = Vec::new();
        chars.push(digit_to_char(n as u8));
        chars
    } else {
        assert(n / base < n) by (nonlinear_arith)
            requires
                2 <= base <= n,
        ;
        let mut chars = write_numeral(n / base, base);
        let digit: u8 = (n % base) as u8;
        chars.push(digit_to_char(digit));
        chars
    }
}

/// Writes `n` in decimal.
pub fn write_decimal(n: u64) -> (text: String)
    ensures
        text@ == decimal(n as nat),
{
    crate::text::text_of(write_numeral(n as u128, 10).as_slice())
}

/// Writes a large `n` in decimal.
pub fn write_large(n: u128) -> (text: String)
    ensures
        text@ == decimal(n as nat),
{
    crate::text::text_of(write_numeral(n, 10).as_slice())
}

/// `n` in decimal, with a minus sign where it is negative.
pub open spec fn signed_decimal(n: int) -> Seq<char> {
    if n < 0 {
        seq!['-'] + decimal((-n) as nat)
    } else {
        decimal(n as nat)
    }
}

/// Writes `n` in decimal, with a minus sign where it is negative.
pub fn write_signed(n: i64) -> (text: String)
    ensures
        text@ == signed_decimal(n as int),
{
    if n < 0 {
        let size: u64 = (-(n as i128)) as u64;
        let digits = write_numeral(size as u128, 10);
        let mut chars: Vec<char> = Vec::new();
        chars.push('-');
        let mut i: usize = 0;
        while i < digits.len()
            invariant
                i <= digits@.len(),
                chars@ == seq!['-'] + digits@.take(i as int),
            decreases digits@.len() - i,
        {
            chars.push(digits[i]);
            assert(chars@ =~= seq!['-'] + digits@.take(i + 1));
            i += 1;
        }
        assert(digits@.take(i as int) =~= digits@);
        crate::text::text_of(chars.as_slice())
    } else {
        write_decimal(n as u64)
    }
}

/// Writes `n` in hexadecimal, with zeros before it up to `width` characters.
pub fn write_hex(n: u64, width: usize) -> (text: String)
    ensures
        text@ == zero_padded(numeral(n as nat, 16), width as nat),
{
    let digits = write_numeral(n as u128, 16);
    let mut chars: Vec<char> = Vec::new();
    while digits.len() < width && chars.len() < width - digits.len()
        invariant
            chars@ == Seq::new(chars@.len(), |i: int| '0'),
            chars@.len() == 0 || chars@.len() + digits@.len() <= width,
        decreases width - chars@.len(),
    {
        chars.push('0');
        assert(chars@ =~= Seq::new(chars@.len(), |i: int| '0'));
    }
    let mut i: usize = 0;
    let ghost zeros = chars@;
    while i < digits.len()
        invariant
            i <= digits@.len(),
            chars@ == zeros + digits@.take(i as int),
        decreases digits@.len() - i,
    {
        chars.push(digits[i]);
        assert(digits@.take(i + 1) == digits@.take(i as int).push(digits@[i as int]));
        assert(chars@ =~= zeros + digits@.take(i + 1));
        i += 1;
    }
    assert(digits@.take(i as int) == digits@);
    assert(chars@ =~= zero_padded(digits@, width as nat));
    crate::text::text_of(chars.as_slice())
}

proof fn lemma_decimal_digits(n: nat)
    ensures
        decimal(n).len() > 0,
        forall|i: int| 0 <= i < decimal(n).len() ==> is_digit(#[trigger] decimal(n)[i]),
        digits_value(decimal(n)) == n,
    decreases n,
{
    if n < 10 {
        assert(decimal(n).drop_last() == Seq::<char>::empty());
        assert(digits_value(decimal(n).drop_last()) == 0);
    } else {
        lemma_decimal_digits(n / 10);
        assert(decimal(n).drop_last() == decimal(n / 10));
    }
}

/// Reading a decimal number gives back the number that was written, where it
/// is within the bound.
pub proof fn decimal_reads_back(n: nat, max: nat)
    requires
        n <= max,
    ensures
        number(decimal(n), max) == Some(n),
{
    lemma_decimal_digits(n);
    assert(is_digit(decimal(n)[0]));
}

/// Whether a text is made of decimal digits.
pub open spec fn all_digits(text: Seq<char>) -> bool {
    forall|i: int| 0 <= i < text.len() ==> '0' <= #[trigger] text[i] <= '9'
}

proof fn lemma_value_of_both(left: Seq<char>, right: Seq<char>)
    requires
        all_digits(left),
        all_digits(right),
    ensures
        digits_value(left + right) == digits_value(left) * pow(10, right.len()) + digits_value(
            right,
        ),
    decreases right.len(),
{
    if right.len() == 0 {
        assert(left + right =~= left);
        lemma_pow0(10);
        assert(digits_value(left) * 1 == digits_value(left)) by (nonlinear_arith);
    } else {
        let shorter = right.drop_last();
        assert forall|i: int| 0 <= i < shorter.len() implies '0' <= #[trigger] shorter[i] <= '9' by {
            assert(shorter[i] == right[i]);
        }
        lemma_value_of_both(left, shorter);
        assert((left + right).drop_last() =~= left + shorter);
        assert((left + right).last() == right.last());
        lemma_pow1(10);
        lemma_pow_adds(10, shorter.len(), 1);
        let d = (right.last() as u32 - '0' as u32) as int;
        assert(right[right.len() - 1] == right.last());
        let a = digits_value(left) as int;
        let p = pow(10, shorter.len());
        let b = digits_value(shorter) as int;
        assert((a * p + b) * 10 + d == a * (p * 10) + (b * 10 + d)) by (nonlinear_arith);
    }
}

/// Numbers are read by their digits, in tens: what two runs of digits write
/// together is what the first writes, as many tens up as the second is long, and
/// what the second writes.
pub proof fn numbers_are_read_in_tens(left: Seq<char>, right: Seq<char>, a: nat, b: nat, max: nat)
    requires
        all_digits(left),
        all_digits(right),
        number(left, max) == Some(a),
        number(right, max) == Some(b),
    ensures
        number(left + right, max) == (if a * pow(10, right.len()) + b <= max {
            Some((a * pow(10, right.len()) + b) as nat)
        } else {
            None
        }),
{
    lemma_value_of_both(left, right);
    let all = left + right;
    assert(left.len() > 0 ==> left[0] >= '0');
    assert(right.len() > 0 ==> right[0] >= '0');
    assert(all.len() > 0 ==> all[0] == left[0]);
    assert forall|i: int| 0 <= i < all.len() implies is_digit(#[trigger] all[i]) by {
        if i < left.len() {
            assert(all[i] == left[i]);
        } else {
            assert(all[i] == right[i - left.len()]);
        }
    }
}

/// A digit is the number that it shows, and a plus sign before digits changes
/// nothing.
pub proof fn a_digit_is_a_number(digit: char, text: Seq<char>, max: nat)
    requires
        '0' <= digit <= '9',
        all_digits(text),
    ensures
        number(seq![digit], max) == (if digit as u32 - '0' as u32 <= max {
            Some((digit as u32 - '0' as u32) as nat)
        } else {
            None
        }),
        number(seq!['+'] + text, max) == number(text, max),
{
    let one = seq![digit];
    assert(one[0] == digit);
    assert(one.drop_last() =~= Seq::<char>::empty());
    assert(digits_value(one.drop_last()) == 0);
    let signed = seq!['+'] + text;
    assert(signed[0] == '+');
    assert(signed.skip(1) =~= text);
    assert(text.len() > 0 ==> text[0] >= '0');
}

/// What is not made of digits, but for one plus sign before them, is no number,
/// and neither is a text without digits.
pub proof fn only_digits_are_numbers(text: Seq<char>, max: nat)
    ensures
        number(text, max) is Some ==> {
            ||| text.len() > 0 && all_digits(text)
            ||| text.len() > 1 && text[0] == '+' && all_digits(text.skip(1))
        },
{
    if number(text, max) is Some {
        let digits = unsigned_digits(text);
        assert forall|i: int| 0 <= i < digits.len() implies '0' <= #[trigger] digits[i] <= '9' by {
            assert(is_digit(digits[i]));
        }
    }
}

/// A number is read up to the bound, and none beyond it.
pub proof fn numbers_are_read_up_to_the_bound(text: Seq<char>, max: nat, n: nat, less: nat)
    requires
        number(text, max) == Some(n),
    ensures
        n <= max,
        less <= max ==> number(text, less) == (if n <= less {
            Some(n)
        } else {
            None
        }),
{
}

/// Why a text is no number is told by the first character, from the left, with
/// which it cannot be one any more: one that is no digit, or the digit with which
/// the number is too large. An empty text is told as such.
pub proof fn the_first_fault_is_told(digits: Seq<char>, next: char, rest: Seq<char>, max: nat)
    requires
        all_digits(digits),
        digits.len() > 0 ==> number(digits, max) is Some,
    ensures
        number_fault(Seq::empty(), max) == Some(NumberFault::Empty),
        number_fault(seq!['+'], max) == Some(NumberFault::InvalidDigit),
        !('0' <= next <= '9') && (next != '+' || digits.len() > 0) ==> number_fault(
            digits.push(next) + rest,
            max,
        ) == Some(NumberFault::InvalidDigit),
        '0' <= next <= '9' && number(digits.push(next), max) is None ==> number_fault(
            digits.push(next) + rest,
            max,
        ) == Some(NumberFault::TooLarge),
{
    let plus = seq!['+'];
    assert(plus[0] == '+');
    assert(plus.skip(1).len() == 0);
    let start = digits.push(next);
    let text = start + rest;
    assert(text[0] == start[0]);
    assert(start.drop_last() =~= digits);
    assert(text.take(start.len() as int) =~= start);
    assert(digits.len() > 0 ==> digits[0] >= '0' && start[0] == digits[0]);
    assert(digits_fault(digits, max) is None) by {
        lemma_digits_fault(digits, max);
        if digits.len() > 0 {
            assert(unsigned_digits(digits) == digits);
            assert forall|i: int| 0 <= i < digits.len() implies is_digit(#[trigger] digits[i]) by {}
        }
    }
    if '0' <= next <= '9' && number(start, max) is None {
        assert(unsigned_digits(start) == start);
        assert forall|i: int| 0 <= i < start.len() implies is_digit(#[trigger] start[i]) by {
            if i < digits.len() {
                assert(start[i] == digits[i]);
            }
        }
        assert(digits_value(start) > max);
        lemma_fault_stays(text, start.len() as int, max);
    }
    if !('0' <= next <= '9') && (next != '+' || digits.len() > 0) {
        assert(text[0] != '+');
        lemma_fault_stays(text, start.len() as int, max);
    }
}

proof fn lemma_no_leading_zero(n: nat)
    ensures
        decimal(n).len() > 0,
        n > 0 ==> decimal(n)[0] != '0',
        n < 10 <==> decimal(n).len() == 1,
    decreases n,
{
    if n >= 10 {
        lemma_no_leading_zero(n / 10);
        assert(decimal(n)[0] == decimal(n / 10)[0]);
    } else if n > 0 {
        assert(decimal(n)[0] == digit_char(n));
        assert(digit_char(n) as u32 == n + 48);
    }
}

/// A decimal number is written with digits alone, at least one, and none of them
/// a zero at the front but for nought itself.
pub proof fn decimals_have_no_leading_zeros(n: nat)
    ensures
        decimal(n).len() > 0,
        all_digits(decimal(n)),
        decimal(n)[0] == '0' ==> n == 0 && decimal(n).len() == 1,
{
    lemma_decimal_digits(n);
    lemma_no_leading_zero(n);
    assert forall|i: int| 0 <= i < decimal(n).len() implies '0' <= #[trigger] decimal(n)[i]
        <= '9' by {
        assert(is_digit(decimal(n)[i]));
    }
}

/// Different numbers are written differently.
pub proof fn decimals_tell_numbers_apart(a: nat, b: nat)
    ensures
        decimal(a) == decimal(b) <==> a == b,
{
    lemma_decimal_digits(a);
    lemma_decimal_digits(b);
}

/// A negative number is written as its size behind a minus sign, and any other
/// without a sign.
pub proof fn signs_are_written(n: nat)
    ensures
        signed_decimal(n as int) == decimal(n),
        n > 0 ==> signed_decimal(-(n as int)) == seq!['-'] + decimal(n),
{
}

/// The digits below sixteen.
pub proof fn digits_are_characters(d: nat)
    requires
        d < 16,
    ensures
        digit_char(d) == seq![
            '0', '1', '2', '3', '4', '5', '6', '7', '8', '9', 'a', 'b', 'c', 'd', 'e', 'f',
        ][d as int],
{
    let all = seq![
        '0', '1', '2', '3', '4', '5', '6', '7', '8', '9', 'a', 'b', 'c', 'd', 'e', 'f',
    ];
    assert(digit_char(d) as u32 == all[d as int] as u32);
}

/// A number that is padded with zeros has the digit of each power of the base at
/// its own place, counted from the end.
pub proof fn padded_digits_stand_at_their_places(n: nat, base: nat, width: nat, k: nat)
    requires
        2 <= base <= 16,
        n < pow(base as int, width),
        k < width,
    ensures
        zero_padded(numeral(n, base), width).len() == width,
        zero_padded(numeral(n, base), width)[width - 1 - k] == digit_char(
            ((n as int / pow(base as int, k)) % base as int) as nat,
        ),
    decreases width,
{
    let shown = zero_padded(numeral(n, base), width);
    let b = base as int;
    lemma_pow0(b);
    lemma_pow1(b);
    assert(n as int / 1 == n) by (nonlinear_arith);
    if width == 1 {
        assert(n < base);
        assert(n as int % b == n) by (nonlinear_arith)
            requires
                0 <= n < b,
                base == b,
        ;
        assert(shown =~= seq![digit_char(n)]);
    } else {
        let rest = (width - 1) as nat;
        lemma_pow_adds(b, rest, 1);
        let p = pow(b, rest);
        let q = n as int / b;
        assert(q < p && 0 <= q) by (nonlinear_arith)
            requires
                q == n as int / b,
                0 <= n < p * b,
                2 <= b,
        ;
        let k1: nat = if k == 0 { 0 } else { (k - 1) as nat };
        padded_digits_stand_at_their_places(q as nat, base, rest, k1);
        assert(shown =~= zero_padded(numeral(q as nat, base), rest).push(
            digit_char((n as int % b) as nat),
        )) by {
            if n < base {
                assert(q == 0) by (nonlinear_arith)
                    requires
                        q == n as int / b,
                        0 <= n < b,
                ;
                assert(n as int % b == n) by (nonlinear_arith)
                    requires
                        0 <= n < b,
                        base == b,
                ;
                assert(digit_char(0) as u32 == '0' as u32);
                assert(numeral(0, base) =~= seq!['0']);
            }
        }
        if k > 0 {
            lemma_pow_adds(b, k1, 1);
            vstd::arithmetic::power::lemma_pow_positive(b, k1);
            vstd::arithmetic::div_mod::lemma_div_denominator(n as int, b, pow(b, k1));
            assert(b * pow(b, k1) == pow(b, k)) by (nonlinear_arith)
                requires
                    pow(b, k) == pow(b, k1) * b,
            ;
            assert(shown[width - 1 - k] == zero_padded(numeral(q as nat, base), rest)[rest - 1
                - k1]);
        }
    }
}

} // verus!
