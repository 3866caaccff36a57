//! Numbers as the configuration and qBittorrent write them: IEEE 754 double precision, held as
//! their 64 bits. Every operation is the correctly rounded one, ties to even.

use crate::natural::{Natural, Sizing};
use vstd::arithmetic::power2::{lemma_pow2_adds, lemma_pow2_pos, pow2};
use vstd::prelude::*;

verus! {

/// The code of the smallest normal number: codes below it are subnormal.
pub const HIDDEN_BIT: u64 = 0x10_0000_0000_0000;

/// The code of infinity; larger codes are not numbers.
pub const INFINITY_CODE: u64 = 0x7ff0_0000_0000_0000;

/// The weight of the sign bit.
pub const SIGN_BIT: u64 = 0x8000_0000_0000_0000;

/// The bits of the number that stands for "not a number".
pub const NAN_BITS: u64 = 0x7ff8_0000_0000_0000;

/// A double precision number.
#[derive(Clone, Copy, Debug)]
pub struct Number {
    /// Sign, exponent and fraction, as IEEE 754 lays them out.
    pub bits: u64,
}

/// What a code (the bits without the sign) amounts to, in units of `2^-1074`. Infinity counts as
/// the power of two that follows the largest finite number.
pub open spec fn magnitude(code: nat) -> nat {
    if code < HIDDEN_BIT {
        code
    } else {
        (HIDDEN_BIT + code % HIDDEN_BIT as nat) as nat * pow2(
            (code / HIDDEN_BIT as nat - 1) as nat,
        )
    }
}

/// `code` is the number closest to `numerator / denominator`; of two that are equally close, the
/// even one. What lies beyond the largest finite number by half a step or more is infinite.
pub open spec fn is_nearest(numerator: nat, denominator: nat, code: nat) -> bool {
    let twice = 2 * numerator * pow2(1074);
    &&& code <= INFINITY_CODE
    &&& code > 0 ==> {
        let low = (magnitude((code - 1) as nat) + magnitude(code)) * denominator;
        twice > low || (twice == low && code % 2 == 0)
    }
    &&& code < INFINITY_CODE ==> {
        let high = (magnitude(code) + magnitude(code + 1)) * denominator;
        twice < high || (twice == high && code % 2 == 0)
    }
}

/// The code of the number closest to `numerator / denominator`.
pub open spec fn nearest(numerator: nat, denominator: nat) -> nat {
    choose|code: nat| is_nearest(numerator, denominator, code)
}

/// The number with the given sign and code.
pub open spec fn signed(negative: bool, code: nat) -> Number {
    Number {
        bits: (code + if negative {
            SIGN_BIT as nat
        } else {
            0
        }) as u64,
    }
}

/// The number that is none.
pub open spec fn not_a_number() -> Number {
    Number { bits: NAN_BITS }
}

/// The number closest to an integer.
pub open spec fn of_integer(integer: int) -> Number {
    if integer < 0 {
        signed(true, nearest((-integer) as nat, 1))
    } else {
        signed(false, nearest(integer as nat, 1))
    }
}

impl Number {
    /// Whether the sign bit is set.
    pub open spec fn is_negative(self) -> bool {
        self.bits >= SIGN_BIT
    }

    /// The bits without the sign.
    pub open spec fn code(self) -> nat {
        (self.bits % SIGN_BIT) as nat
    }

    /// Whether this is no number.
    pub open spec fn is_none(self) -> bool {
        self.code() > INFINITY_CODE
    }

    /// Whether this is an infinity.
    pub open spec fn is_infinite(self) -> bool {
        self.code() == INFINITY_CODE
    }

    /// The amount, in units of `2^-1074`.
    pub open spec fn amount(self) -> int {
        if self.is_negative() {
            -(magnitude(self.code()) as int)
        } else {
            magnitude(self.code()) as int
        }
    }

    /// `self < other`.
    pub open spec fn is_less(self, other: Number) -> bool {
        !self.is_none() && !other.is_none() && self.amount() < other.amount()
    }

    /// `self == other`.
    pub open spec fn is_same(self, other: Number) -> bool {
        !self.is_none() && !other.is_none() && self.amount() == other.amount()
    }

    /// `self * other`.
    pub open spec fn product(self, other: Number) -> Number {
        let negative = self.is_negative() != other.is_negative();
        if self.is_none() || other.is_none() {
            not_a_number()
        } else if self.is_infinite() || other.is_infinite() {
            if self.code() == 0 || other.code() == 0 {
                not_a_number()
            } else {
                signed(negative, INFINITY_CODE as nat)
            }
        } else {
            signed(
                negative,
                nearest(magnitude(self.code()) * magnitude(other.code()), pow2(2148)),
            )
        }
    }

    /// `self / other`.
    pub open spec fn quotient(self, other: Number) -> Number {
        let negative = self.is_negative() != other.is_negative();
        if self.is_none() || other.is_none() {
            not_a_number()
        } else if self.is_infinite() {
            if other.is_infinite() {
                not_a_number()
            } else {
                signed(negative, INFINITY_CODE as nat)
            }
        } else if other.is_infinite() {
            signed(negative, 0)
        } else if other.code() == 0 {
            if self.code() == 0 {
                not_a_number()
            } else {
                signed(negative, INFINITY_CODE as nat)
            }
        } else {
            signed(negative, nearest(magnitude(self.code()), magnitude(other.code())))
        }
    }

    /// `self + other`, of numbers without a sign.
    pub open spec fn sum(self, other: Number) -> Number {
        if self.is_infinite() || other.is_infinite() {
            signed(false, INFINITY_CODE as nat)
        } else {
            signed(
                false,
                nearest(magnitude(self.code()) + magnitude(other.code()), pow2(1074)),
            )
        }
    }

    /// Whether this is a number without a sign.
    pub open spec fn is_unsigned(self) -> bool {
        self.bits <= INFINITY_CODE
    }

    /// The whole number at or below this one, zero if there is none, and no more than `most`.
    pub open spec fn floor_within(self, most: nat) -> nat {
        if self.is_none() || self.is_negative() {
            0
        } else if magnitude(self.code()) / pow2(1074) < most {
            magnitude(self.code()) / pow2(1074)
        } else {
            most
        }
    }

    /// The whole number at or above this one, zero if there is none, and no more than `most`.
    pub open spec fn ceiling_within(self, most: nat) -> nat {
        if self.is_none() || self.is_negative() {
            0
        } else if (magnitude(self.code()) + pow2(1074) - 1) as nat / pow2(1074) < most {
            (magnitude(self.code()) + pow2(1074) - 1) as nat / pow2(1074)
        } else {
            most
        }
    }
}

/// The step from one code to the next.
proof fn lemma_step(code: nat)
    ensures
        magnitude(code) < magnitude(code + 1),
        code < HIDDEN_BIT ==> magnitude(code) + magnitude(code + 1) == 2 * code + 1,
        code >= HIDDEN_BIT ==> magnitude(code) + magnitude(code + 1) == (2 * (HIDDEN_BIT + code
            % HIDDEN_BIT as nat) + 1) * pow2((code / HIDDEN_BIT as nat - 1) as nat),
{
    let h = HIDDEN_BIT as nat;
    if code < h {
        if code + 1 == h {
            vstd::arithmetic::power2::lemma2_to64();
            assert((code + 1) / h == 1 && (code + 1) % h == 0) by (nonlinear_arith)
                requires
                    code + 1 == h,
                    h > 0,
            ;
            assert(pow2((((code + 1) / h) - 1) as nat) == 1);
            assert((h + 0) * 1 == h);
            assert(magnitude(code + 1) == (h + 0) as nat * pow2(0));
        }
    } else {
        let e = (code / h - 1) as nat;
        let f = code % h;
        let p = pow2(e);
        lemma_pow2_pos(e);
        vstd::arithmetic::div_mod::lemma_fundamental_div_mod(code as int, h as int);
        if f + 1 < h {
            vstd::arithmetic::div_mod::lemma_fundamental_div_mod_converse(
                (code + 1) as int,
                h as int,
                (code / h) as int,
                (f + 1) as int,
            );
            assert((h + f + 1) * p == (h + f) * p + p) by (nonlinear_arith);
            assert((2 * (h + f) + 1) * p == (h + f) * p + (h + f + 1) * p) by (nonlinear_arith);
        } else {
            assert((code / h + 1) * h == (code / h) * h + h) by (nonlinear_arith);
            vstd::arithmetic::div_mod::lemma_fundamental_div_mod_converse(
                (code + 1) as int,
                h as int,
                (code / h + 1) as int,
                0,
            );
            vstd::arithmetic::power2::lemma_pow2_unfold(e + 1);
            assert(magnitude(code + 1) == h * pow2(e + 1));
            assert(h * (2 * p) == (h + f + 1) * p) by (nonlinear_arith)
                requires
                    f + 1 == h,
            ;
            assert((h + f + 1) * p == (h + f) * p + p) by (nonlinear_arith);
            assert((2 * (h + f) + 1) * p == (h + f) * p + (h + f + 1) * p) by (nonlinear_arith);
        }
    }
}

/// A larger code amounts to more.
pub proof fn lemma_magnitude_increases(low: nat, high: nat)
    requires
        low < high,
    ensures
        magnitude(low) < magnitude(high),
    decreases high - low,
{
    lemma_step((high - 1) as nat);
    if low + 1 < high {
        lemma_magnitude_increases(low, (high - 1) as nat);
    }
}

/// There is no more than one number closest to a quotient.
pub proof fn lemma_nearest_unique(numerator: nat, denominator: nat, left: nat, right: nat)
    requires
        denominator > 0,
        is_nearest(numerator, denominator, left),
        is_nearest(numerator, denominator, right),
    ensures
        left == right,
{
    if left <= right {
        lemma_nearest_ordered(numerator, denominator, left, right);
    } else {
        lemma_nearest_ordered(numerator, denominator, right, left);
    }
}

proof fn lemma_nearest_ordered(numerator: nat, denominator: nat, left: nat, right: nat)
    requires
        denominator > 0,
        left <= right,
        is_nearest(numerator, denominator, left),
        is_nearest(numerator, denominator, right),
    ensures
        left == right,
{
    let high = magnitude(left) + magnitude(left + 1);
    let low = magnitude((right - 1) as nat) + magnitude(right);
    if left + 1 < right {
        lemma_magnitude_increases(left, (right - 1) as nat);
        lemma_magnitude_increases(left + 1, right);
        assert(high * denominator < low * denominator) by (nonlinear_arith)
            requires
                high < low,
                denominator > 0,
        ;
    }
}

/// A number that is closest to a quotient is the one that [`nearest`] names.
pub proof fn lemma_nearest_is(numerator: nat, denominator: nat, code: nat)
    requires
        denominator > 0,
        is_nearest(numerator, denominator, code),
    ensures
        nearest(numerator, denominator) == code,
{
    lemma_nearest_unique(numerator, denominator, nearest(numerator, denominator), code);
}

/// Twice the amount of a code plus half a step, times `denominator`.
fn middle(code: u64, denominator: &Natural) -> (number: Natural)
    requires
        code < INFINITY_CODE,
    ensures
        number@ == (magnitude(code as nat) + magnitude(code as nat + 1)) * denominator@,
{
    let h: u64 = HIDDEN_BIT;
    proof {
        lemma_step(code as nat);
    }
    if code < h {
        let number = denominator.times_plus(2 * code + 1, 0);
        proof {
            let d = denominator@;
            assert(d * (2 * code + 1) == (2 * code + 1) * d) by (nonlinear_arith);
        }
        number
    } else {
        let places: u64 = code / h - 1;
        assert(places < 2046) by {
            assert(code / h <= 0x7ff0_0000_0000_0000u64 / 0x10_0000_0000_0000u64);
        }
        let factor: u64 = 2 * (h + code % h) + 1;
        let scaled = denominator.times_plus(factor, 0);
        let number = scaled.shifted(places as u32);
        proof {
            let d = denominator@;
            let p = pow2(places as nat);
            assert((d * factor) * p == (factor * p) * d) by (nonlinear_arith);
        }
        number
    }
}

/// The code of the number closest to `numerator / denominator`.
pub fn round_quotient(numerator: &Natural, denominator: &Natural) -> (code: u64)
    requires
        denominator@ > 0,
    ensures
        code as nat == nearest(numerator@, denominator@),
        is_nearest(numerator@, denominator@, code as nat),
        code <= INFINITY_CODE,
{
    let twice = numerator.shifted(1075);
    let ghost t = twice@;
    let ghost d = denominator@;
    proof {
        vstd::arithmetic::power2::lemma_pow2_unfold(1075);
        let n = numerator@;
        let p = pow2(1074);
        assert(n * (2 * p) == 2 * n * p) by (nonlinear_arith);
    }
    let mut low: u64 = 0;
    let mut high: u64 = INFINITY_CODE;
    while low < high
        invariant
            low <= high <= INFINITY_CODE,
            t == twice@,
            d == denominator@,
            d > 0,
            low > 0 ==> t > (magnitude((low - 1) as nat) + magnitude(low as nat)) * d,
            high < INFINITY_CODE ==> t <= (magnitude(high as nat) + magnitude(high as nat + 1)) * d,
        decreases high - low,
    {
        let at: u64 = low + (high - low) / 2;
        let border = middle(at, denominator);
        match twice.sizing(&border) {
            Sizing::Larger => {
                low = at + 1;
            },
            _ => {
                high = at;
            },
        }
    }
    let ghost found = low as nat;
    if low < INFINITY_CODE {
        let border = middle(low, denominator);
        match twice.sizing(&border) {
            Sizing::Same => {
                if low % 2 == 1 {
                    low = low + 1;
                    proof {
                        if low < INFINITY_CODE {
                            lemma_step(found);
                            lemma_step(found + 1);
                            let a = magnitude(found) + magnitude(found + 1);
                            let b = magnitude(found + 1) + magnitude(found + 2);
                            assert(a * d < b * d) by (nonlinear_arith)
                                requires
                                    a < b,
                                    d > 0,
                            ;
                        }
                    }
                }
            },
            _ => {},
        }
    }
    proof {
        lemma_nearest_is(numerator@, d, low as nat);
    }
    low
}

/// The digit that a character stands for.
pub open spec fn digit_value(ch: char) -> nat {
    (ch as int - '0' as int) as nat
}

/// Whether a character is a decimal digit.
pub open spec fn is_digit(ch: char) -> bool {
    '0' <= ch <= '9'
}

/// How many decimal points a text holds.
pub open spec fn points(text: Seq<char>) -> nat
    decreases text.len(),
{
    if text.len() == 0 {
        0
    } else {
        points(text.drop_last()) + if text.last() == '.' {
            1nat
        } else {
            0
        }
    }
}

/// The digits of a decimal, read as one whole number.
pub open spec fn decimal_digits(text: Seq<char>) -> nat
    decreases text.len(),
{
    if text.len() == 0 {
        0
    } else if text.last() == '.' {
        decimal_digits(text.drop_last())
    } else {
        10 * decimal_digits(text.drop_last()) + digit_value(text.last())
    }
}

/// How many digits of a decimal follow its point.
pub open spec fn decimal_places(text: Seq<char>) -> nat
    decreases text.len(),
{
    if text.len() == 0 || text.last() == '.' || points(text) == 0 {
        0
    } else {
        decimal_places(text.drop_last()) + 1
    }
}

/// Whether digits and points make up a decimal: one digit at least, and one point at most.
pub open spec fn is_decimal(text: Seq<char>) -> bool {
    &&& points(text) <= 1
    &&& text.len() > points(text)
}

/// The number closest to a decimal.
pub open spec fn decimal(text: Seq<char>) -> Number {
    signed(
        false,
        nearest(
            decimal_digits(text),
            vstd::arithmetic::power::pow(10, decimal_places(text)) as nat,
        ),
    )
}

/// Reads digits and points as a number: the one closest to the decimal, if they are one.
pub fn parse_decimal(text: &Vec<char>) -> (number: Option<Number>)
    requires
        forall|i: int| 0 <= i < text@.len() ==> is_digit(#[trigger] text@[i]) || text@[i] == '.',
    ensures
        number == (if is_decimal(text@) {
            Some(decimal(text@))
        } else {
            None
        }),
{
    let mut whole = Natural::from_word(0);
    let mut scale = Natural::from_word(1);
    let mut seen: bool = false;
    let mut digits: bool = false;
    let mut i: usize = 0;
    proof {
        reveal(vstd::arithmetic::power::pow);
        assert(text@.take(0) =~= Seq::<char>::empty());
    }
    while i < text.len()
        invariant
            i <= text@.len(),
            forall|j: int|
                0 <= j < text@.len() ==> is_digit(#[trigger] text@[j]) || text@[j] == '.',
            points(text@.take(i as int)) <= 1,
            seen == (points(text@.take(i as int)) == 1),
            digits == (i > points(text@.take(i as int))),
            whole@ == decimal_digits(text@.take(i as int)),
            scale@ == vstd::arithmetic::power::pow(10, decimal_places(text@.take(i as int))),
            scale@ > 0,
        decreases text.len() - i,
    {
        let ch: char = text[i];
        let ghost before = text@.take(i as int);
        let ghost after = text@.take(i + 1);
        proof {
            assert(after.drop_last() =~= before);
            assert(after.last() == ch);
            reveal(vstd::arithmetic::power::pow);
        }
        if ch == '.' {
            if seen {
                proof {
                    lemma_points_grow(text@, i + 1);
                }
                return None;
            }
            seen = true;
            proof {
                lemma_no_points_no_places(before);
            }
        } else {
            digits = true;
            let digit: u64 = (ch as u32 - '0' as u32) as u64;
            whole = whole.times_plus(10, digit);
            if seen {
                scale = scale.times_plus(10, 0);
            }
            proof {
                lemma_points_len(before);
                if !seen {
                    lemma_no_points_no_places(before);
                    lemma_no_points_no_places(after);
                }
            }
        }
        i = i + 1;
    }
    assert(text@.take(i as int) =~= text@);
    if !digits {
        return None;
    }
    Some(Number { bits: round_quotient(&whole, &scale) })
}

proof fn lemma_points_grow(text: Seq<char>, at: int)
    requires
        0 <= at <= text.len(),
    ensures
        points(text.take(at)) <= points(text),
    decreases text.len(),
{
    if at == text.len() {
        assert(text.take(at) =~= text);
    } else {
        lemma_points_grow(text.drop_last(), at);
        assert(text.drop_last().take(at) =~= text.take(at));
    }
}

proof fn lemma_points_len(text: Seq<char>)
    ensures
        points(text) <= text.len(),
    decreases text.len(),
{
    if text.len() > 0 {
        lemma_points_len(text.drop_last());
    }
}

proof fn lemma_no_points_no_places(text: Seq<char>)
    requires
        points(text) == 0,
    ensures
        decimal_places(text) == 0,
{
}

impl Number {
    /// The number closest to a natural number.
    pub fn from_natural(natural: u64) -> (number: Number)
        ensures
            number == of_integer(natural as int),
            number.is_unsigned(),
    {
        Number { bits: round_quotient(&Natural::from_word(natural), &Natural::from_word(1)) }
    }

    /// The number closest to an integer.
    pub fn from_integer(integer: i64) -> (number: Number)
        ensures
            number == of_integer(integer as int),
    {
        if integer < 0 {
            let opposite: u64 = (-(integer as i128)) as u64;
            let code = round_quotient(&Natural::from_word(opposite), &Natural::from_word(1));
            Number { bits: code + SIGN_BIT }
        } else {
            Number::from_natural(integer as u64)
        }
    }

    /// The number closest to the difference of two integers.
    pub fn from_difference(left: i64, right: i64) -> (number: Number)
        ensures
            number == of_integer(left - right),
    {
        let difference: i128 = left as i128 - right as i128;
        if difference < 0 {
            let opposite: u64 = (-difference) as u64;
            let code = round_quotient(&Natural::from_word(opposite), &Natural::from_word(1));
            Number { bits: code + SIGN_BIT }
        } else {
            Number::from_natural(difference as u64)
        }
    }

    /// The bits without the sign.
    fn unsigned_bits(self) -> (code: u64)
        ensures
            code as nat == self.code(),
            code < SIGN_BIT,
            self.bits == code + (if self.is_negative() {
                SIGN_BIT
            } else {
                0u64
            }),
    {
        if self.bits >= SIGN_BIT {
            self.bits - SIGN_BIT
        } else {
            self.bits
        }
    }

    /// Whether this is no number.
    pub fn none(self) -> (none: bool)
        ensures
            none == self.is_none(),
    {
        self.unsigned_bits() > INFINITY_CODE
    }

    /// Whether this is a number, and a finite one.
    pub fn finite(self) -> (finite: bool)
        ensures
            finite == (!self.is_none() && !self.is_infinite()),
    {
        self.unsigned_bits() < INFINITY_CODE
    }

    /// `self < other`.
    pub fn less(self, other: Number) -> (less: bool)
        ensures
            less == self.is_less(other),
    {
        let left = self.unsigned_bits();
        let right = other.unsigned_bits();
        proof {
            lemma_codes_compare(left as nat, right as nat);
            lemma_codes_compare(0, left as nat);
            lemma_codes_compare(0, right as nat);
        }
        if left > INFINITY_CODE || right > INFINITY_CODE {
            return false;
        }
        if self.bits < SIGN_BIT {
            other.bits < SIGN_BIT && left < right
        } else if other.bits < SIGN_BIT {
            left > 0 || right > 0
        } else {
            right < left
        }
    }

    /// `self == other`.
    pub fn same(self, other: Number) -> (same: bool)
        ensures
            same == self.is_same(other),
    {
        let left = self.unsigned_bits();
        let right = other.unsigned_bits();
        proof {
            lemma_codes_compare(left as nat, right as nat);
            lemma_codes_compare(0, left as nat);
            lemma_codes_compare(0, right as nat);
        }
        if left > INFINITY_CODE || right > INFINITY_CODE {
            return false;
        }
        left == right && (left == 0 || (self.bits < SIGN_BIT) == (other.bits < SIGN_BIT))
    }

    /// The number with a sign and a code.
    fn compose(negative: bool, code: u64) -> (number: Number)
        requires
            code <= INFINITY_CODE,
        ensures
            number == signed(negative, code as nat),
    {
        if negative {
            Number { bits: code + SIGN_BIT }
        } else {
            Number { bits: code }
        }
    }

    /// `self * other`.
    pub fn times(self, other: Number) -> (number: Number)
        ensures
            number == self.product(other),
    {
        let left = self.unsigned_bits();
        let right = other.unsigned_bits();
        let negative: bool = (self.bits >= SIGN_BIT) != (other.bits >= SIGN_BIT);
        if left > INFINITY_CODE || right > INFINITY_CODE {
            return Number { bits: NAN_BITS };
        }
        if left == INFINITY_CODE || right == INFINITY_CODE {
            if left == 0 || right == 0 {
                return Number { bits: NAN_BITS };
            }
            return Number::compose(negative, INFINITY_CODE);
        }
        let (word, places) = split_code(right);
        let numerator = amount_of(left).times_plus(word, 0).shifted(places);
        let denominator = Natural::from_word(1).shifted(2148);
        proof {
            lemma_pow2_pos(2148);
            let a = magnitude(left as nat);
            let w = word as nat;
            let p = pow2(places as nat);
            assert((a * w) * p == a * (w * p)) by (nonlinear_arith);
        }
        Number::compose(negative, round_quotient(&numerator, &denominator))
    }

    /// `self / other`.
    pub fn over(self, other: Number) -> (number: Number)
        ensures
            number == self.quotient(other),
    {
        let left = self.unsigned_bits();
        let right = other.unsigned_bits();
        let negative: bool = (self.bits >= SIGN_BIT) != (other.bits >= SIGN_BIT);
        if left > INFINITY_CODE || right > INFINITY_CODE {
            return Number { bits: NAN_BITS };
        }
        if left == INFINITY_CODE {
            if right == INFINITY_CODE {
                return Number { bits: NAN_BITS };
            }
            return Number::compose(negative, INFINITY_CODE);
        }
        if right == INFINITY_CODE {
            return Number::compose(negative, 0);
        }
        if right == 0 {
            if left == 0 {
                return Number { bits: NAN_BITS };
            }
            return Number::compose(negative, INFINITY_CODE);
        }
        let numerator = amount_of(left);
        let denominator = amount_of(right);
        proof {
            lemma_codes_compare(0, right as nat);
        }
        Number::compose(negative, round_quotient(&numerator, &denominator))
    }

    /// `self + other`, of numbers without a sign.
    pub fn plus(self, other: Number) -> (number: Number)
        requires
            self.is_unsigned(),
            other.is_unsigned(),
        ensures
            number == self.sum(other),
            number.is_unsigned(),
    {
        if self.bits == INFINITY_CODE || other.bits == INFINITY_CODE {
            return Number { bits: INFINITY_CODE };
        }
        let numerator = amount_of(self.bits).plus(&amount_of(other.bits));
        let denominator = Natural::from_word(1).shifted(1074);
        proof {
            lemma_pow2_pos(1074);
        }
        Number { bits: round_quotient(&numerator, &denominator) }
    }

    /// The whole number at or below this one, from zero to `most`.
    pub fn floor(self, most: u64) -> (whole: u64)
        ensures
            whole as nat == self.floor_within(most as nat),
    {
        let code = self.unsigned_bits();
        if code > INFINITY_CODE || self.bits >= SIGN_BIT {
            return 0;
        }
        let amount = amount_of(code);
        let mut low: u64 = 0;
        let mut high: u64 = most;
        let ghost p = pow2(1074);
        proof {
            lemma_pow2_pos(1074);
            assert(0 * p == 0);
        }
        while low < high
            invariant
                low <= high <= most,
                p == pow2(1074),
                amount@ == magnitude(code as nat),
                low * p <= amount@,
                high < most ==> amount@ < (high + 1) * p,
            decreases high - low,
        {
            let at: u64 = low + (high - low) / 2 + 1;
            let border = Natural::from_word(at).shifted(1074);
            match amount.sizing(&border) {
                Sizing::Smaller => {
                    high = at - 1;
                },
                _ => {
                    low = at;
                },
            }
        }
        proof {
            lemma_floor(amount@, p, low as nat, most as nat);
        }
        low
    }

    /// The whole number at or above this one, from zero to `most`.
    pub fn ceiling(self, most: u64) -> (whole: u64)
        ensures
            whole as nat == self.ceiling_within(most as nat),
    {
        let code = self.unsigned_bits();
        if code > INFINITY_CODE || self.bits >= SIGN_BIT {
            return 0;
        }
        let amount = amount_of(code);
        let mut low: u64 = 0;
        let mut high: u64 = most;
        let ghost p = pow2(1074);
        proof {
            lemma_pow2_pos(1074);
        }
        while low < high
            invariant
                low <= high <= most,
                p == pow2(1074),
                amount@ == magnitude(code as nat),
                low > 0 ==> (low - 1) * p < amount@,
                high < most ==> amount@ <= high * p,
            decreases high - low,
        {
            let at: u64 = low + (high - low) / 2;
            let border = Natural::from_word(at).shifted(1074);
            match amount.sizing(&border) {
                Sizing::Larger => {
                    low = at + 1;
                },
                _ => {
                    high = at;
                },
            }
        }
        proof {
            let up = (amount@ + p - 1) as nat;
            assert(low * p <= up) by (nonlinear_arith)
                requires
                    low > 0 ==> (low - 1) * p < amount@,
                    up == amount@ + p - 1,
                    p > 0,
            ;
            if low < most {
                assert(up < (low + 1) * p) by (nonlinear_arith)
                    requires
                        amount@ <= low * p,
                        up == amount@ + p - 1,
                        p > 0,
                ;
            }
            lemma_floor(up, p, low as nat, most as nat);
        }
        low
    }
}

proof fn lemma_floor(amount: nat, unit: nat, low: nat, most: nat)
    requires
        unit > 0,
        low <= most,
        low * unit <= amount,
        low < most ==> amount < (low + 1) * unit,
    ensures
        low == (if amount / unit < most {
            amount / unit
        } else {
            most
        }),
{
    if low < most {
        assert((low + 1) * unit == low * unit + unit) by (nonlinear_arith);
        vstd::arithmetic::div_mod::lemma_fundamental_div_mod_converse(
            amount as int,
            unit as int,
            low as int,
            amount - low * unit,
        );
    } else {
        vstd::arithmetic::div_mod::lemma_fundamental_div_mod(amount as int, unit as int);
        let q = amount / unit;
        let r = amount % unit;
        if q < low {
            assert(q * unit + unit <= low * unit) by (nonlinear_arith)
                requires
                    q + 1 <= low,
                    unit > 0,
            ;
            assert(unit * q == q * unit) by (nonlinear_arith);
        }
    }
}

proof fn lemma_codes_compare(left: nat, right: nat)
    ensures
        (left < right) == (magnitude(left) < magnitude(right)),
        (left == right) == (magnitude(left) == magnitude(right)),
{
    if left < right {
        lemma_magnitude_increases(left, right);
    } else if right < left {
        lemma_magnitude_increases(right, left);
    }
}

/// A code's magnitude as a word times a power of two.
fn split_code(code: u64) -> (parts: (u64, u32))
    requires
        code <= INFINITY_CODE,
    ensures
        magnitude(code as nat) == parts.0 * pow2(parts.1 as nat),
{
    let h: u64 = HIDDEN_BIT;
    if code < h {
        proof {
            vstd::arithmetic::power2::lemma2_to64();
            assert(code * 1 == code);
        }
        (code, 0)
    } else {
        let places: u64 = code / h - 1;
        assert(places < 2047) by {
            assert(code / h <= 0x7ff0_0000_0000_0000u64 / 0x10_0000_0000_0000u64);
        }
        (h + code % h, places as u32)
    }
}

/// The magnitude of a code.
fn amount_of(code: u64) -> (amount: Natural)
    requires
        code <= INFINITY_CODE,
    ensures
        amount@ == magnitude(code as nat),
{
    let (word, places) = split_code(code);
    Natural::from_word(word).shifted(places)
}

/// Digits and points make up a decimal if there is a digit among them and one point at most.
pub proof fn law_decimals_have_one_point(text: Seq<char>)
    requires
        text.len() > 0,
        '0' <= text[0] <= '9',
    ensures
        is_decimal(text) <==> text.filter(|ch: char| ch == '.').len() <= 1,
{
    lemma_points_counted(text);
    lemma_points_leave_first(text);
}

proof fn lemma_points_counted(text: Seq<char>)
    ensures
        points(text) == text.filter(|ch: char| ch == '.').len(),
    decreases text.len(),
{
    reveal(Seq::filter);
    if text.len() > 0 {
        lemma_points_counted(text.drop_last());
    }
}

proof fn lemma_points_leave_first(text: Seq<char>)
    requires
        text.len() > 0,
        '0' <= text[0] <= '9',
    ensures
        points(text) < text.len(),
    decreases text.len(),
{
    if text.len() > 1 {
        assert(text.drop_last()[0] == text[0]);
        lemma_points_leave_first(text.drop_last());
    } else {
        assert(text.drop_last().len() == 0);
        assert(points(text.drop_last()) == 0);
        assert(text.last() == text[0]);
    }
}

/// What a decimal amounts to: one more digit before the point makes ten times as much and the digit
/// on top; digits behind the point count tenths, hundredths and so on.
pub proof fn law_digits_count_by_their_place(text: Seq<char>, digit: char)
    requires
        '0' <= digit <= '9',
    ensures
        decimal_digits(Seq::empty()) == 0,
        decimal_digits(text.push(digit)) == 10 * decimal_digits(text) + (digit as int - '0' as int),
        decimal_digits(text.push('.')) == decimal_digits(text),
        decimal_places(text.push(digit)) == (if text.contains('.') {
            decimal_places(text) + 1
        } else {
            0
        }),
        decimal_places(text.push('.')) == 0,
        decimal(text) == signed(
            false,
            nearest(
                decimal_digits(text),
                vstd::arithmetic::power::pow(10, decimal_places(text)) as nat,
            ),
        ),
{
    assert(text.push(digit).drop_last() =~= text);
    assert(text.push('.').drop_last() =~= text);
    lemma_points_contained(text);
}

proof fn lemma_points_contained(text: Seq<char>)
    ensures
        points(text) > 0 <==> text.contains('.'),
    decreases text.len(),
{
    if text.len() > 0 {
        let before = text.drop_last();
        lemma_points_contained(before);
        if before.contains('.') {
            let i = choose|i: int| 0 <= i < before.len() && before[i] == '.';
            assert(text[i] == '.');
        }
        if text.contains('.') && text.last() != '.' {
            let i = choose|i: int| 0 <= i < text.len() && text[i] == '.';
            assert(before[i] == '.');
        }
        assert(text[text.len() - 1] == text.last());
    }
}

proof fn lemma_exact(numerator: nat, denominator: nat, code: nat)
    requires
        denominator > 0,
        code < INFINITY_CODE,
        magnitude(code) * denominator == numerator * pow2(1074),
    ensures
        nearest(numerator, denominator) == code,
{
    let amount = magnitude(code);
    let above = magnitude(code + 1);
    lemma_step(code);
    assert(2 * numerator * pow2(1074) == 2 * (amount * denominator)) by (nonlinear_arith)
        requires
            amount * denominator == numerator * pow2(1074),
    ;
    assert(2 * (amount * denominator) < (amount + above) * denominator) by (nonlinear_arith)
        requires
            amount < above,
            denominator > 0,
    ;
    if code > 0 {
        let below = magnitude((code - 1) as nat);
        lemma_step((code - 1) as nat);
        assert((below + amount) * denominator < 2 * (amount * denominator)) by (nonlinear_arith)
            requires
                below < amount,
                denominator > 0,
        ;
    }
    lemma_nearest_is(numerator, denominator, code);
}

/// The code of a whole number of at most 53 bits, times a power of two.
proof fn lemma_scaled(whole: nat, exponent: nat) -> (code: nat)
    requires
        0 < whole < 2 * HIDDEN_BIT,
    ensures
        0 < code < (exponent + 2) * HIDDEN_BIT,
        magnitude(code) == whole * pow2(exponent),
    decreases exponent,
{
    let h = HIDDEN_BIT as nat;
    if whole >= h {
        let code = (exponent + 1) * h + (whole - h) as nat;
        vstd::arithmetic::div_mod::lemma_fundamental_div_mod_converse(
            code as int,
            h as int,
            (exponent + 1) as int,
            whole - h,
        );
        assert(h <= (exponent + 1) * h) by (nonlinear_arith);
        assert((exponent + 2) * h == (exponent + 1) * h + h) by (nonlinear_arith);
        code
    } else if exponent == 0 {
        vstd::arithmetic::power2::lemma2_to64();
        whole
    } else {
        let code = lemma_scaled(2 * whole, (exponent - 1) as nat);
        vstd::arithmetic::power2::lemma_pow2_unfold(exponent);
        let half = pow2((exponent - 1) as nat);
        assert(2 * whole * half == whole * (2 * half)) by (nonlinear_arith);
        assert((exponent + 1) * h < (exponent + 2) * h) by (nonlinear_arith)
            requires
                h > 0,
        ;
        code
    }
}

/// The code of a whole number.
proof fn lemma_whole(whole: nat) -> (code: nat)
    requires
        whole <= 9_007_199_254_740_992,
    ensures
        code < INFINITY_CODE,
        code == 0 <==> whole == 0,
        magnitude(code) == whole * pow2(1074),
        nearest(whole, 1) == code,
{
    let code = if whole == 0 {
        0
    } else if whole < 2 * HIDDEN_BIT {
        lemma_scaled(whole, 1074)
    } else {
        let half = pow2(1074);
        vstd::arithmetic::power2::lemma_pow2_unfold(1075);
        assert(HIDDEN_BIT as nat * (2 * half) == whole * half) by (nonlinear_arith)
            requires
                whole == 2 * (HIDDEN_BIT as nat),
        ;
        lemma_scaled(HIDDEN_BIT as nat, 1075)
    };
    lemma_exact(whole, 1, code);
    code
}

proof fn lemma_signed(negative: bool, code: nat)
    requires
        code <= INFINITY_CODE,
    ensures
        signed(negative, code).code() == code,
        signed(negative, code).is_negative() == negative,
        !signed(negative, code).is_none(),
{
}

/// Whole numbers of up to 53 bits are held exactly.
pub proof fn law_integers_are_exact(integer: int)
    requires
        -9_007_199_254_740_992 <= integer <= 9_007_199_254_740_992,
    ensures
        of_integer(integer).amount() == integer * pow2(1074),
        !of_integer(integer).is_none(),
        !of_integer(integer).is_infinite(),
{
    let whole: nat = if integer < 0 {
        (-integer) as nat
    } else {
        integer as nat
    };
    let code = lemma_whole(whole);
    lemma_signed(integer < 0, code);
    assert(-(whole * pow2(1074)) == (-whole) * pow2(1074)) by (nonlinear_arith);
}

/// Whole numbers compare as integers do.
pub proof fn law_integers_are_compared(left: int, right: int)
    requires
        -9_007_199_254_740_992 <= left <= 9_007_199_254_740_992,
        -9_007_199_254_740_992 <= right <= 9_007_199_254_740_992,
    ensures
        of_integer(left).is_less(of_integer(right)) <==> left < right,
        of_integer(left).is_same(of_integer(right)) <==> left == right,
{
    law_integers_are_exact(left);
    law_integers_are_exact(right);
    let one = pow2(1074);
    lemma_pow2_pos(1074);
    if left < right {
        assert(left * one < right * one) by (nonlinear_arith)
            requires
                left < right,
                one > 0,
        ;
    } else if right < left {
        assert(right * one < left * one) by (nonlinear_arith)
            requires
                right < left,
                one > 0,
        ;
    }
}

proof fn lemma_parts(integer: int) -> (whole: nat)
    requires
        -9_007_199_254_740_992 <= integer <= 9_007_199_254_740_992,
    ensures
        whole == if integer < 0 {
            -integer
        } else {
            integer
        },
        of_integer(integer).is_negative() == (integer < 0),
        of_integer(integer).code() == nearest(whole, 1),
        of_integer(integer).code() < INFINITY_CODE,
        of_integer(integer).code() == 0 <==> integer == 0,
        magnitude(of_integer(integer).code()) == whole * pow2(1074),
{
    let whole: nat = if integer < 0 {
        (-integer) as nat
    } else {
        integer as nat
    };
    let code = lemma_whole(whole);
    lemma_signed(integer < 0, code);
    whole
}

/// Whole numbers multiply as integers do.
pub proof fn law_integers_are_multiplied(left: int, right: int)
    requires
        -9_007_199_254_740_992 <= left <= 9_007_199_254_740_992,
        -9_007_199_254_740_992 <= right <= 9_007_199_254_740_992,
        -9_007_199_254_740_992 <= left * right <= 9_007_199_254_740_992,
    ensures
        of_integer(left).product(of_integer(right)).is_same(of_integer(left * right)),
{
    let a = lemma_parts(left);
    let b = lemma_parts(right);
    let c = lemma_parts(left * right);
    let one = pow2(1074);
    let code = of_integer(left * right).code();
    lemma_pow2_adds(1074, 1074);
    lemma_pow2_pos(2148);
    assert(c == a * b) by (nonlinear_arith)
        requires
            a == if left < 0 {
                -left
            } else {
                left
            },
            b == if right < 0 {
                -right
            } else {
                right
            },
            c == if left * right < 0 {
                -(left * right)
            } else {
                left * right
            },
    ;
    assert((c * one) * (one * one) == ((a * one) * (b * one)) * one) by (nonlinear_arith)
        requires
            c == a * b,
    ;
    lemma_exact(
        magnitude(of_integer(left).code()) * magnitude(of_integer(right).code()),
        pow2(2148),
        code,
    );
    let negative = (left < 0) != (right < 0);
    lemma_signed(negative, code);
    assert(left != 0 && right != 0 ==> (left * right < 0) == negative) by (nonlinear_arith)
        requires
            negative == ((left < 0) != (right < 0)),
    ;
    assert(left == 0 || right == 0 ==> left * right == 0) by (nonlinear_arith);
}

/// Dividing undoes multiplying.
pub proof fn law_integers_are_divided(left: int, right: int)
    requires
        -9_007_199_254_740_992 <= left <= 9_007_199_254_740_992,
        -9_007_199_254_740_992 <= right <= 9_007_199_254_740_992,
        -9_007_199_254_740_992 <= left * right <= 9_007_199_254_740_992,
        right != 0,
    ensures
        of_integer(left * right).quotient(of_integer(right)).is_same(of_integer(left)),
{
    let a = lemma_parts(left);
    let b = lemma_parts(right);
    let c = lemma_parts(left * right);
    let one = pow2(1074);
    let code = of_integer(left).code();
    lemma_pow2_pos(1074);
    assert(c == a * b) by (nonlinear_arith)
        requires
            a == if left < 0 {
                -left
            } else {
                left
            },
            b == if right < 0 {
                -right
            } else {
                right
            },
            c == if left * right < 0 {
                -(left * right)
            } else {
                left * right
            },
    ;
    assert((a * one) * (b * one) == (c * one) * one) by (nonlinear_arith)
        requires
            c == a * b,
    ;
    assert(b * one > 0) by (nonlinear_arith)
        requires
            b > 0,
            one > 0,
    ;
    lemma_exact(c * one, b * one, code);
    let negative = (left * right < 0) != (right < 0);
    lemma_signed(negative, code);
    assert(left != 0 ==> (left < 0) == negative) by (nonlinear_arith)
        requires
            right != 0,
            negative == ((left * right < 0) != (right < 0)),
    ;
}

/// Whole numbers add as integers do.
pub proof fn law_integers_are_added(left: int, right: int)
    requires
        0 <= left,
        0 <= right,
        left + right <= 9_007_199_254_740_992,
    ensures
        of_integer(left).sum(of_integer(right)).is_same(of_integer(left + right)),
{
    let a = lemma_parts(left);
    let b = lemma_parts(right);
    let c = lemma_parts(left + right);
    let one = pow2(1074);
    let code = of_integer(left + right).code();
    lemma_pow2_pos(1074);
    assert((c * one) * one == (a * one + b * one) * one) by (nonlinear_arith)
        requires
            c == a + b,
    ;
    lemma_exact(a * one + b * one, one, code);
    lemma_signed(false, code);
}

/// How far a code is from `numerator / denominator`.
pub open spec fn distance(numerator: nat, denominator: nat, code: nat) -> int {
    let off = numerator * pow2(1074) - magnitude(code) * denominator;
    if off < 0 {
        -off
    } else {
        off
    }
}

/// Of all numbers the nearest one is closest, and of two equally close ones it is the even one.
pub proof fn law_nearest_is_closest(numerator: nat, denominator: nat, code: nat, other: nat)
    requires
        denominator > 0,
        is_nearest(numerator, denominator, code),
        other <= INFINITY_CODE,
        other != code,
    ensures
        distance(numerator, denominator, code) < distance(numerator, denominator, other) || (
        distance(numerator, denominator, code) == distance(numerator, denominator, other) && code
            % 2 == 0),
{
    let amount = magnitude(code);
    let exact = numerator * pow2(1074);
    assert(2 * numerator * pow2(1074) == 2 * exact) by (nonlinear_arith)
        requires
            exact == numerator * pow2(1074),
    ;
    if other > code {
        let next = magnitude(code + 1);
        lemma_step(code);
        if other > code + 1 {
            lemma_magnitude_increases(code + 1, other);
        }
        let far = magnitude(other);
        assert((amount + next) * denominator == amount * denominator + next * denominator)
            by (nonlinear_arith);
        assert(amount * denominator < far * denominator && next * denominator <= far * denominator)
            by (nonlinear_arith)
            requires
                amount < next <= far,
                denominator > 0,
        ;
    } else {
        let next = magnitude((code - 1) as nat);
        lemma_step((code - 1) as nat);
        if other < code - 1 {
            lemma_magnitude_increases(other, (code - 1) as nat);
        }
        let far = magnitude(other);
        assert((next + amount) * denominator == next * denominator + amount * denominator)
            by (nonlinear_arith);
        assert(far * denominator < amount * denominator && far * denominator <= next * denominator)
            by (nonlinear_arith)
            requires
                far <= next < amount,
                denominator > 0,
        ;
    }
}

/// Of two numbers one is less, or they are the same; what is no number is neither.
pub proof fn law_numbers_are_ordered(left: Number, right: Number, other: Number)
    ensures
        !left.is_none() && !right.is_none() ==> left.is_less(right) || left.is_same(right)
            || right.is_less(left),
        left.is_less(right) ==> !left.is_same(right) && !right.is_less(left),
        left.is_less(right) && right.is_less(other) ==> left.is_less(other),
        left.is_less(right) && right.is_same(other) ==> left.is_less(other),
        left.is_same(right) ==> right.is_same(left),
        left.is_none() || right.is_none() ==> !left.is_less(right) && !left.is_same(right),
        left.is_none() <==> !left.is_same(left),
{
}

/// The whole number at or below a number, and that at or above it: neither is further away than one,
/// and they stay below the given bound.
pub proof fn law_whole_numbers_enclose(number: Number, most: nat)
    ensures
        number.floor_within(most) <= most,
        number.ceiling_within(most) <= most,
        number.is_none() || number.is_negative() ==> number.floor_within(most) == 0
            && number.ceiling_within(most) == 0,
        !number.is_none() && !number.is_negative() ==> ({
            let down = number.floor_within(most);
            let up = number.ceiling_within(most);
            let one = pow2(1074);
            &&& down * one <= number.amount()
            &&& down < most ==> number.amount() < (down + 1) * one
            &&& up > 0 ==> (up - 1) * one < number.amount()
            &&& up < most ==> number.amount() <= up * one
        }),
{
    let amount = magnitude(number.code());
    let one = pow2(1074);
    lemma_pow2_pos(1074);
    let whole = amount / one;
    let top = (amount + one - 1) as nat;
    let next = top / one;
    vstd::arithmetic::div_mod::lemma_fundamental_div_mod(amount as int, one as int);
    vstd::arithmetic::div_mod::lemma_fundamental_div_mod(top as int, one as int);
    assert(one * whole == whole * one && (whole + 1) * one == whole * one + one)
        by (nonlinear_arith);
    assert(one * next == next * one && (next - 1) * one == next * one - one) by (nonlinear_arith);
    if most <= whole {
        assert(most * one <= whole * one) by (nonlinear_arith)
            requires
                most <= whole,
        ;
    }
    if most <= next {
        assert((most - 1) * one <= (next - 1) * one) by (nonlinear_arith)
            requires
                most <= next,
        ;
    }
}

/// A decimal has a digit, wherever it stands, and one point at most.
pub proof fn law_decimals_have_a_digit(text: Seq<char>)
    ensures
        is_decimal(text) <==> text.filter(|ch: char| ch == '.').len() <= 1 && exists|i: int|
            0 <= i < text.len() && #[trigger] text[i] != '.',
{
    lemma_points_counted(text);
    lemma_points_fill(text);
}

proof fn lemma_points_fill(text: Seq<char>)
    ensures
        points(text) <= text.len(),
        points(text) == text.len() <==> forall|i: int|
            0 <= i < text.len() ==> #[trigger] text[i] == '.',
    decreases text.len(),
{
    if text.len() > 0 {
        let front = text.drop_last();
        lemma_points_fill(front);
        assert forall|i: int| 0 <= i < front.len() implies front[i] == text[i] by {}
        if points(text) == text.len() {
            assert forall|i: int| 0 <= i < text.len() implies #[trigger] text[i] == '.' by {
                if i < front.len() {
                    assert(front[i] == '.');
                }
            }
        }
        if forall|i: int| 0 <= i < text.len() ==> #[trigger] text[i] == '.' {
            assert(text.last() == '.');
            assert forall|i: int| 0 <= i < front.len() implies #[trigger] front[i] == '.' by {
                assert(text[i] == '.');
            }
        }
    }
}

/// What comes of infinities, zeros and what is no number: no number comes of no number, of infinity
/// times or over nothing but its like, and of zero over zero; infinity comes of infinity else, and of
/// a number over zero; zero comes of a number over infinity. Signs multiply.
pub proof fn law_limits_of_numbers(left: Number, right: Number)
    ensures
        left.is_none() || right.is_none() ==> left.product(right).is_none() && left.quotient(
            right,
        ).is_none(),
        !left.is_none() && !right.is_none() ==> ({
            let negative = left.is_negative() != right.is_negative();
            let product = left.product(right);
            let quotient = left.quotient(right);
            let endless = left.is_infinite() || right.is_infinite();
            let nothing = left.code() == 0 || right.code() == 0;
            &&& endless && nothing ==> product.is_none()
            &&& endless && !nothing ==> product.is_infinite() && product.is_negative() == negative
            &&& left.is_infinite() && right.is_infinite() ==> quotient.is_none()
            &&& left.is_infinite() && !right.is_infinite() ==> quotient.is_infinite()
                && quotient.is_negative() == negative
            &&& !left.is_infinite() && right.is_infinite() ==> quotient.amount() == 0
            &&& left.code() == 0 && right.code() == 0 ==> quotient.is_none()
            &&& !left.is_infinite() && left.code() > 0 && right.code() == 0
                ==> quotient.is_infinite() && quotient.is_negative() == negative
        }),
        left.is_infinite() || right.is_infinite() ==> left.sum(right).is_infinite() && !left.sum(
            right,
        ).is_negative(),
        left.code() == 0 ==> left.amount() == 0,
{
}

} // verus!
