//! Natural numbers of any size, as far as exact rounding needs them: multiplication by a
//! machine word, multiplication by a power of two, addition and comparison.

use vstd::arithmetic::power2::{lemma_pow2_adds, lemma_pow2_pos, pow2};
use vstd::prelude::*;

verus! {

/// The base in which the digits of a [`Natural`] are written.
pub open spec fn base() -> nat {
    0x1_0000_0000
}

/// The number that a sequence of digits stands for, least significant digit first.
pub open spec fn digits_value(digits: Seq<u32>) -> nat
    decreases digits.len(),
{
    if digits.len() == 0 {
        0
    } else {
        digits[0] as nat + base() * digits_value(digits.drop_first())
    }
}

/// How two numbers lie to one another.
#[derive(Clone, Copy, PartialEq, Eq, Structural, Debug)]
pub enum Sizing {
    Smaller,
    Same,
    Larger,
}

/// A natural number of any size.
pub struct Natural {
    digits: Vec<u32>,
}

impl View for Natural {
    type V = nat;

    closed spec fn view(&self) -> nat {
        digits_value(self.digits@)
    }
}

proof fn lemma_one_times(one: nat, number: nat)
    requires
        one == 1,
    ensures
        one * number == number,
{
    assert(one * number == number) by (nonlinear_arith)
        requires
            one == 1,
    ;
}

proof fn lemma_value_push(digits: Seq<u32>, top: u32)
    ensures
        digits_value(digits.push(top)) == digits_value(digits) + pow2(32 * digits.len()) * top,
    decreases digits.len(),
{
    if digits.len() == 0 {
        vstd::arithmetic::power2::lemma2_to64();
        assert(digits.push(top).drop_first() =~= Seq::<u32>::empty());
        reveal_with_fuel(digits_value, 2);
        lemma_one_times(pow2(32 * digits.len()), top as nat);
    } else {
        let rest = digits.drop_first();
        lemma_value_push(rest, top);
        assert(digits.push(top).drop_first() =~= rest.push(top));
        vstd::arithmetic::power2::lemma2_to64();
        lemma_pow2_adds(32, 32 * rest.len());
        assert(base() * (digits_value(rest) + pow2(32 * rest.len()) * top) == base() * digits_value(
            rest,
        ) + (base() * pow2(32 * rest.len())) * top) by (nonlinear_arith);
        assert(32 + 32 * rest.len() == 32 * digits.len());
    }
}

proof fn lemma_value_split(digits: Seq<u32>, at: int)
    requires
        0 <= at <= digits.len(),
    ensures
        digits_value(digits) == digits_value(digits.take(at)) + pow2((32 * at) as nat)
            * digits_value(digits.skip(at)),
        digits_value(digits.take(at)) < pow2((32 * at) as nat),
    decreases at,
{
    if at == 0 {
        vstd::arithmetic::power2::lemma2_to64();
        assert(digits.take(0) =~= Seq::<u32>::empty());
        assert(digits.skip(0) =~= digits);
        lemma_one_times(pow2((32 * at) as nat), digits_value(digits));
    } else {
        let before = at - 1;
        lemma_value_split(digits, before);
        assert(digits.take(at) =~= digits.take(before).push(digits[before]));
        lemma_value_push(digits.take(before), digits[before]);
        assert(digits.skip(before).drop_first() =~= digits.skip(at));
        let p = pow2((32 * before) as nat);
        let d = digits[before] as nat;
        let r = digits_value(digits.skip(at));
        vstd::arithmetic::power2::lemma2_to64();
        lemma_pow2_adds((32 * before) as nat, 32);
        assert(32 * before + 32 == 32 * at);
        assert(p * (d + base() * r) == p * d + (p * base()) * r) by (nonlinear_arith);
        let low = digits_value(digits.take(before));
        assert(low + p * d < p * base()) by (nonlinear_arith)
            requires
                low < p,
                d + 1 <= base(),
        ;
    }
}

impl Natural {
    /// The natural number with the value of a machine word.
    pub fn from_word(word: u64) -> (number: Natural)
        ensures
            number@ == word,
    {
        let mut digits: Vec<u32> = Vec::new();
        digits.push((word % 0x1_0000_0000) as u32);
        digits.push((word / 0x1_0000_0000) as u32);
        proof {
            assert(digits@.drop_first().drop_first() =~= Seq::<u32>::empty());
            reveal_with_fuel(digits_value, 3);
            assert(digits@.drop_first()[0] == digits@[1]);
        }
        Natural { digits }
    }


    /// `self * factor + addend`.
    pub fn times_plus(&self, factor: u64, addend: u64) -> (number: Natural)
        ensures
            number@ == self@ * factor + addend,
    {
        let mut digits: Vec<u32> = Vec::new();
        let mut carry: u64 = addend;
        let mut i: usize = 0;
        proof {
            assert(self.digits@.take(0) =~= Seq::<u32>::empty());
            vstd::arithmetic::power2::lemma2_to64();
            lemma_one_times(pow2((32 * i) as nat), carry as nat);
            assert(0 * factor == 0);
        }
        while i < self.digits.len()
            invariant
                i <= self.digits@.len(),
                digits@.len() == i,
                digits_value(digits@) + pow2((32 * i) as nat) * carry == digits_value(
                    self.digits@.take(i as int),
                ) * factor + addend,
            decreases self.digits.len() - i,
        {
            let digit: u32 = self.digits[i];
            assert(digit * factor + carry <= 0xffff_ffff * 0xffff_ffff_ffff_ffff
                + 0xffff_ffff_ffff_ffff) by (nonlinear_arith)
                requires
                    digit <= 0xffff_ffff,
                    factor <= 0xffff_ffff_ffff_ffff,
                    carry <= 0xffff_ffff_ffff_ffff,
            ;
            let wide: u128 = (digit as u128) * (factor as u128) + (carry as u128);
            let low: u32 = (wide % 0x1_0000_0000) as u32;
            let high: u64 = (wide / 0x1_0000_0000) as u64;
            proof {
                let before = digits@;
                lemma_value_push(before, low);
                assert(self.digits@.take(i + 1) =~= self.digits@.take(i as int).push(digit));
                lemma_value_push(self.digits@.take(i as int), digit);
                vstd::arithmetic::power2::lemma2_to64();
                lemma_pow2_adds((32 * i) as nat, 32);
                assert(32 * i + 32 == 32 * (i + 1));
                let p = pow2((32 * i) as nat) as int;
                let a = digits_value(before) as int;
                let s = digits_value(self.digits@.take(i as int)) as int;
                assert(wide == low + 0x1_0000_0000 * high);
                assert(a + p * low + (p * 0x1_0000_0000) * high == (s + p * digit) * factor
                    + addend) by (nonlinear_arith)
                    requires
                        a + p * carry == s * factor + addend,
                        digit * factor + carry == low + 0x1_0000_0000 * high,
                ;
            }
            digits.push(low);
            carry = high;
            i = i + 1;
        }
        let low: u32 = (carry % 0x1_0000_0000) as u32;
        let high: u32 = (carry / 0x1_0000_0000) as u32;
        proof {
            assert(self.digits@.take(i as int) =~= self.digits@);
            lemma_value_push(digits@, low);
            lemma_value_push(digits@.push(low), high);
            vstd::arithmetic::power2::lemma2_to64();
            lemma_pow2_adds((32 * i) as nat, 32);
            assert(32 * i + 32 == 32 * (i + 1));
            let p = pow2((32 * i) as nat) as int;
            assert(p * low + (p * 0x1_0000_0000) * high == p * carry) by (nonlinear_arith)
                requires
                    carry == low + 0x1_0000_0000 * high,
            ;
        }
        digits.push(low);
        digits.push(high);
        Natural { digits }
    }

    /// `self * 2^places`.
    pub fn shifted(&self, places: u32) -> (number: Natural)
        ensures
            number@ == self@ * pow2(places as nat),
    {
        let whole: u32 = places / 32;
        let part: u32 = places % 32;
        assert(1u64 << (part as u64) == pow2(part as nat)) by {
            vstd::arithmetic::power2::lemma2_to64();
            vstd::arithmetic::power2::lemma_pow2_strictly_increases(part as nat, 32);
            vstd::bits::lemma_u64_shl_is_mul(1u64, part as u64);
        }
        let scaled: Natural = self.times_plus(1u64 << (part as u64), 0);
        let mut digits: Vec<u32> = Vec::new();
        let mut i: u32 = 0;
        while i < whole
            invariant
                i <= whole,
                digits@.len() == i,
                forall|j: int| 0 <= j < i ==> digits@[j] == 0u32,
            decreases whole - i,
        {
            digits.push(0);
            i = i + 1;
        }
        let ghost zeros = digits@;
        let mut k: usize = 0;
        while k < scaled.digits.len()
            invariant
                k <= scaled.digits@.len(),
                zeros.len() == whole,
                digits@ =~= zeros + scaled.digits@.take(k as int),
            decreases scaled.digits.len() - k,
        {
            digits.push(scaled.digits[k]);
            k = k + 1;
        }
        proof {
            lemma_value_split(digits@, whole as int);
            assert(digits@.take(whole as int) =~= zeros);
            assert(digits@.skip(whole as int) =~= scaled.digits@);
            lemma_zeros(zeros);
            lemma_pow2_adds((32 * whole) as nat, part as nat);
            assert(32 * whole + part == places);
            let a = self@ as int;
            let p = pow2(part as nat) as int;
            let q = pow2((32 * whole) as nat) as int;
            assert(q * (a * p) == a * (q * p)) by (nonlinear_arith);
        }
        Natural { digits }
    }

    /// `self + other`.
    pub fn plus(&self, other: &Natural) -> (number: Natural)
        ensures
            number@ == self@ + other@,
    {
        let mut digits: Vec<u32> = Vec::new();
        let mut carry: u32 = 0;
        let mut i: usize = 0;
        proof {
            assert(self.digits@.take(0) =~= Seq::<u32>::empty());
            assert(other.digits@.take(0) =~= Seq::<u32>::empty());
            vstd::arithmetic::power2::lemma2_to64();
        }
        while i < self.digits.len() || i < other.digits.len()
            invariant
                i <= self.digits@.len() || i <= other.digits@.len(),
                digits@.len() == i,
                carry <= 1,
                digits_value(digits@) + pow2((32 * i) as nat) * carry == digits_value(
                    low_digits(self.digits@, i as int),
                ) + digits_value(low_digits(other.digits@, i as int)),
            decreases self.digits.len() + other.digits.len() - i,
        {
            let left: u32 = if i < self.digits.len() {
                self.digits[i]
            } else {
                0
            };
            let right: u32 = if i < other.digits.len() {
                other.digits[i]
            } else {
                0
            };
            let wide: u64 = (left as u64) + (right as u64) + (carry as u64);
            let low: u32 = (wide % 0x1_0000_0000) as u32;
            let high: u32 = (wide / 0x1_0000_0000) as u32;
            proof {
                lemma_value_push(digits@, low);
                lemma_low_digits_step(self.digits@, i as int, left);
                lemma_low_digits_step(other.digits@, i as int, right);
                vstd::arithmetic::power2::lemma2_to64();
                lemma_pow2_adds((32 * i) as nat, 32);
                assert(32 * i + 32 == 32 * (i + 1));
                let p = pow2((32 * i) as nat) as int;
                assert(p * low + (p * 0x1_0000_0000) * high == p * carry + p * left + p * right)
                    by (nonlinear_arith)
                    requires
                        left + right + carry == low + 0x1_0000_0000 * high,
                ;
            }
            digits.push(low);
            carry = high;
            i = i + 1;
        }
        proof {
            assert(low_digits(self.digits@, i as int) =~= self.digits@);
            assert(low_digits(other.digits@, i as int) =~= other.digits@);
            lemma_value_push(digits@, carry);
        }
        digits.push(carry);
        Natural { digits }
    }

    /// How `self` lies to `other`.
    pub fn sizing(&self, other: &Natural) -> (sizing: Sizing)
        ensures
            sizing == (if self@ < other@ {
                Sizing::Smaller
            } else if self@ == other@ {
                Sizing::Same
            } else {
                Sizing::Larger
            }),
    {
        let mut i: usize = if self.digits.len() < other.digits.len() {
            other.digits.len()
        } else {
            self.digits.len()
        };
        proof {
            assert(high_digits(self.digits@, i as int) =~= Seq::<u32>::empty());
            assert(high_digits(other.digits@, i as int) =~= Seq::<u32>::empty());
        }
        while i > 0
            invariant
                digits_value(high_digits(self.digits@, i as int)) == digits_value(
                    high_digits(other.digits@, i as int),
                ),
            decreases i,
        {
            i = i - 1;
            let left: u32 = if i < self.digits.len() {
                self.digits[i]
            } else {
                0
            };
            let right: u32 = if i < other.digits.len() {
                other.digits[i]
            } else {
                0
            };
            proof {
                lemma_high_digits_step(self.digits@, i as int, left);
                lemma_high_digits_step(other.digits@, i as int, right);
                if left != right {
                    lemma_high_digits_decide(self.digits@, other.digits@, i as int);
                }
            }
            if left < right {
                return Sizing::Smaller;
            }
            if left > right {
                return Sizing::Larger;
            }
        }
        assert(high_digits(self.digits@, 0) =~= self.digits@);
        assert(high_digits(other.digits@, 0) =~= other.digits@);
        Sizing::Same
    }
}

spec fn low_digits(digits: Seq<u32>, count: int) -> Seq<u32> {
    if count < digits.len() {
        digits.take(count)
    } else {
        digits
    }
}

spec fn high_digits(digits: Seq<u32>, from: int) -> Seq<u32> {
    if from < digits.len() {
        digits.skip(from)
    } else {
        Seq::empty()
    }
}

proof fn lemma_zeros(digits: Seq<u32>)
    requires
        forall|j: int| 0 <= j < digits.len() ==> digits[j] == 0u32,
    ensures
        digits_value(digits) == 0,
    decreases digits.len(),
{
    if digits.len() > 0 {
        lemma_zeros(digits.drop_first());
    }
}

proof fn lemma_low_digits_step(digits: Seq<u32>, at: int, digit: u32)
    requires
        0 <= at,
        digit == (if at < digits.len() {
            digits[at]
        } else {
            0u32
        }),
    ensures
        digits_value(low_digits(digits, at + 1)) == digits_value(low_digits(digits, at)) + pow2(
            (32 * at) as nat,
        ) * digit,
{
    if at < digits.len() {
        assert(low_digits(digits, at) =~= digits.take(at));
        assert(low_digits(digits, at + 1) =~= digits.take(at).push(digit));
        lemma_value_push(digits.take(at), digit);
    } else {
        assert(pow2((32 * at) as nat) * 0 == 0);
    }
}

proof fn lemma_high_digits_step(digits: Seq<u32>, at: int, digit: u32)
    requires
        0 <= at,
        digit == (if at < digits.len() {
            digits[at]
        } else {
            0u32
        }),
    ensures
        digits_value(high_digits(digits, at)) == digit + base() * digits_value(
            high_digits(digits, at + 1),
        ),
{
    if at < digits.len() {
        assert(digits.skip(at).drop_first() =~= digits.skip(at + 1));
        assert(high_digits(digits, at + 1) =~= digits.skip(at + 1));
    }
}

proof fn lemma_high_digits_decide(left: Seq<u32>, right: Seq<u32>, at: int)
    requires
        0 <= at,
    ensures
        digits_value(high_digits(left, at)) < digits_value(high_digits(right, at))
            ==> digits_value(left) < digits_value(right),
        digits_value(high_digits(left, at)) > digits_value(high_digits(right, at))
            ==> digits_value(left) > digits_value(right),
{
    lemma_high_bounds(left, at);
    lemma_high_bounds(right, at);
    let p = pow2((32 * at) as nat) as int;
    let l = digits_value(high_digits(left, at)) as int;
    let r = digits_value(high_digits(right, at)) as int;
    if l < r {
        assert(p * l + p <= p * r) by (nonlinear_arith)
            requires
                l + 1 <= r,
                p >= 0,
        ;
    }
    if l > r {
        assert(p * r + p <= p * l) by (nonlinear_arith)
            requires
                r + 1 <= l,
                p >= 0,
        ;
    }
}

proof fn lemma_high_bounds(digits: Seq<u32>, at: int)
    requires
        0 <= at,
    ensures
        pow2((32 * at) as nat) * digits_value(high_digits(digits, at)) <= digits_value(digits),
        digits_value(digits) < pow2((32 * at) as nat) * digits_value(high_digits(digits, at))
            + pow2((32 * at) as nat),
{
    if at < digits.len() {
        lemma_value_split(digits, at);
    } else {
        lemma_value_split(digits, digits.len() as int);
        assert(digits.take(digits.len() as int) =~= digits);
        if digits.len() < at {
            vstd::arithmetic::power2::lemma_pow2_strictly_increases(
                (32 * digits.len()) as nat,
                (32 * at) as nat,
            );
        }
        assert(pow2((32 * at) as nat) * 0 == 0);
    }
}

} // verus!
