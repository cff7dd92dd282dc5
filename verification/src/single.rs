//! Single-precision numbers, held as their IEEE 754 bit pattern.
//!
//! Similarity scores and durations are single-precision values. Nothing here does
//! arithmetic on them: they are compared, and written out with a fixed number of decimals.

#[allow(unused_imports)]
use vstd::arithmetic::div_mod::{lemma_basic_div, lemma_div_multiples_vanish, lemma_mod_multiples_basic, lemma_small_mod};
#[allow(unused_imports)]
use vstd::arithmetic::power2::{lemma2_to64, lemma2_to64_rest, lemma_pow2_adds, lemma_pow2_pos, lemma_pow2_strictly_increases, lemma_pow2_unfold, pow2};
use vstd::prelude::*;
#[allow(unused_imports)]
use vstd::string::*;

use crate::text::{owned, push_decimal};
#[allow(unused_imports)]
use crate::startup::number;
#[allow(unused_imports)]
use crate::text::{decimal, digit};

verus! {

/// A single-precision number.
#[derive(Debug, Clone, Copy, PartialEq, Eq)]
pub struct Single {
    /// Sign, exponent and fraction, as IEEE 754 lays them out.
    pub bits: u32,
}

impl Single {
    /// Whether the sign bit is set.
    pub open spec fn negative(self) -> bool {
        self.bits >= 0x8000_0000
    }

    /// The bits below the sign. For numbers, a larger magnitude is a larger absolute value.
    pub open spec fn magnitude(self) -> nat {
        (self.bits % 0x8000_0000) as nat
    }

    /// Not a number.
    pub open spec fn nan(self) -> bool {
        self.magnitude() > 0x7f80_0000
    }

    /// Where the number stands among all numbers. Both zeros stand at 0.
    pub open spec fn rank(self) -> int {
        if self.negative() {
            -(self.magnitude() as int)
        } else {
            self.magnitude() as int
        }
    }

    /// `<` on single-precision numbers: false where either side is not a number.
    pub open spec fn below(self, other: Single) -> bool {
        !self.nan() && !other.nan() && self.rank() < other.rank()
    }

    /// `>=` on single-precision numbers: false where either side is not a number.
    pub open spec fn reaches(self, other: Single) -> bool {
        !self.nan() && !other.nan() && self.rank() >= other.rank()
    }

    /// The larger of two: where one is not a number, the other.
    pub open spec fn larger(self, other: Single) -> Single {
        if self.nan() || self.below(other) {
            other
        } else {
            self
        }
    }

    /// Zero.
    pub open spec fn zero_value() -> Single {
        Single { bits: 0 }
    }

    /// Zero.
    pub fn zero() -> (r: Single)
        ensures
            r == Single::zero_value(),
    {
        Single { bits: 0 }
    }

    /// The number with this bit pattern.
    pub fn from_bits(bits: u32) -> (r: Single)
        ensures
            r.bits == bits,
    {
        Single { bits }
    }

    /// Whether this is not a number.
    pub fn is_nan(self) -> (r: bool)
        ensures
            r == self.nan(),
    {
        self.bits % 0x8000_0000 > 0x7f80_0000
    }

    /// Whether this number is less than another.
    pub fn less(self, other: Single) -> (r: bool)
        ensures
            r == self.below(other),
    {
        if self.is_nan() || other.is_nan() {
            return false;
        }
        let a: u32 = self.bits % 0x8000_0000;
        let b: u32 = other.bits % 0x8000_0000;
        if self.bits >= 0x8000_0000 {
            if other.bits >= 0x8000_0000 {
                b < a
            } else {
                a > 0 || b > 0
            }
        } else if other.bits >= 0x8000_0000 {
            false
        } else {
            a < b
        }
    }

    /// Whether this number is at least another.
    pub fn at_least(self, other: Single) -> (r: bool)
        ensures
            r == self.reaches(other),
    {
        !self.is_nan() && !other.is_nan() && !self.less(other)
    }

    /// The larger of two numbers.
    pub fn max(self, other: Single) -> (r: Single)
        ensures
            r == self.larger(other),
    {
        if self.is_nan() || self.less(other) {
            other
        } else {
            self
        }
    }
}

// ---------------------------------------------------------------------------
// Decimal rendering
// ---------------------------------------------------------------------------

/// Ten to the power of `places`.
pub open spec fn ten_to(places: nat) -> nat
    decreases places,
{
    if places == 0 {
        1
    } else {
        10 * ten_to((places - 1) as nat)
    }
}

/// The last `places` decimal digits of a number, leading zeros included.
pub open spec fn last_digits(n: nat, places: nat) -> Seq<char>
    decreases places,
{
    if places == 0 {
        Seq::empty()
    } else {
        last_digits(n / 10, (places - 1) as nat).push(digit(n % 10))
    }
}

/// `n / m` rounded to the nearest whole number, and to the even one of two that are equally near.
pub open spec fn nearest(n: nat, m: nat) -> nat {
    let q = n / m;
    let r = n % m;
    if 2 * r > m || (2 * r == m && q % 2 == 1) {
        q + 1
    } else {
        q
    }
}

impl Single {
    /// Whether this is one of the two infinities.
    pub open spec fn infinite(self) -> bool {
        self.magnitude() == 0x7f80_0000
    }

    /// The significand: a finite number is `significand * 2^(power - 150)`, up to its sign.
    pub open spec fn significand(self) -> nat {
        if self.magnitude() < 0x80_0000 {
            self.magnitude()
        } else {
            0x80_0000 + self.magnitude() % 0x80_0000
        }
    }

    /// The exponent that goes with the significand, 150 too high.
    pub open spec fn power(self) -> nat {
        if self.magnitude() < 0x80_0000 {
            1
        } else {
            self.magnitude() / 0x80_0000
        }
    }

    /// The absolute value in units of the last decimal place shown, rounded.
    pub open spec fn units(self, places: nat) -> nat {
        if self.power() >= 150 {
            self.significand() * pow2((self.power() - 150) as nat) * ten_to(places)
        } else {
            nearest(self.significand() * ten_to(places), pow2((150 - self.power()) as nat))
        }
    }

    /// The number with this many decimals.
    pub open spec fn shown(self, places: nat) -> Seq<char> {
        let sign = if self.negative() {
            "-"@
        } else {
            Seq::empty()
        };
        if self.nan() {
            "NaN"@
        } else if self.infinite() {
            sign + "inf"@
        } else {
            sign + decimal(self.units(places) / ten_to(places)) + "."@ + last_digits(
                self.units(places) % ten_to(places),
                places,
            )
        }
    }
}

/// Two to the power of `k`.
fn two_to(k: u32) -> (r: u64)
    requires
        k <= 60,
    ensures
        r == pow2(k as nat),
{
    let mut r: u64 = 1;
    let mut i: u32 = 0;
    proof {
        lemma2_to64();
        lemma2_to64_rest();
    }
    while i < k
        invariant
            i <= k <= 60,
            r == pow2(i as nat),
            pow2(60) == 0x1000_0000_0000_0000,
        decreases k - i,
    {
        proof {
            lemma_pow2_unfold((i + 1) as nat);
            if i + 1 < 60 {
                lemma_pow2_strictly_increases((i + 1) as nat, 60);
            }
        }
        r = r * 2;
        i += 1;
    }
    r
}

/// Ten to the power of `places`.
fn unit(places: u32) -> (r: u64)
    requires
        places <= 6,
    ensures
        r == ten_to(places as nat),
        1 <= r <= 1_000_000,
{
    reveal_with_fuel(ten_to, 7);
    let mut r: u64 = 1;
    let mut i: u32 = 0;
    while i < places
        invariant
            i <= places <= 6,
            r == ten_to(i as nat),
            ten_to(6) == 1_000_000,
            ten_to(5) == 100_000,
            ten_to(4) == 10_000,
            ten_to(3) == 1_000,
            ten_to(2) == 100,
            ten_to(1) == 10,
            ten_to(0) == 1,
        decreases places - i,
    {
        r = r * 10;
        i += 1;
    }
    r
}

/// Adds the last `places` decimal digits of a number to a string.
fn push_last_digits(out: &mut String, n: u64, places: u32)
    ensures
        final(out)@ == old(out)@ + last_digits(n as nat, places as nat),
    decreases places,
{
    if places > 0 {
        push_last_digits(out, n / 10, places - 1);
        let d: u8 = (n % 10) as u8;
        out.push((0x30 + d) as char);
    }
    assert(out@ =~= old(out)@ + last_digits(n as nat, places as nat));
}

impl Single {
    /// A whole number: the significand doubled as often as the power says.
    fn whole(self) -> (r: u128)
        requires
            150 <= self.power() <= 254,
        ensures
            r == self.significand() * pow2((self.power() - 150) as nat),
    {
        let magnitude: u32 = self.bits % 0x8000_0000;
        let k: u32 = magnitude / 0x80_0000 - 150;
        let mut r: u128 = (0x80_0000 + magnitude % 0x80_0000) as u128;
        let mut i: u32 = 0;
        proof {
            lemma2_to64();
            lemma2_to64_rest();
            lemma_pow2_adds(64, 64);
            assert(pow2(0) == 1);
            assert(self.significand() * pow2(0) == self.significand());
        }
        while i < k
            invariant
                i <= k <= 104,
                r == self.significand() * pow2(i as nat),
                r < pow2((24 + i) as nat),
                pow2(128) == 0x1_0000_0000_0000_0000 * 0x1_0000_0000_0000_0000,
            decreases k - i,
        {
            proof {
                lemma_pow2_unfold((i + 1) as nat);
                lemma_pow2_unfold((24 + i + 1) as nat);
                if 24 + i + 1 < 128 {
                    lemma_pow2_strictly_increases((24 + i + 1) as nat, 128);
                }
                assert(self.significand() * pow2((i + 1) as nat) == 2 * (self.significand() * pow2(
                    i as nat,
                ))) by (nonlinear_arith)
                    requires
                        pow2((i + 1) as nat) == 2 * pow2(i as nat),
                ;
            }
            r = r * 2;
            i += 1;
        }
        r
    }

    /// What stands before and behind the decimal point.
    fn parts(self, places: u32) -> (r: (u128, u64))
        requires
            places <= 6,
            self.magnitude() < 0x7f80_0000,
        ensures
            r.0 == self.units(places as nat) / ten_to(places as nat),
            r.1 == self.units(places as nat) % ten_to(places as nat),
    {
        let magnitude: u32 = self.bits % 0x8000_0000;
        let ten = unit(places);
        if magnitude / 0x80_0000 >= 150 {
            let w = self.whole();
            proof {
                let t = ten_to(places as nat) as int;
                let x = w as int;
                lemma_div_multiples_vanish(x, t);
                lemma_mod_multiples_basic(x, t);
                assert(x * t == t * x) by (nonlinear_arith);
            }
            return (w, 0);
        }
        let (significand, power): (u32, u32) = if magnitude < 0x80_0000 {
            (magnitude, 1)
        } else {
            (0x80_0000 + magnitude % 0x80_0000, magnitude / 0x80_0000)
        };
        let shift: u32 = 150 - power;
        assert(significand * ten <= 0x100_0000 * 1_000_000) by (nonlinear_arith)
            requires
                significand <= 0x100_0000,
                ten <= 1_000_000,
        ;
        let n: u64 = significand as u64 * ten;
        if shift > 60 {
            proof {
                lemma2_to64_rest();
                lemma_pow2_strictly_increases(60, shift as nat);
                let m = pow2(shift as nat);
                lemma_small_mod(n as nat, m);
                lemma_basic_div(n as int, m as int);
                assert(self.units(places as nat) == 0);
                lemma_small_mod(0, ten_to(places as nat));
                lemma_basic_div(0, ten_to(places as nat) as int);
            }
            return (0, 0);
        }
        let m = two_to(shift);
        proof {
            lemma_pow2_pos(shift as nat);
            lemma_pow2_unfold(shift as nat);
            lemma_pow2_pos((shift - 1) as nat);
        }
        let q: u64 = n / m;
        let r: u64 = n % m;
        assert(q <= n) by (nonlinear_arith)
            requires
                q == n / m,
                m >= 1,
        ;
        let units: u64 = if r > m - r || (r == m - r && q % 2 == 1) {
            q + 1
        } else {
            q
        };
        assert(units == self.units(places as nat));
        ((units / ten) as u128, units % ten)
    }

    /// The number with this many decimals, rounded to the nearest, ties to even.
    pub fn fixed(self, places: u32) -> (r: String)
        requires
            1 <= places <= 6,
        ensures
            r@ == self.shown(places as nat),
    {
        let magnitude: u32 = self.bits % 0x8000_0000;
        if magnitude > 0x7f80_0000 {
            return owned("NaN");
        }
        let mut r = String::new();
        if self.bits >= 0x8000_0000 {
            r.append("-");
        }
        let ghost sign = r@;
        assert(sign =~= if self.negative() { "-"@ } else { Seq::empty() });
        if magnitude == 0x7f80_0000 {
            r.append("inf");
            return r;
        }
        let (whole, part) = self.parts(places);
        push_decimal(&mut r, whole);
        r.append(".");
        push_last_digits(&mut r, part, places);
        r
    }
}

// ---------------------------------------------------------------------------
// What numbers promise
// ---------------------------------------------------------------------------

/// The value of a number in the smallest unit there is, the infinities beyond all others.
pub open spec fn scaled(x: Single) -> int {
    let size = x.significand() * pow2(x.power());
    if x.negative() {
        -size
    } else {
        size as int
    }
}

/// A bit pattern is a sign, an exponent of eight bits and a fraction of twenty-three. All ones
/// in the exponent mean infinity or no number; all zeros leave out the leading one.
pub proof fn law_bits_are_sign_exponent_fraction(x: Single, sign: nat, exponent: nat, fraction: nat)
    requires
        x.bits == sign * 0x8000_0000 + exponent * 0x80_0000 + fraction,
        sign < 2,
        exponent < 256,
        fraction < 0x80_0000,
    ensures
        x.negative() <==> sign == 1,
        x.nan() <==> exponent == 255 && fraction > 0,
        x.infinite() <==> exponent == 255 && fraction == 0,
        exponent == 0 ==> x.significand() == fraction && x.power() == 1,
        exponent > 0 ==> x.significand() == 0x80_0000 + fraction && x.power() == exponent,
{
    let m = exponent * 0x80_0000 + fraction;
    assert(x.magnitude() == m);
    assert(m % 0x80_0000 == fraction && m / 0x80_0000 == exponent);
}

proof fn lemma_larger_magnitude(a: Single, b: Single)
    requires
        a.magnitude() < b.magnitude(),
    ensures
        a.significand() * pow2(a.power()) < b.significand() * pow2(b.power()),
{
    let (s, p) = (a.significand() as int, a.power());
    let (t, q) = (b.significand() as int, b.power());
    lemma_pow2_pos(p);
    lemma_pow2_pos(q);
    assert(p <= q);
    if p == q {
        assert(s < t);
        assert(s * pow2(p) < t * pow2(q)) by (nonlinear_arith)
            requires
                s < t,
                p == q,
                pow2(p) > 0,
        ;
    } else {
        lemma_pow2_unfold(p + 1);
        if p + 1 < q {
            lemma_pow2_strictly_increases(p + 1, q);
        }
        assert(s < 0x100_0000 && t >= 0x80_0000);
        assert(s * pow2(p) < t * pow2(q)) by (nonlinear_arith)
            requires
                0 <= s < 0x100_0000,
                t >= 0x80_0000,
                pow2(q) >= 2 * pow2(p),
                pow2(p) > 0,
        ;
    }
}

/// Numbers are in the order of their values, both zeros are the same, and what is no number is
/// neither below anything nor at least anything.
pub proof fn law_order_is_that_of_the_values(a: Single, b: Single)
    ensures
        a.below(b) <==> !a.nan() && !b.nan() && scaled(a) < scaled(b),
        a.reaches(b) <==> !a.nan() && !b.nan() && scaled(a) >= scaled(b),
        scaled(Single::zero_value()) == 0,
{
    lemma_zero_significand(a);
    lemma_zero_significand(b);
    lemma_zero_significand(Single::zero_value());
    if a.magnitude() < b.magnitude() {
        lemma_larger_magnitude(a, b);
    } else if b.magnitude() < a.magnitude() {
        lemma_larger_magnitude(b, a);
    }
}

proof fn lemma_zero_significand(a: Single)
    ensures
        a.significand() * pow2(a.power()) >= 0,
        a.significand() * pow2(a.power()) == 0 <==> a.magnitude() == 0,
{
    lemma_pow2_pos(a.power());
    let s = a.significand() as int;
    let p = pow2(a.power()) as int;
    assert(s * p >= 0 && (s * p == 0 <==> s == 0)) by (nonlinear_arith)
        requires
            s >= 0,
            p > 0,
    ;
}

/// The larger of two numbers is one of them, and at least both; where one is no number, it is
/// the other.
pub proof fn law_larger_is_at_least_both(a: Single, b: Single)
    ensures
        a.larger(b) == a || a.larger(b) == b,
        a.nan() ==> a.larger(b) == b,
        !a.nan() && b.nan() ==> a.larger(b) == a,
        !a.nan() && !b.nan() ==> a.larger(b).reaches(a) && a.larger(b).reaches(b),
{
}

/// Rounding goes to the nearest whole number, and where two are equally near to the even one.
pub proof fn law_rounding_goes_to_the_nearest(n: nat, m: nat)
    requires
        m > 0,
    ensures
        -(m as int) <= 2 * (nearest(n, m) * m - n) <= m,
        2 * (nearest(n, m) * m - n) == m || 2 * (nearest(n, m) * m - n) == -(m as int) ==> nearest(n, m) % 2
            == 0,
{
    let q = (n / m) as int;
    let r = (n % m) as int;
    vstd::arithmetic::div_mod::lemma_fundamental_div_mod(n as int, m as int);
    assert(n == m * q + r);
    assert(0 <= r < m) by (nonlinear_arith)
        requires
            r == n % m,
            m > 0,
    ;
    assert(q * m == m * q) by (nonlinear_arith);
    assert((q + 1) * m == m * q + m) by (nonlinear_arith);
}

/// Ten to a power is that power of ten.
pub proof fn law_ten_to_is_a_power(places: nat)
    ensures
        ten_to(places) == vstd::arithmetic::power::pow(10, places),
        ten_to(places) > 0,
    decreases places,
{
    vstd::arithmetic::power::lemma_pow0(10);
    if places > 0 {
        law_ten_to_is_a_power((places - 1) as nat);
        reveal(vstd::arithmetic::power::pow);
    }
}

/// The last digits of a number that has no more are as many as were asked for, and spell it.
pub proof fn law_last_digits_spell_the_number(n: nat, places: nat)
    requires
        n < vstd::arithmetic::power::pow(10, places),
    ensures
        last_digits(n, places).len() == places,
        forall|i: int| 0 <= i < places ==> '0' <= #[trigger] last_digits(n, places)[i] <= '9',
        number(last_digits(n, places)) == n,
    decreases places,
{
    law_ten_to_is_a_power(places);
    if places > 0 {
        law_ten_to_is_a_power((places - 1) as nat);
        assert(n / 10 < ten_to((places - 1) as nat));
        law_last_digits_spell_the_number(n / 10, (places - 1) as nat);
        let s = last_digits(n / 10, (places - 1) as nat);
        let d = n % 10;
        assert(last_digits(n, places).drop_last() =~= s);
        assert(digit(d) as u32 - 0x30 == d);
        assert forall|i: int| 0 <= i < places implies '0' <= #[trigger] last_digits(n, places)[i] <= '9' by {
            if i < places - 1 {
                assert(last_digits(n, places)[i] == s[i]);
            }
        }
    }
}

/// A number is shown as its sign, a whole number, a point, and exactly as many digits as were
/// asked for. Read without the point, the digits are the value in units of the last place,
/// rounded to the nearest and, of two that are equally near, to the even one.
pub proof fn law_number_is_shown_rounded(x: Single, places: nat) -> (r: (nat, Seq<char>))
    requires
        !x.nan(),
        !x.infinite(),
    ensures
        x.shown(places) == (if x.negative() {
            seq!['-']
        } else {
            Seq::empty()
        }) + decimal(r.0 / vstd::arithmetic::power::pow(10, places) as nat) + seq!['.'] + r.1,
        r.1.len() == places,
        forall|i: int| 0 <= i < places ==> '0' <= #[trigger] r.1[i] <= '9',
        number(r.1) == r.0 as int % vstd::arithmetic::power::pow(10, places),
        ({
            let off = 2 * (r.0 * pow2(150) - x.significand() * pow2(x.power())
                * vstd::arithmetic::power::pow(10, places));
            &&& -(pow2(150) as int) <= off <= pow2(150)
            &&& off == pow2(150) || off == -(pow2(150) as int) ==> r.0 % 2 == 0
        }),
{
    law_ten_to_is_a_power(places);
    let t = ten_to(places);
    let u = x.units(places);
    reveal_strlit("-");
    reveal_strlit(".");
    assert("-"@ =~= seq!['-']);
    assert("."@ =~= seq!['.']);
    let part = u % t;
    assert(part < t) by (nonlinear_arith)
        requires
            part == u % t,
            t > 0,
    ;
    law_last_digits_spell_the_number(part, places);
    lemma_units_are_near(x, places);
    (u, last_digits(part, places))
}

proof fn lemma_units_are_near(x: Single, places: nat)
    ensures
        ({
            let off = 2 * (x.units(places) * pow2(150) - x.significand() * pow2(x.power()) * ten_to(places));
            &&& -(pow2(150) as int) <= off <= pow2(150)
            &&& off == pow2(150) || off == -(pow2(150) as int) ==> x.units(places) % 2 == 0
        }),
{
    let (s, p, t, u) = (x.significand() as int, x.power(), ten_to(places) as int, x.units(places) as int);
    lemma_pow2_pos(150);
    lemma_pow2_pos(p);
    let c = pow2(p) as int;
    if p >= 150 {
        let k = (p - 150) as nat;
        lemma_pow2_adds(k, 150);
        let b = pow2(k) as int;
        let a = pow2(150) as int;
        assert((s * b * t) * a == s * (b * a) * t) by (nonlinear_arith);
    } else {
        let k = (150 - p) as nat;
        lemma_pow2_adds(k, p);
        lemma_pow2_pos(k);
        let d = pow2(k) as int;
        let n = s * t;
        assert(n >= 0) by (nonlinear_arith)
            requires
                n == s * t,
                s >= 0,
                t >= 0,
        ;
        law_rounding_goes_to_the_nearest(n as nat, pow2(k));
        assert(u == nearest(n as nat, pow2(k)));
        let off = 2 * (u * (d * c) - s * c * t);
        let near = 2 * (u * d - n);
        assert(off == near * c) by (nonlinear_arith)
            requires
                off == 2 * (u * (d * c) - s * c * t),
                near == 2 * (u * d - n),
                n == s * t,
        ;
        assert(-(d * c) <= off <= d * c) by (nonlinear_arith)
            requires
                off == near * c,
                -d <= near <= d,
                c > 0,
        ;
        assert((off == d * c ==> near == d) && (off == -(d * c) ==> near == -d)) by (nonlinear_arith)
            requires
                off == near * c,
                c > 0,
        ;
    }
}

/// What is no number reads `NaN`, and an infinity `inf` behind its sign.
pub proof fn law_other_numbers_are_shown_by_name(x: Single, places: nat)
    ensures
        x.nan() ==> x.shown(places) == "NaN"@,
        x.infinite() && !x.negative() ==> x.shown(places) == "inf"@,
        x.infinite() && x.negative() ==> x.shown(places) == "-"@ + "inf"@,
{
    assert(Seq::<char>::empty() + "inf"@ =~= "inf"@);
}

} // verus!
