//! IEEE 754 binary64 numbers, as their encodings, and exact statements of the
//! operations on them.
//!
//! Every operation is stated as IEEE 754 has it: the exact result, rounded to
//! the nearest number, ties to even.
use crate::arith;
use crate::grid;
use vstd::arithmetic::div_mod::*;
use vstd::arithmetic::power2::*;
use vstd::prelude::*;

verus! {

/// The sign bit.
pub const SIGN: u64 = 0x8000_0000_0000_0000;

/// A binary64 number, by its encoding.
#[derive(Clone, Copy, PartialEq, Eq, Structural, Debug)]
pub struct Binary64 {
    pub bits: u64,
}

/// The number one in units: 2^1074.
pub open spec fn one() -> int {
    pow2(1074) as int
}

proof fn lemma_at_least(n: int, q: int, d: int)
    requires
        0 < d,
        0 <= q,
        q * d <= n,
    ensures
        n / d >= q,
{
    lemma_div_is_ordered(q * d, n, d);
    lemma_div_by_multiple(q, d);
}

fn saturate(n: u128) -> (x: usize)
    ensures
        x == clamp_to_usize(n as int),
{
    if n > usize::MAX as u128 {
        usize::MAX
    } else {
        n as usize
    }
}

/// `n`, or the largest `usize` where `n` is larger.
pub open spec fn clamp_to_usize(n: int) -> usize {
    if n > usize::MAX {
        usize::MAX
    } else {
        n as usize
    }
}

impl Binary64 {
    /// The encoding without its sign bit.
    pub open spec fn magnitude(self) -> int {
        self.bits as int % (SIGN as int)
    }

    /// The sign bit is set.
    pub open spec fn negative(self) -> bool {
        self.bits >= SIGN
    }

    /// The number with this sign bit and this magnitude.
    pub open spec fn pack(negative: bool, magnitude: int) -> Binary64 {
        Binary64 { bits: (magnitude + if negative { SIGN as int } else { 0 }) as u64 }
    }

    /// Not a number.
    pub open spec fn nan(self) -> bool {
        self.magnitude() > grid::INF
    }

    /// One of the two infinities.
    pub open spec fn infinite(self) -> bool {
        self.magnitude() == grid::INF
    }

    /// Neither NaN nor infinite.
    pub open spec fn finite(self) -> bool {
        self.magnitude() < grid::INF
    }

    /// Zero, of either sign.
    pub open spec fn zero(self) -> bool {
        self.magnitude() == 0
    }

    /// The value of a finite number, in units of 2^-1074.
    pub open spec fn value(self) -> int {
        if self.negative() {
            -grid::units(self.magnitude())
        } else {
            grid::units(self.magnitude())
        }
    }

    /// A whole number that orders numbers as their values do, infinities included.
    pub open spec fn rank(self) -> int {
        if self.negative() {
            -self.magnitude()
        } else {
            self.magnitude()
        }
    }

    /// The NaN that operations without a meaningful result give.
    pub open spec fn quiet() -> Binary64 {
        Binary64 { bits: 0x7ff8_0000_0000_0000 }
    }

    /// The number with the other sign bit.
    pub open spec fn spec_neg(self) -> Binary64 {
        Binary64::pack(!self.negative(), self.magnitude())
    }

    /// The number without its sign bit.
    pub open spec fn spec_abs(self) -> Binary64 {
        Binary64::pack(false, self.magnitude())
    }

    /// Less than; false where either side is NaN.
    pub open spec fn spec_lt(self, other: Binary64) -> bool {
        !self.nan() && !other.nan() && self.rank() < other.rank()
    }

    /// The sum, rounded. An exact zero has a minus sign only where both sides have.
    pub open spec fn spec_add(self, other: Binary64) -> Binary64 {
        if self.nan() || other.nan() {
            Binary64::quiet()
        } else if self.infinite() {
            if other.infinite() && self.negative() != other.negative() {
                Binary64::quiet()
            } else {
                self
            }
        } else if other.infinite() {
            other
        } else {
            let sum = self.value() + other.value();
            if sum == 0 {
                Binary64::pack(self.negative() && other.negative(), 0)
            } else {
                Binary64::pack(sum < 0, grid::rounded(vstd::math::abs(sum) as int, 1))
            }
        }
    }

    /// The difference, rounded.
    pub open spec fn spec_sub(self, other: Binary64) -> Binary64 {
        self.spec_add(other.spec_neg())
    }

    /// The product, rounded.
    pub open spec fn spec_mul(self, other: Binary64) -> Binary64 {
        let negative = self.negative() != other.negative();
        if self.nan() || other.nan() {
            Binary64::quiet()
        } else if self.infinite() || other.infinite() {
            if self.zero() || other.zero() {
                Binary64::quiet()
            } else {
                Binary64::pack(negative, grid::INF as int)
            }
        } else {
            let product = grid::units(self.magnitude()) * grid::units(other.magnitude());
            Binary64::pack(negative, grid::rounded(product, one()))
        }
    }

    /// The quotient, rounded.
    pub open spec fn spec_div(self, other: Binary64) -> Binary64 {
        let negative = self.negative() != other.negative();
        if self.nan() || other.nan() {
            Binary64::quiet()
        } else if self.infinite() {
            if other.infinite() {
                Binary64::quiet()
            } else {
                Binary64::pack(negative, grid::INF as int)
            }
        } else if other.infinite() {
            Binary64::pack(negative, 0)
        } else if other.zero() {
            if self.zero() {
                Binary64::quiet()
            } else {
                Binary64::pack(negative, grid::INF as int)
            }
        } else {
            let dividend = grid::units(self.magnitude()) * one();
            Binary64::pack(negative, grid::rounded(dividend, grid::units(other.magnitude())))
        }
    }

    /// The square root, rounded.
    pub open spec fn spec_sqrt(self) -> Binary64 {
        if self.nan() {
            Binary64::quiet()
        } else if self.zero() {
            self
        } else if self.negative() {
            Binary64::quiet()
        } else if self.infinite() {
            self
        } else {
            let square = grid::units(self.magnitude()) * one();
            Binary64::pack(false, grid::rounded_root(square))
        }
    }

    /// The number nearest to the whole number `n`.
    pub open spec fn spec_from_u64(n: u64) -> Binary64 {
        Binary64::pack(false, grid::rounded(n * one(), 1))
    }

    /// The number nearest to `n / d`.
    pub open spec fn spec_ratio(n: u64, d: u64) -> Binary64 {
        Binary64::pack(false, grid::rounded(n * one(), d as int))
    }

    /// Rounded up to a whole number, as a `usize`: the nearest one where it is
    /// out of range, zero for NaN.
    pub open spec fn spec_ceil_to_usize(self) -> usize {
        if self.nan() || self.negative() {
            0
        } else if self.infinite() {
            usize::MAX
        } else {
            clamp_to_usize((self.value() + one() - 1) / one())
        }
    }

    /// Rounded to the nearest whole number, halves away from zero, as a `usize`:
    /// the nearest one where it is out of range, zero for NaN.
    pub open spec fn spec_round_to_usize(self) -> usize {
        if self.nan() || self.negative() {
            0
        } else if self.infinite() {
            usize::MAX
        } else {
            clamp_to_usize((2 * self.value() + one()) / (2 * one()))
        }
    }

    /// Taking an encoding apart and putting it together again.
    pub proof fn lemma_pack(negative: bool, magnitude: int)
        requires
            0 <= magnitude < SIGN,
        ensures
            Binary64::pack(negative, magnitude).negative() == negative,
            Binary64::pack(negative, magnitude).magnitude() == magnitude,
    {
    }

    pub(crate) fn split(self) -> (parts: (bool, u64))
        ensures
            parts.0 == self.negative(),
            parts.1 == self.magnitude(),
            parts.1 < SIGN,
    {
        if self.bits >= SIGN {
            (true, self.bits - SIGN)
        } else {
            (false, self.bits)
        }
    }

    pub(crate) fn join(negative: bool, magnitude: u64) -> (x: Binary64)
        requires
            magnitude < SIGN,
        ensures
            x == Binary64::pack(negative, magnitude as int),
    {
        if negative {
            Binary64 { bits: magnitude + SIGN }
        } else {
            Binary64 { bits: magnitude }
        }
    }

    /// The number with this encoding.
    pub fn from_bits(bits: u64) -> (x: Binary64)
        ensures
            x.bits == bits,
    {
        Binary64 { bits }
    }

    /// The encoding.
    pub fn to_bits(self) -> (bits: u64)
        ensures
            bits == self.bits,
    {
        self.bits
    }

    /// Whether this is no number.
    pub fn is_nan(self) -> (b: bool)
        ensures
            b == self.nan(),
    {
        self.split().1 > grid::INF
    }

    /// The rank, as a machine integer.
    pub(crate) fn key(self) -> (k: i64)
        ensures
            k == self.rank(),
    {
        let (negative, magnitude) = self.split();
        if negative {
            -(magnitude as i64)
        } else {
            magnitude as i64
        }
    }

    /// The number with the other sign bit.
    #[verifier::when_used_as_spec(spec_neg)]
    pub fn neg(self) -> (x: Binary64)
        ensures
            x == self.spec_neg(),
    {
        let (negative, magnitude) = self.split();
        Binary64::join(!negative, magnitude)
    }

    /// The number without its sign bit.
    #[verifier::when_used_as_spec(spec_abs)]
    pub fn abs(self) -> (x: Binary64)
        ensures
            x == self.spec_abs(),
    {
        Binary64::join(false, self.split().1)
    }

    /// Less than; false where either side is NaN.
    #[verifier::when_used_as_spec(spec_lt)]
    pub fn lt(self, other: Binary64) -> (b: bool)
        ensures
            b == self.spec_lt(other),
    {
        let (sn, sm) = self.split();
        let (on, om) = other.split();
        if sm > grid::INF || om > grid::INF {
            false
        } else if sn {
            if on {
                om < sm
            } else {
                sm > 0 || om > 0
            }
        } else {
            !on && sm < om
        }
    }

    /// The sum, rounded.
    #[verifier::when_used_as_spec(spec_add)]
    pub fn add(self, other: Binary64) -> (x: Binary64)
        ensures
            x == self.spec_add(other),
    {
        let (sn, sm) = self.split();
        let (on, om) = other.split();
        if sm > grid::INF || om > grid::INF {
            Binary64 { bits: 0x7ff8_0000_0000_0000 }
        } else if sm == grid::INF {
            if om == grid::INF && sn != on {
                Binary64 { bits: 0x7ff8_0000_0000_0000 }
            } else {
                self
            }
        } else if om == grid::INF {
            other
        } else {
            proof {
                grid::lemma_units_small(0);
                if sm < om {
                    grid::lemma_units_increase(sm as int, om as int);
                } else if om < sm {
                    grid::lemma_units_increase(om as int, sm as int);
                } else if sm > 0 {
                    grid::lemma_units_increase(0, sm as int);
                }
            }
            if sm == om && (sn != on || sm == 0) {
                Binary64::join(sn && on, 0)
            } else if sm >= om {
                Binary64::join(sn, arith::combine(sm, om, sn != on))
            } else {
                Binary64::join(on, arith::combine(om, sm, sn != on))
            }
        }
    }

    /// The difference, rounded.
    #[verifier::when_used_as_spec(spec_sub)]
    pub fn sub(self, other: Binary64) -> (x: Binary64)
        ensures
            x == self.spec_sub(other),
    {
        self.add(other.neg())
    }

    /// The product, rounded.
    #[verifier::when_used_as_spec(spec_mul)]
    pub fn mul(self, other: Binary64) -> (x: Binary64)
        ensures
            x == self.spec_mul(other),
    {
        let (sn, sm) = self.split();
        let (on, om) = other.split();
        if sm > grid::INF || om > grid::INF {
            Binary64 { bits: 0x7ff8_0000_0000_0000 }
        } else if sm == grid::INF || om == grid::INF {
            if sm == 0 || om == 0 {
                Binary64 { bits: 0x7ff8_0000_0000_0000 }
            } else {
                Binary64::join(sn != on, grid::INF)
            }
        } else {
            Binary64::join(sn != on, arith::product(sm, om))
        }
    }

    /// The quotient, rounded.
    #[verifier::when_used_as_spec(spec_div)]
    pub fn div(self, other: Binary64) -> (x: Binary64)
        ensures
            x == self.spec_div(other),
    {
        let (sn, sm) = self.split();
        let (on, om) = other.split();
        if sm > grid::INF || om > grid::INF || (sm == grid::INF && om == grid::INF) || (sm == 0
            && om == 0) {
            Binary64 { bits: 0x7ff8_0000_0000_0000 }
        } else if sm == grid::INF || om == 0 {
            Binary64::join(sn != on, grid::INF)
        } else if om == grid::INF {
            Binary64::join(sn != on, 0)
        } else if sm == 0 {
            proof {
                grid::lemma_units_increase(0, om as int);
                let d = grid::units(om as int);
                let o = one();
                grid::lemma_units_small(0);
                assert(d * 0 == 0 && 0 * o == 0) by (nonlinear_arith);
                grid::lemma_rounded_exact(0, d);
            }
            Binary64::join(sn != on, 0)
        } else {
            Binary64::join(sn != on, arith::quotient(sm, om))
        }
    }

    /// The square root, rounded.
    #[verifier::when_used_as_spec(spec_sqrt)]
    pub fn sqrt(self) -> (x: Binary64)
        ensures
            x == self.spec_sqrt(),
    {
        let (negative, m) = self.split();
        if m > grid::INF {
            Binary64 { bits: 0x7ff8_0000_0000_0000 }
        } else if m == 0 {
            self
        } else if negative {
            Binary64 { bits: 0x7ff8_0000_0000_0000 }
        } else if m == grid::INF {
            self
        } else {
            Binary64::join(false, arith::root(m))
        }
    }

    /// The number zero has magnitude zero, and no minus sign.
    pub proof fn lemma_from_zero()
        ensures
            Binary64::from_u64(0) == Binary64::pack(false, 0),
            Binary64::from_u64(0).magnitude() == 0,
            !Binary64::from_u64(0).negative(),
    {
        grid::lemma_units_small(0);
        grid::lemma_rounded_exact(0, 1);
        assert(0 * one() == 0);
    }

    /// A whole number of at most 53 bits keeps its value.
    pub proof fn lemma_from_u64_exact(n: u64)
        requires
            n <= 2 * grid::BINADE,
        ensures
            Binary64::from_u64(n).finite(),
            !Binary64::from_u64(n).negative(),
            Binary64::from_u64(n).value() == n * one(),
    {
        let c = grid::lemma_multiple_on_grid(n as int, 1074);
        grid::lemma_rounded_exact(c, 1);
    }

    /// The number nearest to `n / d`.
    #[verifier::when_used_as_spec(spec_ratio)]
    pub fn ratio(n: u64, d: u64) -> (x: Binary64)
        requires
            n <= 2 * grid::BINADE,
            0 < d <= 2 * grid::BINADE,
        ensures
            x == Binary64::spec_ratio(n, d),
    {
        proof {
            Binary64::lemma_from_u64_exact(n);
            Binary64::lemma_from_u64_exact(d);
            let o = one();
            lemma_pow2_pos(1074);
            grid::lemma_units_small(0);
            assert(d * o > 0) by (nonlinear_arith)
                requires
                    d > 0,
                    o > 0,
            ;
            assert((n * o * o) * d == (n * o) * (d * o)) by (nonlinear_arith);
            grid::lemma_rounded_same(n * o * o, d * o, n * o, d as int);
        }
        Binary64::from_u64(n).div(Binary64::from_u64(d))
    }

    /// Rounded up to a whole number, clamped to the range of `usize`.
    #[verifier::when_used_as_spec(spec_ceil_to_usize)]
    pub fn ceil_to_usize(self) -> (n: usize)
        ensures
            n == self.spec_ceil_to_usize(),
    {
        let (negative, m) = self.split();
        if m > grid::INF || negative {
            0
        } else if m >= 1087 * grid::BINADE {
            proof {
                arith::lemma_large(m as int);
                let (u, o) = (grid::units(m as int), one());
                lemma_pow2_pos(1074);
                lemma_at_least(u + o - 1, 0x1_0000_0000_0000_0000, o);
            }
            usize::MAX
        } else {
            let (q, more, _) = arith::whole_part(m);
            proof {
                lemma_pow2_pos(1074);
                let (u, o) = (grid::units(m as int), one());
                lemma_fundamental_div_mod(u, o);
                lemma_mod_bound(u, o);
                let r = u % o;
                assert(o * (u / o) == (u / o) * o) by (nonlinear_arith);
                if r > 0 {
                    assert((q + 1) * o == q * o + o) by (nonlinear_arith);
                    lemma_fundamental_div_mod_converse(u + o - 1, o, q + 1, r - 1);
                } else {
                    lemma_fundamental_div_mod_converse(u + o - 1, o, q as int, o - 1);
                }
            }
            saturate(if more { q + 1 } else { q })
        }
    }

    /// Rounded to the nearest whole number, halves away from zero, clamped to the
    /// range of `usize`.
    #[verifier::when_used_as_spec(spec_round_to_usize)]
    pub fn round_to_usize(self) -> (n: usize)
        ensures
            n == self.spec_round_to_usize(),
    {
        let (negative, m) = self.split();
        if m > grid::INF || negative {
            0
        } else if m >= 1087 * grid::BINADE {
            proof {
                arith::lemma_large(m as int);
                let (u, o) = (grid::units(m as int), one());
                lemma_pow2_pos(1074);
                lemma_at_least(2 * u + o, 0x1_0000_0000_0000_0000, 2 * o);
            }
            usize::MAX
        } else {
            let (q, _, half) = arith::whole_part(m);
            proof {
                lemma_pow2_pos(1074);
                let (u, o) = (grid::units(m as int), one());
                lemma_fundamental_div_mod(u, o);
                lemma_mod_bound(u, o);
                let r = u % o;
                assert(o * (u / o) == (u / o) * o) by (nonlinear_arith);
                assert((q + 1) * (2 * o) == 2 * (q * o) + 2 * o && q * (2 * o) == 2 * (q * o))
                    by (nonlinear_arith);
                if 2 * r >= o {
                    lemma_fundamental_div_mod_converse(2 * u + o, 2 * o, q + 1, 2 * r - o);
                } else {
                    lemma_fundamental_div_mod_converse(2 * u + o, 2 * o, q as int, 2 * r + o);
                }
            }
            saturate(if half { q + 1 } else { q })
        }
    }

    /// The number nearest to a whole number.
    #[verifier::when_used_as_spec(spec_from_u64)]
    pub fn from_u64(n: u64) -> (x: Binary64)
        ensures
            x == Binary64::spec_from_u64(n),
    {
        Binary64::join(false, arith::whole(n))
    }
}

} // verus!
