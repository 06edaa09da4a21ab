use vstd::prelude::*;

verus! {

/// Arithmetic over scalar codes.
///
/// The graph engine never computes with numbers itself: every scalar is
/// carried as an opaque `u64` code, and all arithmetic goes through an
/// implementation of this trait. Each implementation fixes the meaning of a
/// code through its `s_*` spec functions, and every executable method is
/// verified (or, for implementations outside this crate, expected) to agree
/// with them. The engine's contracts are then exact relative to those
/// meanings, whatever number system an implementation chooses.
///
/// One convention is shared by all scalar systems: the code `0u64` stands for
/// the additive zero. The engine initializes every fresh gradient to that
/// code, exactly as a freshly built node starts with a zero gradient.
pub trait ScalarOps: Sized {
    /// The code of the multiplicative unit.
    spec fn s_one() -> u64;

    /// The code of the additive inverse of the unit.
    spec fn s_neg_one() -> u64;

    /// Meaning of addition on codes.
    spec fn s_add(a: u64, b: u64) -> u64;

    /// Meaning of subtraction on codes.
    spec fn s_sub(a: u64, b: u64) -> u64;

    /// Meaning of multiplication on codes.
    spec fn s_mul(a: u64, b: u64) -> u64;

    /// Meaning of raising `a` to the power `b`, both codes.
    spec fn s_pow(a: u64, b: u64) -> u64;

    /// Meaning of the hyperbolic tangent on codes.
    spec fn s_tanh(a: u64) -> u64;

    /// Meaning of the exponential function on codes.
    spec fn s_exp(a: u64) -> u64;

    /// Whether the coded scalar is strictly greater than zero.
    spec fn s_is_pos(a: u64) -> bool;

    /// Whether the coded scalar is greater than or equal to zero.
    spec fn s_is_nonneg(a: u64) -> bool;

    fn one(&self) -> (r: u64)
        ensures
            r == Self::s_one(),
    ;

    fn neg_one(&self) -> (r: u64)
        ensures
            r == Self::s_neg_one(),
    ;

    fn add(&self, a: u64, b: u64) -> (r: u64)
        ensures
            r == Self::s_add(a, b),
    ;

    fn sub(&self, a: u64, b: u64) -> (r: u64)
        ensures
            r == Self::s_sub(a, b),
    ;

    fn mul(&self, a: u64, b: u64) -> (r: u64)
        ensures
            r == Self::s_mul(a, b),
    ;

    fn pow(&self, a: u64, b: u64) -> (r: u64)
        ensures
            r == Self::s_pow(a, b),
    ;

    fn tanh(&self, a: u64) -> (r: u64)
        ensures
            r == Self::s_tanh(a),
    ;

    fn exp(&self, a: u64) -> (r: u64)
        ensures
            r == Self::s_exp(a),
    ;

    fn is_pos(&self, a: u64) -> (r: bool)
        ensures
            r == Self::s_is_pos(a),
    ;

    fn is_nonneg(&self, a: u64) -> (r: bool)
        ensures
            r == Self::s_is_nonneg(a),
    ;
}

/// A deterministic integer scalar system.
///
/// Codes are read as plain natural numbers and every operation saturates at
/// the ends of the `u64` range. The system has no negative numbers, so its
/// `neg_one` code is the zero code, and its `tanh` stands in for a map that
/// is bounded by one: it clamps its argument to at most one. It exists to
/// exercise the engine deterministically, with every step verified; the
/// engine itself works for any implementation of `ScalarOps` alike.
pub struct IntScalar;

/// Saturating exponentiation on natural-number codes.
pub open spec fn nat_pow_sat(a: u64, b: u64) -> u64
    decreases b,
{
    if b == 0 {
        1u64
    } else {
        let rest = nat_pow_sat(a, (b - 1) as u64);
        if a * rest > u64::MAX {
            u64::MAX
        } else {
            (a * rest) as u64
        }
    }
}

impl ScalarOps for IntScalar {
    open spec fn s_one() -> u64 {
        1u64
    }

    open spec fn s_neg_one() -> u64 {
        0u64
    }

    open spec fn s_add(a: u64, b: u64) -> u64 {
        if a + b > u64::MAX {
            u64::MAX
        } else {
            (a + b) as u64
        }
    }

    open spec fn s_sub(a: u64, b: u64) -> u64 {
        if a >= b {
            (a - b) as u64
        } else {
            0u64
        }
    }

    open spec fn s_mul(a: u64, b: u64) -> u64 {
        if a * b > u64::MAX {
            u64::MAX
        } else {
            (a * b) as u64
        }
    }

    open spec fn s_pow(a: u64, b: u64) -> u64 {
        nat_pow_sat(a, b)
    }

    open spec fn s_tanh(a: u64) -> u64 {
        if a > 1 {
            1u64
        } else {
            a
        }
    }

    open spec fn s_exp(a: u64) -> u64 {
        if a + 1 > u64::MAX {
            u64::MAX
        } else {
            (a + 1) as u64
        }
    }

    open spec fn s_is_pos(a: u64) -> bool {
        a > 0
    }

    open spec fn s_is_nonneg(a: u64) -> bool {
        true
    }

    fn one(&self) -> (r: u64) {
        1
    }

    fn neg_one(&self) -> (r: u64) {
        0
    }

    fn add(&self, a: u64, b: u64) -> (r: u64) {
        match a.checked_add(b) {
            Some(s) => s,
            None => u64::MAX,
        }
    }

    fn sub(&self, a: u64, b: u64) -> (r: u64) {
        if a >= b {
            a - b
        } else {
            0
        }
    }

    fn mul(&self, a: u64, b: u64) -> (r: u64) {
        match a.checked_mul(b) {
            Some(p) => p,
            None => u64::MAX,
        }
    }

    fn pow(&self, a: u64, b: u64) -> (r: u64) {
        let mut k: u64 = b;
        let mut acc: u64 = 1;
        while k > 0
            invariant
                k <= b,
                acc == nat_pow_sat(a, (b - k) as u64),
            decreases k,
        {
            acc = self.mul(a, acc);
            k = k - 1;
        }
        acc
    }

    fn tanh(&self, a: u64) -> (r: u64) {
        if a > 1 {
            1
        } else {
            a
        }
    }

    fn exp(&self, a: u64) -> (r: u64) {
        match a.checked_add(1) {
            Some(s) => s,
            None => u64::MAX,
        }
    }

    fn is_pos(&self, a: u64) -> (r: bool) {
        a > 0
    }

    fn is_nonneg(&self, a: u64) -> (r: bool) {
        true
    }
}

} // verus!
