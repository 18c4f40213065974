//! Fractions in thousandths: the share of a losing stake that is slashed.
//!
//! The product of a fraction and a balance is computed by `sp_arithmetic::Perbill`, so that
//! the rounding agrees with the arithmetic of the chain that hosts the registry.

use crate::types::Balance;
use sp_arithmetic::Perbill;
use vstd::arithmetic::div_mod::{
    lemma_div_multiples_vanish_quotient, lemma_fundamental_div_mod,
    lemma_fundamental_div_mod_converse, lemma_truncate_middle,
};
use vstd::prelude::*;

verus! {

/// The number of parts that make a whole `Permille`.
pub const THOUSAND: u32 = 1_000u32;

/// The number of parts that make a whole `Perbill`.
pub const BILLION: u32 = 1_000_000_000u32;

/// `numer / denom` rounded to the nearest integer; an exact half is rounded down.
pub open spec fn nearest_pref_down(numer: int, denom: int) -> int {
    numer / denom + if numer % denom > denom / 2 {
        1int
    } else {
        0int
    }
}

/// What `Perbill::from_parts(parts) * amount` yields: the whole billions of `amount` are
/// multiplied exactly, and the product of the remainder is rounded to the nearest integer,
/// an exact half down.
pub open spec fn perbill_product(parts: int, amount: int) -> int {
    (amount / (BILLION as int)) * parts + nearest_pref_down(
        (amount % (BILLION as int)) * parts,
        BILLION as int,
    )
}

/// Multiplies `amount` by `parts` billionths through `sp_arithmetic::Perbill`.
///
/// Trusted: the body is the call of `Perbill::from_parts`, which keeps `parts` as it is while
/// `parts` does not exceed a billion, followed by `Perbill`'s `Mul<u64>`, whose source computes
/// `(amount / 10^9) * parts` plus the correction for `amount % 10^9` with the rounding
/// `NearestPrefDown`. The contract repeats that computation.
#[verifier::external_body]
fn perbill_of(parts: u32, amount: Balance) -> (part: Balance)
    requires
        parts <= BILLION,
    ensures
        part == perbill_product(parts as int, amount as int),
{
    Perbill::from_parts(parts) * amount
}

/// The product computed in two pieces is the rounded product of the whole.
pub proof fn lemma_perbill_product_is_rounded(parts: int, amount: int)
    requires
        0 <= parts <= BILLION,
        0 <= amount,
    ensures
        perbill_product(parts, amount) == nearest_pref_down(amount * parts, BILLION as int),
{
    let m = BILLION as int;
    let q = amount / m;
    let r = amount % m;
    lemma_fundamental_div_mod(amount, m);
    let t = r * parts;
    assert(0 <= t) by (nonlinear_arith)
        requires
            0 <= r,
            0 <= parts,
            t == r * parts,
    ;
    let q2 = t / m;
    let r2 = t % m;
    lemma_fundamental_div_mod(t, m);
    assert(amount * parts == (q * parts + q2) * m + r2) by (nonlinear_arith)
        requires
            amount == m * q + r,
            t == r * parts,
            t == m * q2 + r2,
    ;
    lemma_fundamental_div_mod_converse(amount * parts, m, q * parts + q2, r2);
}

/// Scaling numerator and denominator by a million changes no rounded quotient of thousandths.
pub proof fn lemma_thousandths_as_billionths(parts: int, amount: int)
    requires
        0 <= parts <= THOUSAND,
        0 <= amount,
    ensures
        nearest_pref_down(amount * (parts * 1_000_000), BILLION as int) == nearest_pref_down(
            amount * parts,
            THOUSAND as int,
        ),
{
    let c = 1_000_000int;
    let x = amount * parts;
    assert(0 <= x) by (nonlinear_arith)
        requires
            0 <= amount,
            0 <= parts,
            x == amount * parts,
    ;
    assert(amount * (parts * c) == c * x) by (nonlinear_arith)
        requires
            x == amount * parts,
    ;
    assert(c * 1000 == BILLION as int);
    lemma_div_multiples_vanish_quotient(c, x, 1000);
    lemma_truncate_middle(x, c, 1000);
    assert((c * x) / (c * 1000) == x / 1000);
    assert((c * x) % (c * 1000) == c * (x % 1000));
}

/// A fraction between zero and one, in thousandths.
#[derive(Clone, Copy, Debug, PartialEq, Eq)]
pub struct Permille {
    parts: u32,
}

impl Permille {
    #[verifier::type_invariant]
    spec fn in_range(self) -> bool {
        self.parts <= THOUSAND
    }

    /// The number of thousandths.
    pub closed spec fn spec_parts(self) -> nat {
        self.parts as nat
    }

    /// The part of `amount` that this fraction selects, rounded to the nearest integer with an
    /// exact half rounded down.
    pub open spec fn spec_of(self, amount: int) -> int {
        nearest_pref_down(amount * self.spec_parts(), THOUSAND as int)
    }

    /// The fraction of `parts` thousandths; more than a thousand parts count as a thousand.
    pub fn from_parts(parts: u32) -> (r: Self)
        ensures
            r.spec_parts() == if parts <= THOUSAND {
                parts
            } else {
                THOUSAND
            },
    {
        if parts <= THOUSAND {
            Permille { parts }
        } else {
            Permille { parts: THOUSAND }
        }
    }

    /// The fraction of `percent` hundredths; more than a hundred count as a hundred.
    pub fn from_percent(percent: u32) -> (r: Self)
        ensures
            r.spec_parts() == if percent <= 100 {
                percent * 10
            } else {
                1000
            },
    {
        if percent <= 100 {
            Permille { parts: percent * 10 }
        } else {
            Permille { parts: THOUSAND }
        }
    }

    /// The number of thousandths.
    pub fn parts(&self) -> (r: u32)
        ensures
            r == self.spec_parts(),
            r <= THOUSAND,
    {
        proof {
            use_type_invariant(self);
        }
        self.parts
    }

    /// The part of `amount` that this fraction selects.
    pub fn of(&self, amount: Balance) -> (part: Balance)
        ensures
            part == self.spec_of(amount as int),
            part <= amount,
    {
        proof {
            use_type_invariant(self);
        }
        let billionths: u32 = self.parts * 1_000_000u32;
        let part = perbill_of(billionths, amount);
        proof {
            lemma_perbill_product_is_rounded(billionths as int, amount as int);
            lemma_thousandths_as_billionths(self.parts as int, amount as int);
            lemma_part_is_bounded(self.parts as int, amount as int);
        }
        part
    }
}

/// A fraction of at most one selects at most the whole.
pub proof fn lemma_part_is_bounded(parts: int, amount: int)
    requires
        0 <= parts <= THOUSAND,
        0 <= amount,
    ensures
        0 <= nearest_pref_down(amount * parts, THOUSAND as int) <= amount,
{
    let x = amount * parts;
    assert(0 <= x <= amount * 1000) by (nonlinear_arith)
        requires
            0 <= amount,
            0 <= parts <= 1000,
            x == amount * parts,
    ;
    lemma_fundamental_div_mod(x, 1000);
    if x % 1000 > 500 {
        assert(1000 * (x / 1000) + 500 < amount * 1000);
    }
}

} // verus!
