use vstd::prelude::*;
use vstd::arithmetic::div_mod::{
    lemma_add_mod_noop,
    lemma_mod_add_multiples_vanish,
    lemma_mod_bound,
    lemma_mod_self_0,
    lemma_mul_mod_noop,
    lemma_mul_mod_noop_general,
    lemma_mul_mod_noop_right,
    lemma_small_mod,
    lemma_sub_mod_noop,
};
use vstd::arithmetic::mul::{lemma_mul_is_associative, lemma_mul_upper_bound};
use vstd::arithmetic::power::{
    lemma1_pow,
    lemma_pow0,
    lemma_pow1,
    lemma_pow_adds,
    lemma_pow_mod_noop,
    lemma_pow_multiplies,
    lemma_square_is_pow2,
    pow,
};
use vstd::std_specs::ops::{AddSpec, MulSpec, SubSpec};
use crate::errors::FieldElementError;

verus! {

/// An element of the prime field `Z/PZ`, stored in canonical form:
/// `value` lies in `[0, P)` after construction and after every operation.
///
/// `P` must be prime for division (and the inverse path of `pow`) to be
/// mathematically meaningful; that is a precondition on the choice of `P`,
/// not a per-call check.
#[derive(Debug, Clone, PartialEq, Eq)]
pub struct FiniteFieldElement<const P: u64> {
    pub value: u64,
}

impl<const P: u64> FiniteFieldElement<P> {
    /// The canonical element representing the residue class of `v`.
    pub open spec fn element_of(v: int) -> Self {
        FiniteFieldElement { value: (v % (P as int)) as u64 }
    }

    /// The representation invariant: the stored value is pre-reduced.
    pub open spec fn is_canonical(self) -> bool {
        self.value < P
    }

    /// The sum of two field elements reduces the integer sum modulo `P`.
    pub proof fn lemma_add_matches_integer_sum(a: int, b: int)
        requires
            P >= 1,
        ensures
            Self::element_of(a).add_spec(Self::element_of(b)) == Self::element_of(a + b),
    {
        lemma_add_mod_noop(a, b, P as int);
    }

    /// The difference of two field elements reduces the integer difference
    /// modulo `P`.
    pub proof fn lemma_sub_matches_integer_difference(a: int, b: int)
        requires
            P >= 1,
        ensures
            Self::element_of(a).sub_spec(Self::element_of(b)) == Self::element_of(a - b),
    {
        lemma_sub_mod_noop(a, b, P as int);
    }

    /// The product of two field elements reduces the integer product
    /// modulo `P`.
    pub proof fn lemma_mul_matches_integer_product(a: int, b: int)
        requires
            P >= 1,
        ensures
            Self::element_of(a).mul_spec(Self::element_of(b)) == Self::element_of(a * b),
    {
        lemma_mul_mod_noop(a, b, P as int);
    }

    /// The exponent that `pow` actually uses: `n` reduced modulo `P - 1`,
    /// the order of the multiplicative group of `Z/PZ` for prime `P`.
    pub open spec fn reduced_exponent(n: i128) -> int {
        (n as int) % (P as int - 1)
    }

    /// The result of `pow`: `value ^ (n mod (P - 1)) mod P`.
    pub open spec fn pow_spec(self, n: i128) -> Self {
        Self::element_of(pow(self.value as int, Self::reduced_exponent(n) as nat))
    }

    /// The result of `div`: the product with the divisor's inverse
    /// `rhs ^ (P - 2)`, by Fermat's little theorem.
    pub open spec fn div_spec_value(self, rhs: Self) -> Self {
        Self::element_of(self.value * rhs.pow_spec((P - 2) as i128).value)
    }

    /// Modular exponentiation with the exponent reduced modulo the group
    /// order `P - 1`; the reduction is valid for prime `P` by Fermat's
    /// little theorem. Binary square-and-multiply, so the cost is
    /// logarithmic in the reduced exponent. Raising the zero element to an
    /// exponent that reduces to zero is algebraically undefined and is
    /// excluded as a precondition.
    pub fn pow(&self, n: i128) -> (r: Self)
        requires
            P >= 2,
            self.is_canonical(),
            !(self.value == 0 && Self::reduced_exponent(n) == 0),
        ensures
            r == self.pow_spec(n),
            r.is_canonical(),
    {
        let group_order: i128 = (P - 1) as i128;
        let reduced: i128 = n.checked_rem_euclid(group_order).unwrap();
        proof {
            lemma_mod_bound(n as int, P as int - 1);
        }
        let exponent: u64 = reduced as u64;
        let value = mod_pow(self.value, exponent, P);
        proof {
            lemma_mod_bound(
                pow(self.value as int, Self::reduced_exponent(n) as nat),
                P as int,
            );
        }
        FiniteFieldElement { value }
    }

    /// Division with an explicit error: dividing by the zero element, which
    /// has no inverse, fails with `DivisionByZero`; any other division
    /// succeeds with the quotient `self * rhs^(P - 2)`.
    pub fn checked_div(self, rhs: Self) -> (r: Result<Self, FieldElementError>)
        requires
            P >= 2,
            self.is_canonical(),
            rhs.is_canonical(),
        ensures
            rhs.value == 0 <==> r == Err::<Self, FieldElementError>(
                FieldElementError::DivisionByZero,
            ),
            rhs.value != 0 <==> r == Ok::<Self, FieldElementError>(self.div_spec_value(rhs)),
    {
        if rhs.value == 0 {
            Err(FieldElementError::DivisionByZero)
        } else {
            Ok(self / rhs)
        }
    }

    /// Dividing a nonzero element by itself multiplies it by its own
    /// `(P - 2)`-th power, so the quotient is `value^(P - 1) mod P`. For
    /// prime `P`, Fermat's little theorem makes that power the
    /// multiplicative identity `1`; the theorem itself is assumed of the
    /// configuration, not restated here.
    pub proof fn lemma_self_division_is_group_order_power(e: Self)
        requires
            P >= 2,
            e.is_canonical(),
            e.value != 0,
        ensures
            e.div_spec_value(e) == Self::element_of(pow(e.value as int, (P - 1) as nat)),
    {
        let v = e.value as int;
        lemma_small_mod((P - 2) as nat, (P - 1) as nat);
        assert(Self::reduced_exponent((P - 2) as i128) == P - 2);
        lemma_mod_bound(pow(v, (P - 2) as nat), P as int);
        lemma_mul_mod_noop_right(v, pow(v, (P - 2) as nat), P as int);
        lemma_pow_adds(v, 1nat, (P - 2) as nat);
        lemma_pow1(v);
    }

    /// The record of self-division that holds without Fermat's little
    /// theorem: the multiplicative identity divided by itself is itself,
    /// for every modulus.
    pub proof fn lemma_one_divided_by_itself_is_one()
        requires
            P >= 2,
        ensures
            Self::element_of(1).div_spec_value(Self::element_of(1)) == Self::element_of(1),
    {
        lemma_small_mod(1nat, P as nat);
        let one = Self::element_of(1);
        assert(one.value == 1);
        lemma_mod_bound((P - 2) as int, (P - 1) as int);
        lemma1_pow(Self::reduced_exponent((P - 2) as i128) as nat);
        assert(pow(one.value as int, Self::reduced_exponent((P - 2) as i128) as nat) == 1);
        assert(one.pow_spec((P - 2) as i128) == one);
        assert(one.div_spec_value(one) == Self::element_of((1 * 1) as int));
    }

    /// Fermat round-trip: a nonzero element raised to the group order
    /// `P - 1` is the multiplicative identity, because the exponent reduces
    /// to zero modulo `P - 1`.
    pub proof fn lemma_pow_group_order_is_one(e: Self)
        requires
            P >= 2,
            e.is_canonical(),
            e.value != 0,
        ensures
            e.pow_spec((P - 1) as i128) == Self::element_of(1),
    {
        lemma_mod_self_0(P as int - 1);
        lemma_pow0(e.value as int);
        lemma_small_mod(1nat, P as nat);
    }
}

/// Binary exponentiation: `base ^ exponent mod modulus`.
fn mod_pow(base: u64, exponent: u64, modulus: u64) -> (r: u64)
    requires
        modulus >= 2,
        base < modulus,
    ensures
        r as int == pow(base as int, exponent as nat) % (modulus as int),
        r < modulus,
{
    let mut result: u64 = 1;
    let mut factor: u64 = base;
    let mut remaining: u64 = exponent;
    while remaining > 0
        invariant
            modulus >= 2,
            factor < modulus,
            result < modulus,
            (result as int * pow(factor as int, remaining as nat)) % (modulus as int) == pow(
                base as int,
                exponent as nat,
            ) % (modulus as int),
        decreases remaining,
    {
        let ghost t = pow(base as int, exponent as nat) % (modulus as int);
        let ghost m = modulus as int;
        let ghost r0 = result as int;
        let ghost f0 = factor as int;
        let ghost e0 = remaining as nat;
        let ghost half = (remaining / 2) as nat;
        proof {
            lemma_mul_upper_bound(
                result as int,
                0xFFFF_FFFF_FFFF_FFFFu64 as int,
                factor as int,
                0xFFFF_FFFF_FFFF_FFFFu64 as int,
            );
            lemma_mul_upper_bound(
                factor as int,
                0xFFFF_FFFF_FFFF_FFFFu64 as int,
                factor as int,
                0xFFFF_FFFF_FFFF_FFFFu64 as int,
            );
            lemma_square_is_pow2(f0);
            lemma_pow_multiplies(f0, 2nat, half);
        }
        if remaining % 2 == 1 {
            result = ((result as u128 * factor as u128) % (modulus as u128)) as u64;
            proof {
                lemma_pow_adds(f0, 1nat, (2 * half) as nat);
                lemma_pow1(f0);
                assert(pow(f0, e0) == f0 * pow(f0 * f0, half));
                lemma_mul_is_associative(r0, f0, pow(f0 * f0, half));
                lemma_mul_mod_noop_general(r0 * f0, pow(f0 * f0, half), m);
                lemma_mod_bound(r0 * f0, m);
                assert((result as int * pow(f0 * f0, half)) % m == t);
            }
        } else {
            proof {
                assert(pow(f0, e0) == pow(f0 * f0, half));
                assert((result as int * pow(f0 * f0, half)) % m == t);
            }
        }
        let ghost r1 = result as int;
        factor = ((factor as u128 * factor as u128) % (modulus as u128)) as u64;
        remaining = remaining / 2;
        proof {
            lemma_mod_bound(f0 * f0, m);
            assert(factor as int == (f0 * f0) % m);
            lemma_pow_mod_noop(f0 * f0, half, m);
            lemma_mul_mod_noop_right(r1, pow(factor as int, half), m);
            lemma_mul_mod_noop_right(r1, pow(f0 * f0, half), m);
            assert((r1 * pow(factor as int, half)) % m == t);
        }
    }
    proof {
        lemma_pow0(factor as int);
        lemma_small_mod(result as nat, modulus as nat);
    }
    result
}

impl<const P: u64> std::convert::From<i128> for FiniteFieldElement<P> {
    /// Wraps a raw integer, canonicalized: the result holds `value mod P`.
    fn from(value: i128) -> (r: Self) {
        match value.checked_rem_euclid(P as i128) {
            Some(residue) => FiniteFieldElement { value: residue as u64 },
            // Reachable only for P == 0, where no residue exists.
            None => FiniteFieldElement { value: 0 },
        }
    }
}

impl<const P: u64> vstd::std_specs::convert::FromSpecImpl<i128> for FiniteFieldElement<P> {
    open spec fn obeys_from_spec() -> bool {
        P >= 1
    }

    open spec fn from_spec(value: i128) -> Self {
        Self::element_of(value as int)
    }
}

impl<const P: u64> std::ops::Add<FiniteFieldElement<P>> for FiniteFieldElement<P> {
    type Output = Self;

    /// Modular addition: `(self.value + rhs.value) mod P`, canonical in `[0, P)`.
    fn add(self, rhs: FiniteFieldElement<P>) -> (r: Self) {
        let sum: u128 = self.value as u128 + rhs.value as u128;
        FiniteFieldElement { value: (sum % (P as u128)) as u64 }
    }
}

impl<const P: u64> vstd::std_specs::ops::AddSpecImpl<FiniteFieldElement<P>> for FiniteFieldElement<P> {
    open spec fn obeys_add_spec() -> bool {
        true
    }

    open spec fn add_req(self, rhs: FiniteFieldElement<P>) -> bool {
        self.is_canonical() && rhs.is_canonical()
    }

    open spec fn add_spec(self, rhs: FiniteFieldElement<P>) -> Self {
        Self::element_of(self.value + rhs.value)
    }
}

impl<const P: u64> std::ops::Sub<FiniteFieldElement<P>> for FiniteFieldElement<P> {
    type Output = Self;

    /// Modular subtraction: `(self.value - rhs.value) mod P`, canonical in `[0, P)`.
    fn sub(self, rhs: FiniteFieldElement<P>) -> (r: Self) {
        let shifted: u128 = self.value as u128 + P as u128 - rhs.value as u128;
        proof {
            lemma_mod_add_multiples_vanish(self.value as int - rhs.value as int, P as int);
        }
        FiniteFieldElement { value: (shifted % (P as u128)) as u64 }
    }
}

impl<const P: u64> vstd::std_specs::ops::SubSpecImpl<FiniteFieldElement<P>> for FiniteFieldElement<P> {
    open spec fn obeys_sub_spec() -> bool {
        true
    }

    open spec fn sub_req(self, rhs: FiniteFieldElement<P>) -> bool {
        self.is_canonical() && rhs.is_canonical()
    }

    open spec fn sub_spec(self, rhs: FiniteFieldElement<P>) -> Self {
        Self::element_of(self.value - rhs.value)
    }
}

impl<const P: u64> std::ops::Mul<FiniteFieldElement<P>> for FiniteFieldElement<P> {
    type Output = Self;

    /// Modular multiplication, computed in 128-bit arithmetic so the product
    /// never overflows before reduction.
    fn mul(self, rhs: FiniteFieldElement<P>) -> (r: Self) {
        proof {
            lemma_mul_upper_bound(
                self.value as int,
                0xFFFF_FFFF_FFFF_FFFFu64 as int,
                rhs.value as int,
                0xFFFF_FFFF_FFFF_FFFFu64 as int,
            );
        }
        let product: u128 = self.value as u128 * rhs.value as u128;
        FiniteFieldElement { value: (product % (P as u128)) as u64 }
    }
}

impl<const P: u64> vstd::std_specs::ops::MulSpecImpl<FiniteFieldElement<P>> for FiniteFieldElement<P> {
    open spec fn obeys_mul_spec() -> bool {
        true
    }

    open spec fn mul_req(self, rhs: FiniteFieldElement<P>) -> bool {
        self.is_canonical() && rhs.is_canonical()
    }

    open spec fn mul_spec(self, rhs: FiniteFieldElement<P>) -> Self {
        Self::element_of(self.value * rhs.value)
    }
}

impl<const P: u64> std::ops::Div<FiniteFieldElement<P>> for FiniteFieldElement<P> {
    type Output = Self;

    /// Field division: multiplication by the divisor's modular inverse
    /// `rhs ^ (P - 2)`, valid for prime `P` by Fermat's little theorem.
    /// Division by the zero element is excluded; `checked_div` surfaces it
    /// as an error.
    fn div(self, rhs: FiniteFieldElement<P>) -> (r: Self) {
        let exponent: i128 = (P - 2) as i128;
        let inverse = rhs.pow(exponent);
        self * inverse
    }
}

impl<const P: u64> vstd::std_specs::ops::DivSpecImpl<FiniteFieldElement<P>> for FiniteFieldElement<P> {
    open spec fn obeys_div_spec() -> bool {
        true
    }

    open spec fn div_req(self, rhs: FiniteFieldElement<P>) -> bool {
        P >= 2 && self.is_canonical() && rhs.is_canonical() && rhs.value != 0
    }

    open spec fn div_spec(self, rhs: FiniteFieldElement<P>) -> Self {
        self.div_spec_value(rhs)
    }
}

} // verus!
