//! The probability value type and its mathematical model.
//!
//! A [`Probability`] is an exact nonnegative rational number `num / den`.
//! The only validated entry point is [`Probability::new`], which rejects
//! values outside `[0, 1]`; the arithmetic operators propagate values
//! without re-checking the range, so intermediate results (for example
//! while conditioning, before renormalization) may legally exceed 1.

use vstd::prelude::*;

use crate::ratio::rat_add;
use crate::ratio::rat_div;
use crate::ratio::rat_eq;
use crate::ratio::rat_fits;
use crate::ratio::rat_mul;
use crate::ratio::rat_one;
use crate::ratio::rat_scale;
use crate::ratio::rat_sub;
use crate::ratio::rat_wf;
use crate::ratio::rat_zero;
use crate::ratio::Ratio;

verus! {

/// The error returned by [`Probability::new`] when the requested value
/// is not a probability.
#[derive(Clone, Copy, Debug, PartialEq, Eq, Structural)]
pub enum ProbabilityError {
    /// The denominator was zero, so the fraction denotes no number.
    ZeroDenominator,
    /// The fraction denotes a number greater than one.
    GreaterThanOne,
}

/// An exact nonnegative rational scalar, used as the probability of an
/// outcome.  Values are validated to lie in `[0, 1]` only by
/// [`Probability::new`]; arithmetic results may exceed 1 and are
/// propagated unchecked, as unnormalized magnitudes are needed while
/// conditioning.
#[derive(Clone, Copy, Debug)]
pub struct Probability {
    num: u64,
    den: u64,
}

impl View for Probability {
    type V = Ratio;

    closed spec fn view(&self) -> Ratio {
        Ratio { num: self.num as int, den: self.den as int }
    }
}

impl Probability {
    /// The invariant every probability value maintains: the
    /// denominator is positive, so the value denotes a number.
    #[verifier::type_invariant]
    pub closed spec fn inv(self) -> bool {
        self.den >= 1
    }

    /// A value maintaining the invariant denotes a well-formed ratio.
    pub proof fn lemma_inv_wf(self)
        requires
            self.inv(),
        ensures
            rat_wf(self@),
    {
    }

    /// The probability 0, the additive identity.
    pub fn zero() -> (r: Probability)
        ensures
            r@ == rat_zero(),
    {
        Probability { num: 0, den: 1 }
    }

    /// The probability 1, the multiplicative identity.
    pub fn one() -> (r: Probability)
        ensures
            r@ == rat_one(),
    {
        Probability { num: 1, den: 1 }
    }

    /// The validated conversion from a fraction of machine integers.
    /// This is the sole validation boundary: it rejects fractions that
    /// do not denote a number in `[0, 1]`.
    pub fn new(num: u64, den: u64) -> (r: Result<Probability, ProbabilityError>)
        ensures
            match r {
                Ok(p) => den >= 1 && num <= den && p@ == (Ratio {
                    num: num as int,
                    den: den as int,
                }),
                Err(e) => (e == ProbabilityError::ZeroDenominator && den == 0) || (e
                    == ProbabilityError::GreaterThanOne && den >= 1 && num > den),
            },
    {
        if den == 0 {
            Err(ProbabilityError::ZeroDenominator)
        } else if num > den {
            Err(ProbabilityError::GreaterThanOne)
        } else {
            Ok(Probability { num, den })
        }
    }

    /// The numerator of the fraction.
    pub fn num(&self) -> (r: u64)
        ensures
            r == self@.num,
    {
        self.num
    }

    /// The denominator of the fraction; always positive.
    pub fn den(&self) -> (r: u64)
        ensures
            r == self@.den,
            r >= 1,
    {
        proof {
            use_type_invariant(self);
        }
        self.den
    }

    /// The probability whose components are the (representable)
    /// components of the given ratio.  Specification-only; it names the
    /// results of the arithmetic operators.
    pub closed spec fn from_ratio_spec(r: Ratio) -> Probability {
        Probability { num: r.num as u64, den: r.den as u64 }
    }

    /// A representable ratio round-trips through
    /// [`Probability::from_ratio_spec`] unchanged.
    pub broadcast proof fn lemma_from_ratio_view(r: Ratio)
        requires
            rat_fits(r),
        ensures
            (#[trigger] Probability::from_ratio_spec(r))@ == r,
    {
    }

    /// The sum of two probabilities, when it is representable; `None`
    /// exactly when it is not.
    pub fn checked_add(self, other: Probability) -> (r: Option<Probability>)
        ensures
            match r {
                Some(p) => rat_fits(rat_add(self@, other@)) && p@ == rat_add(self@, other@),
                None => !rat_fits(rat_add(self@, other@)),
            },
    {
        proof {
            use_type_invariant(&self);
            use_type_invariant(&other);
        }
        if self.den == other.den {
            match self.num.checked_add(other.num) {
                Some(n) => Some(Probability { num: n, den: self.den }),
                None => None,
            }
        } else {
            proof {
                lemma_u64_prod_fits_u128(self.num, other.den);
                lemma_u64_prod_fits_u128(other.num, self.den);
                lemma_u64_prod_fits_u128(self.den, other.den);
            }
            let n1 = (self.num as u128) * (other.den as u128);
            let n2 = (other.num as u128) * (self.den as u128);
            let d = (self.den as u128) * (other.den as u128);
            if n1 <= u128::MAX - n2 && n1 + n2 <= u64::MAX as u128 && d <= u64::MAX as u128 {
                Some(Probability { num: (n1 + n2) as u64, den: d as u64 })
            } else {
                None
            }
        }
    }

    /// The product of two probabilities, when it is representable;
    /// `None` exactly when it is not.
    pub fn checked_mul(self, other: Probability) -> (r: Option<Probability>)
        ensures
            match r {
                Some(p) => rat_fits(rat_mul(self@, other@)) && p@ == rat_mul(self@, other@),
                None => !rat_fits(rat_mul(self@, other@)),
            },
    {
        proof {
            use_type_invariant(&self);
            use_type_invariant(&other);
        }
        proof {
            lemma_u64_prod_fits_u128(self.num, other.num);
            lemma_u64_prod_fits_u128(self.den, other.den);
        }
        let n = (self.num as u128) * (other.num as u128);
        let d = (self.den as u128) * (other.den as u128);
        if n <= u64::MAX as u128 && d <= u64::MAX as u128 {
            Some(Probability { num: n as u64, den: d as u64 })
        } else {
            None
        }
    }

    /// The probability scaled by a whole number of occurrences, when
    /// the result is representable; `None` exactly when it is not.
    pub fn checked_scale(self, v: u64) -> (r: Option<Probability>)
        ensures
            match r {
                Some(p) => rat_fits(rat_scale(v as int, self@)) && p@ == rat_scale(
                    v as int,
                    self@,
                ),
                None => !rat_fits(rat_scale(v as int, self@)),
            },
    {
        proof {
            use_type_invariant(&self);
            lemma_u64_prod_fits_u128(v, self.num);
        }
        let n = (v as u128) * (self.num as u128);
        if n <= u64::MAX as u128 {
            Some(Probability { num: n as u64, den: self.den })
        } else {
            None
        }
    }

    /// The quotient of two probabilities, when the divisor is nonzero
    /// and the quotient is representable; `None` exactly otherwise.
    pub fn checked_div(self, other: Probability) -> (r: Option<Probability>)
        ensures
            match r {
                Some(p) => other@.num >= 1 && rat_fits(rat_div(self@, other@)) && p@ == rat_div(
                    self@,
                    other@,
                ),
                None => other@.num == 0 || !rat_fits(rat_div(self@, other@)),
            },
    {
        proof {
            use_type_invariant(&self);
            use_type_invariant(&other);
        }
        if other.num == 0 {
            return None;
        }
        proof {
            lemma_u64_prod_fits_u128(self.num, other.den);
            lemma_u64_prod_fits_u128(self.den, other.num);
        }
        let n = (self.num as u128) * (other.den as u128);
        let d = (self.den as u128) * (other.num as u128);
        if n <= u64::MAX as u128 && d <= u64::MAX as u128 {
            Some(Probability { num: n as u64, den: d as u64 })
        } else {
            None
        }
    }
}

/// The product of two 64-bit values fits in 128 bits.
proof fn lemma_u64_prod_fits_u128(a: u64, b: u64)
    ensures
        0 <= (a as int) * (b as int) <= u128::MAX,
        a >= 1 && b >= 1 ==> (a as int) * (b as int) >= 1,
{
    assert(0 <= (a as int) * (b as int) <= u64::MAX * u64::MAX && (a >= 1 && b >= 1 ==> (a as int)
        * (b as int) >= 1)) by (nonlinear_arith)
        requires
            0 <= a <= u64::MAX,
            0 <= b <= u64::MAX,
    ;
}

impl core::ops::Add for Probability {
    type Output = Probability;

    /// Exact addition; the caller must know the result is representable.
    fn add(self, other: Probability) -> (r: Probability) {
        proof {
            use_type_invariant(&self);
            use_type_invariant(&other);
        }
        if self.den == other.den {
            Probability { num: self.num + other.num, den: self.den }
        } else {
            proof {
                lemma_u64_prod_fits_u128(self.num, other.den);
                lemma_u64_prod_fits_u128(other.num, self.den);
            }
            Probability {
                num: self.num * other.den + other.num * self.den,
                den: self.den * other.den,
            }
        }
    }
}

impl vstd::std_specs::ops::AddSpecImpl for Probability {
    open spec fn obeys_add_spec() -> bool {
        true
    }

    open spec fn add_req(self, other: Probability) -> bool {
        rat_fits(rat_add(self@, other@))
    }

    open spec fn add_spec(self, other: Probability) -> Probability {
        Probability::from_ratio_spec(rat_add(self@, other@))
    }
}

impl core::ops::Sub for Probability {
    type Output = Probability;

    /// Exact subtraction; the caller must know the difference is
    /// nonnegative and representable.
    fn sub(self, other: Probability) -> (r: Probability) {
        proof {
            use_type_invariant(&self);
            use_type_invariant(&other);
        }
        if self.den == other.den {
            Probability { num: self.num - other.num, den: self.den }
        } else {
            proof {
                lemma_u64_prod_fits_u128(self.num, other.den);
                lemma_u64_prod_fits_u128(other.num, self.den);
            }
            let n = (self.num as u128) * (other.den as u128) - (other.num as u128) * (self.den
                as u128);
            Probability { num: n as u64, den: self.den * other.den }
        }
    }
}

impl vstd::std_specs::ops::SubSpecImpl for Probability {
    open spec fn obeys_sub_spec() -> bool {
        true
    }

    open spec fn sub_req(self, other: Probability) -> bool {
        rat_sub(self@, other@).num >= 0 && rat_fits(rat_sub(self@, other@))
    }

    open spec fn sub_spec(self, other: Probability) -> Probability {
        Probability::from_ratio_spec(rat_sub(self@, other@))
    }
}

impl core::ops::Mul for Probability {
    type Output = Probability;

    /// Exact multiplication; the caller must know the result is
    /// representable.
    fn mul(self, other: Probability) -> (r: Probability) {
        proof {
            use_type_invariant(&self);
            use_type_invariant(&other);
        }
        Probability { num: self.num * other.num, den: self.den * other.den }
    }
}

impl vstd::std_specs::ops::MulSpecImpl for Probability {
    open spec fn obeys_mul_spec() -> bool {
        true
    }

    open spec fn mul_req(self, other: Probability) -> bool {
        rat_fits(rat_mul(self@, other@))
    }

    open spec fn mul_spec(self, other: Probability) -> Probability {
        Probability::from_ratio_spec(rat_mul(self@, other@))
    }
}

impl core::ops::Div for Probability {
    type Output = Probability;

    /// Exact division; the caller must know the divisor is nonzero and
    /// the result representable.
    fn div(self, other: Probability) -> (r: Probability) {
        proof {
            use_type_invariant(&self);
            use_type_invariant(&other);
        }
        Probability { num: self.num * other.den, den: self.den * other.num }
    }
}

impl vstd::std_specs::ops::DivSpecImpl for Probability {
    open spec fn obeys_div_spec() -> bool {
        true
    }

    open spec fn div_req(self, other: Probability) -> bool {
        other@.num >= 1 && rat_fits(rat_div(self@, other@))
    }

    open spec fn div_spec(self, other: Probability) -> Probability {
        Probability::from_ratio_spec(rat_div(self@, other@))
    }
}

impl PartialEq for Probability {
    /// Two probabilities are equal when they denote the same rational
    /// number, regardless of representation.
    fn eq(&self, other: &Probability) -> (r: bool) {
        proof {
            lemma_u64_prod_fits_u128(self.num, other.den);
            lemma_u64_prod_fits_u128(other.num, self.den);
        }
        (self.num as u128) * (other.den as u128) == (other.num as u128) * (self.den as u128)
    }
}

impl vstd::std_specs::cmp::PartialEqSpecImpl for Probability {
    open spec fn obeys_eq_spec() -> bool {
        true
    }

    open spec fn eq_spec(&self, other: &Probability) -> bool {
        rat_eq(self@, other@)
    }
}

} // verus!
