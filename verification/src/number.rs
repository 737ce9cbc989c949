//! The decimal values that expressions compute with.

use vstd::prelude::*;

verus! {

/// Largest magnitude a mantissa can have: 96 bits, all set.
pub const MAX_MANTISSA: i128 = 0xFFFF_FFFF_FFFF_FFFF_FFFF_FFFF;

/// Largest number of fractional digits.
pub const MAX_SCALE: u32 = 28;

/// An exact base-10 number: `mantissa / 10^scale`.
///
/// The mantissa fits in 96 bits plus a sign and the scale is at most 28,
/// which is the range of the decimal arithmetic the evaluator relies on.
#[derive(Clone, Copy, Debug)]
pub struct Number {
    pub(crate) mantissa: i128,
    pub(crate) scale: u32,
}

/// Ten to the power `n`.
pub open spec fn pow10(n: nat) -> int
    decreases n,
{
    if n == 0 {
        1
    } else {
        10 * pow10((n - 1) as nat)
    }
}

/// Whether a mantissa and a scale are within the representable range.
pub open spec fn in_range(mantissa: int, scale: int) -> bool {
    &&& -MAX_MANTISSA <= mantissa <= MAX_MANTISSA
    &&& 0 <= scale <= MAX_SCALE
}

/// The value of a comparison: 1.0 for true, 0.0 for false.
pub open spec fn truth_value(holds: bool) -> Number {
    if holds {
        Number::from_parts(10, 1)
    } else {
        Number::from_parts(0, 1)
    }
}

impl Number {
    /// Mantissa and scale are within range, in every number there is.
    #[verifier::type_invariant]
    pub closed spec fn well_formed(self) -> bool {
        in_range(self.mantissa as int, self.scale as int)
    }

    /// The signed digits of the number, without the decimal point.
    pub closed spec fn spec_mantissa(&self) -> i128 {
        self.mantissa
    }

    /// The number of digits to the right of the decimal point.
    pub closed spec fn spec_scale(&self) -> u32 {
        self.scale
    }

    /// Whether two numbers have the same value, whatever their scales:
    /// `1.0` and `1.00` do.
    pub open spec fn same_value(self, other: Number) -> bool {
        self.spec_mantissa() * pow10(other.spec_scale() as nat) == other.spec_mantissa() * pow10(
            self.spec_scale() as nat,
        )
    }

    /// The number with the given mantissa and scale.
    pub closed spec fn from_parts(mantissa: i128, scale: u32) -> Number {
        Number { mantissa, scale }
    }

    /// A number is its mantissa and its scale, and nothing more.
    pub proof fn lemma_parts(self)
        ensures
            self == Number::from_parts(self.spec_mantissa(), self.spec_scale()),
    {
    }

    /// `from_parts` keeps both parts as they are given.
    pub proof fn lemma_from_parts(mantissa: i128, scale: u32)
        ensures
            Number::from_parts(mantissa, scale).spec_mantissa() == mantissa,
            Number::from_parts(mantissa, scale).spec_scale() == scale,
    {
    }

    /// `mantissa / 10^scale`, or `None` where the pair is out of range.
    pub fn new(mantissa: i128, scale: u32) -> (result: Option<Number>)
        ensures
            result == if in_range(mantissa as int, scale as int) {
                Some(Number::from_parts(mantissa, scale))
            } else {
                None
            },
            result matches Some(n) ==> n.spec_mantissa() == mantissa && n.spec_scale() == scale,
    {
        if scale <= MAX_SCALE && -MAX_MANTISSA <= mantissa && mantissa <= MAX_MANTISSA {
            Some(Number { mantissa, scale })
        } else {
            None
        }
    }

    /// The value of a comparison: 1.0 for true, 0.0 for false.
    pub fn truth(holds: bool) -> (n: Number)
        ensures
            n == truth_value(holds),
    {
        if holds {
            Number { mantissa: 10, scale: 1 }
        } else {
            Number { mantissa: 0, scale: 1 }
        }
    }

    /// Whether the number is zero, at whatever scale.
    pub fn is_zero(&self) -> (b: bool)
        ensures
            b == (self.spec_mantissa() == 0),
    {
        self.mantissa == 0
    }

    /// The signed digits of the number, without the decimal point.
    #[verifier::when_used_as_spec(spec_mantissa)]
    pub fn mantissa(&self) -> (m: i128)
        ensures
            m == self.spec_mantissa(),
            in_range(m as int, self.spec_scale() as int),
    {
        proof {
            use_type_invariant(self);
        }
        self.mantissa
    }

    /// The number of digits to the right of the decimal point.
    #[verifier::when_used_as_spec(spec_scale)]
    pub fn scale(&self) -> (s: u32)
        ensures
            s == self.spec_scale(),
            in_range(self.spec_mantissa() as int, s as int),
    {
        proof {
            use_type_invariant(self);
        }
        self.scale
    }
}

/// Numbers are equal when they have the same value: `1.0 == 1.00`.
impl PartialEq for Number {
    fn eq(&self, other: &Number) -> (b: bool) {
        crate::decimal::equal(*self, *other)
    }
}

impl Eq for Number {}

/// What `==` means in contracts.
impl vstd::std_specs::cmp::PartialEqSpecImpl for Number {
    open spec fn obeys_eq_spec() -> bool {
        true
    }

    open spec fn eq_spec(&self, other: &Number) -> bool {
        self.same_value(*other)
    }
}

} // verus!
