//! The sign of a measurement.
use vstd::prelude::*;

verus! {

/// The sign of a measurement.
#[derive(Clone, Copy, Debug, PartialEq, Eq, Hash, Structural)]
pub enum Phase {
    Positive,
    Negative,
}

impl Phase {
    /// `true` for the negative phase.
    pub open spec fn spec_sign_bit(&self) -> bool {
        *self == Phase::Negative
    }

    /// The phase with the given sign bit.
    pub open spec fn of_sign_bit(bit: bool) -> Phase {
        if bit {
            Phase::Negative
        } else {
            Phase::Positive
        }
    }

    /// `true` for the negative phase.
    #[verifier::when_used_as_spec(spec_sign_bit)]
    pub fn sign_bit(&self) -> (r: bool)
        ensures
            r == self.spec_sign_bit(),
    {
        match self {
            Phase::Positive => false,
            Phase::Negative => true,
        }
    }

    /// The phase of a signed number: negative below zero.
    pub fn from_i64(val: i64) -> (r: Self)
        ensures
            r == Phase::of_sign_bit(val < 0),
    {
        if val >= 0 {
            Phase::Positive
        } else {
            Phase::Negative
        }
    }
}

impl From<bool> for Phase {
    fn from(value: bool) -> (r: Self) {
        if value {
            Phase::Negative
        } else {
            Phase::Positive
        }
    }
}

impl vstd::std_specs::convert::FromSpecImpl<bool> for Phase {
    open spec fn obeys_from_spec() -> bool {
        true
    }

    open spec fn from_spec(value: bool) -> Phase {
        Phase::of_sign_bit(value)
    }
}

} // verus!
