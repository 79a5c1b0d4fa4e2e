//! The angle of a rotation.
use vstd::prelude::*;

verus! {

/// The angles of the Clifford+T rotations. The code of pi/2 is 0; the code
/// of +-pi/4 is +-2 and that of +-pi/8 is +-1, so that negating the code
/// negates the angle.
#[derive(Clone, Copy, Debug, PartialEq, Eq, Hash, Structural)]
pub enum Angle {
    Pi2,
    PlusPi8,
    MinusPi8,
    PlusPi4,
    MinusPi4,
}

impl Angle {
    /// The integer code of the angle.
    pub open spec fn spec_code(self) -> int {
        match self {
            Angle::Pi2 => 0,
            Angle::PlusPi8 => 1,
            Angle::MinusPi8 => -1,
            Angle::PlusPi4 => 2,
            Angle::MinusPi4 => -2,
        }
    }

    /// The angle with the given code; pi/2 for a number that is no code.
    pub open spec fn of_code(code: int) -> Angle {
        if code == 1 {
            Angle::PlusPi8
        } else if code == -1 {
            Angle::MinusPi8
        } else if code == 2 {
            Angle::PlusPi4
        } else if code == -2 {
            Angle::MinusPi4
        } else {
            Angle::Pi2
        }
    }

    /// Whether the angle is negative.
    pub open spec fn spec_sign_bit(&self) -> bool {
        self.spec_code() < 0
    }

    /// Whether the angle is plus or minus pi/8.
    pub open spec fn spec_is_pi8(&self) -> bool {
        *self == Angle::PlusPi8 || *self == Angle::MinusPi8
    }

    /// The angle of the same size whose sign bit is `bit`.
    pub open spec fn with_sign_bit(self, bit: bool) -> Angle {
        let size = if self.spec_code() < 0 {
            -self.spec_code()
        } else {
            self.spec_code()
        };
        Angle::of_code(
            if bit {
                -size
            } else {
                size
            },
        )
    }

    /// The integer code of the angle.
    pub fn code(&self) -> (r: i8)
        ensures
            r == self.spec_code(),
    {
        match self {
            Angle::Pi2 => 0,
            Angle::PlusPi8 => 1,
            Angle::MinusPi8 => -1,
            Angle::PlusPi4 => 2,
            Angle::MinusPi4 => -2,
        }
    }

    /// The angle with the given code, which lies between -2 and 2.
    pub fn from_code(code: i8) -> (r: Self)
        requires
            -2 <= code <= 2,
        ensures
            r == Angle::of_code(code as int),
            r.spec_code() == code,
    {
        if code == 1 {
            Angle::PlusPi8
        } else if code == -1 {
            Angle::MinusPi8
        } else if code == 2 {
            Angle::PlusPi4
        } else if code == -2 {
            Angle::MinusPi4
        } else {
            Angle::Pi2
        }
    }

    /// The angle with the given code, if it is one.
    pub fn try_from_code(code: i64) -> (r: Option<Self>)
        ensures
            r is Some <==> -2 <= code <= 2,
            r matches Some(a) ==> a.spec_code() == code,
    {
        if -2 <= code && code <= 2 {
            Some(Angle::from_code(code as i8))
        } else {
            None
        }
    }

    /// `true` for the negative angles.
    #[verifier::when_used_as_spec(spec_sign_bit)]
    pub fn sign_bit(&self) -> (r: bool)
        ensures
            r == self.spec_sign_bit(),
    {
        match self {
            Angle::Pi2 => false,
            Angle::PlusPi8 => false,
            Angle::MinusPi8 => true,
            Angle::PlusPi4 => false,
            Angle::MinusPi4 => true,
        }
    }

    /// The angle of the same size whose sign bit is `new_sign_bit`.
    pub fn use_sign_bit(&self, new_sign_bit: bool) -> (r: Self)
        ensures
            r == self.with_sign_bit(new_sign_bit),
            r.spec_is_pi8() == self.spec_is_pi8(),
    {
        let flip = new_sign_bit != self.sign_bit();
        let this_angle: i8 = self.code();
        let sign_flip: i8 = if flip {
            -1i8
        } else {
            1i8
        };
        Angle::from_code(this_angle * sign_flip)
    }

    /// `true` for the two pi/8 angles.
    #[verifier::when_used_as_spec(spec_is_pi8)]
    pub fn is_pi8(&self) -> (r: bool)
        ensures
            r == self.spec_is_pi8(),
    {
        match self {
            Angle::PlusPi8 => true,
            Angle::MinusPi8 => true,
            _ => false,
        }
    }

    /// The opposite angle.
    pub fn neg(self) -> (r: Self)
        ensures
            r.spec_code() == -self.spec_code(),
    {
        Angle::from_code(-self.code())
    }
}

} // verus!
