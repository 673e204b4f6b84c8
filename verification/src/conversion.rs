//! Conversions between two named units.

use vstd::prelude::*;
use vstd::std_specs::cmp::PartialEqSpecImpl;

verus! {

/// How a value in one unit becomes a value in another.
///
/// `R` is the type of rates and of the values that are converted, `F` the
/// type of a formula.  The library does no arithmetic of its own on an `R`:
/// where it needs some, the caller hands it in.
pub enum Calculation<R, F> {
    /// One source unit is worth this many target units.
    Rate(R),
    /// A pair of formulas, `forward` from source to target and `reverse`
    /// from target to source.  Each is meant to undo the other; this is the
    /// caller's to see to, and nothing here relies on it.
    Func { forward: F, reverse: F },
}

impl<R: Copy, F: Copy> Clone for Calculation<R, F> {
    fn clone(&self) -> (copy: Self)
        ensures
            copy == *self,
    {
        *self
    }
}

impl<R: Copy, F: Copy> Copy for Calculation<R, F> {}

/// A directed conversion from `source_unit` to `target_unit`.
///
/// A unit is its name and nothing else; any string is a name.
pub struct Conversion<R, F> {
    pub source_unit: String,
    pub calculation: Calculation<R, F>,
    pub target_unit: String,
}

impl<R, F> Conversion<R, F> {
    /// The names of the two units that this conversion joins: source, then target.
    pub open spec fn link(&self) -> (Seq<char>, Seq<char>) {
        (self.source_unit@, self.target_unit@)
    }

    /// `self` is an inverse of `given`, made with `reciprocal`: the units
    /// change places; a rate becomes what `reciprocal` gives for it; a pair
    /// of formulas changes places.
    pub open spec fn inverts<I: FnOnce(R) -> R>(&self, given: &Self, reciprocal: I) -> bool {
        &&& self.source_unit@ == given.target_unit@
        &&& self.target_unit@ == given.source_unit@
        &&& match given.calculation {
            Calculation::Rate(rate) => {
                &&& self.calculation matches Calculation::Rate(inverse)
                &&& reciprocal.ensures((rate,), inverse)
            },
            Calculation::Func { forward, reverse } => {
                &&& self.calculation matches Calculation::Func { forward: there, reverse: back }
                &&& there == reverse
                &&& back == forward
            },
        }
    }

    /// Creates a conversion from `source_unit` to `target_unit`.
    pub fn new(source_unit: &str, calculation: Calculation<R, F>, target_unit: &str) -> (made: Self)
        ensures
            made.source_unit@ == source_unit@,
            made.calculation == calculation,
            made.target_unit@ == target_unit@,
    {
        Conversion {
            source_unit: source_unit.to_owned(),
            calculation,
            target_unit: target_unit.to_owned(),
        }
    }

    /// Makes the conversion back from `target_unit` to `source_unit`.
    ///
    /// The units change places.  A rate is handed to `reciprocal`, and what
    /// comes back is the new rate; a pair of formulas changes places and
    /// `reciprocal` is not called.  `self` stays as it is.
    pub fn invert<I: FnOnce(R) -> R>(&self, reciprocal: I) -> (inverse: Self) where
        R: Copy,
        F: Copy,

        requires
            self.calculation matches Calculation::Rate(rate) ==> reciprocal.requires((rate,)),
        ensures
            inverse.inverts(self, reciprocal),
    {
        Conversion {
            source_unit: self.target_unit.clone(),
            calculation: match &self.calculation {
                Calculation::Rate(rate) => Calculation::Rate(reciprocal(*rate)),
                Calculation::Func { forward, reverse } => Calculation::Func {
                    forward: *reverse,
                    reverse: *forward,
                },
            },
            target_unit: self.source_unit.clone(),
        }
    }
}

/// Two conversions are equal when they join the same two units in the same
/// direction, whatever their calculations.
impl<R, F> PartialEq for Conversion<R, F> {
    fn eq(&self, other: &Self) -> (same: bool) {
        self.source_unit == other.source_unit && self.target_unit == other.target_unit
    }
}

impl<R, F> PartialEqSpecImpl for Conversion<R, F> {
    open spec fn obeys_eq_spec() -> bool {
        true
    }

    open spec fn eq_spec(&self, other: &Self) -> bool {
        self.link() == other.link()
    }
}

/// The inverse of an inverse joins the units of the conversion it came
/// from, in the same direction.  A pair of formulas is back as it was.  A
/// rate is back as the reciprocal of its reciprocal, and so as it was
/// wherever that is the rate itself.
pub proof fn lemma_invert_twice<R, F, I: FnOnce(R) -> R, J: FnOnce(R) -> R>(
    given: Conversion<R, F>,
    inverse: Conversion<R, F>,
    back: Conversion<R, F>,
    first: I,
    second: J,
)
    requires
        inverse.inverts(&given, first),
        back.inverts(&inverse, second),
    ensures
        back.link() == given.link(),
        given.calculation is Func ==> back.calculation == given.calculation,
        given.calculation matches Calculation::Rate(rate) ==> {
            &&& back.calculation matches Calculation::Rate(again)
            &&& exists|between: R|
                #![trigger first.ensures((rate,), between)]
                first.ensures((rate,), between) && second.ensures((between,), again)
        },
        (given.calculation matches Calculation::Rate(rate) ==> forall|between: R, again: R|
            first.ensures((rate,), between) && #[trigger] second.ensures((between,), again)
                ==> again == rate) ==> back.calculation == given.calculation,
{
}

} // verus!
