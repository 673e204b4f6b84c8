//! Applying a path of conversions to a value.

use vstd::prelude::*;
use crate::conversion::{Calculation, Conversion};

verus! {

/// `calculation` accepts `value`: the multiplication accepts it with the
/// rate, or the forward formula accepts it.
pub open spec fn accepts<R, F: Fn(R) -> R, M: Fn(R, R) -> R>(
    calculation: Calculation<R, F>,
    times: M,
    value: R,
) -> bool {
    match calculation {
        Calculation::Rate(rate) => times.requires((value, rate)),
        Calculation::Func { forward, reverse } => forward.requires((value,)),
    }
}

/// `calculation` may take `before` to `after`: a rate by multiplying, with
/// the value on the left, a pair of formulas by its forward formula.
pub open spec fn applies<R, F: Fn(R) -> R, M: Fn(R, R) -> R>(
    calculation: Calculation<R, F>,
    times: M,
    before: R,
    after: R,
) -> bool {
    match calculation {
        Calculation::Rate(rate) => times.ensures((before, rate), after),
        Calculation::Func { forward, reverse } => forward.ensures((before,), after),
    }
}

/// `values` holds the value before the first conversion of `path` and the
/// value after each conversion, every conversion applied to the value that
/// the one before it gave.
pub open spec fn is_evaluation<R, F: Fn(R) -> R, M: Fn(R, R) -> R>(
    path: Seq<&Conversion<R, F>>,
    times: M,
    values: Seq<R>,
) -> bool {
    &&& values.len() == path.len() + 1
    &&& forall|i: int|
        0 <= i < path.len() ==> applies(
            (#[trigger] path[i]).calculation,
            times,
            values[i],
            values[i + 1],
        )
}

/// Every conversion of `path` accepts the value that reaches it when the
/// evaluation starts from `input`, whatever the conversions before it gave.
pub open spec fn can_evaluate<R, F: Fn(R) -> R, M: Fn(R, R) -> R>(
    path: Seq<&Conversion<R, F>>,
    times: M,
    input: R,
) -> bool {
    forall|k: int, values: Seq<R>|
        0 <= k < path.len() && #[trigger] is_evaluation(path.take(k), times, values) && values[0]
            == input ==> accepts(path[k].calculation, times, values.last())
}

/// Converts `input` along `path`, from the first conversion to the last.
///
/// A rate multiplies the running value, by `times`; a pair of formulas
/// applies its forward formula to it.  An empty path gives `input` back.
pub fn evaluate<R: Copy, F: Fn(R) -> R, M: Fn(R, R) -> R>(
    path: &Vec<&Conversion<R, F>>,
    input: R,
    times: M,
) -> (output: R)
    requires
        can_evaluate(path@, times, input),
    ensures
        exists|values: Seq<R>|
            #[trigger] is_evaluation(path@, times, values) && values[0] == input && values.last()
                == output,
{
    let mut value = input;
    let ghost mut values: Seq<R> = seq![input];
    let mut i: usize = 0;
    while i < path.len()
        invariant
            i <= path.len(),
            can_evaluate(path@, times, input),
            is_evaluation(path@.take(i as int), times, values),
            values[0] == input,
            values.last() == value,
        decreases path.len() - i,
    {
        let next = match &path[i].calculation {
            Calculation::Rate(rate) => times(value, *rate),
            Calculation::Func { forward, .. } => forward(value),
        };
        proof {
            values = values.push(next);
        }
        value = next;
        i += 1;
    }
    assert(path@.take(path.len() as int) =~= path@);
    value
}

/// A conversion and then its inverse multiply by the rate and then by what
/// the reciprocal made of it, or apply the forward formula and then the
/// reverse formula.
pub proof fn lemma_there_and_back<R, F: Fn(R) -> R, M: Fn(R, R) -> R, I: FnOnce(R) -> R>(
    there: &Conversion<R, F>,
    back: &Conversion<R, F>,
    reciprocal: I,
    times: M,
    values: Seq<R>,
)
    requires
        back.inverts(there, reciprocal),
        is_evaluation(seq![there, back], times, values),
    ensures
        values.len() == 3,
        match there.calculation {
            Calculation::Rate(rate) => exists|inverse: R|
                {
                    &&& #[trigger] reciprocal.ensures((rate,), inverse)
                    &&& times.ensures((values[0], rate), values[1])
                    &&& times.ensures((values[1], inverse), values[2])
                },
            Calculation::Func { forward, reverse } => {
                &&& forward.ensures((values[0],), values[1])
                &&& reverse.ensures((values[1],), values[2])
            },
        },
{
}

} // verus!
