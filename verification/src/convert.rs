//! Converting a value from one unit to another.

use vstd::prelude::*;
use crate::conversion::Conversion;
use crate::evaluate::{can_evaluate, evaluate, is_evaluation};
use crate::path::{is_chosen_path, is_path, links, path_at};
use crate::search::find_conversion_path;

verus! {

/// Converts `input` from `source_unit` to `target_unit`: finds the chosen
/// path between the two units in `conversions` and applies it to `input`,
/// multiplying by `times` where a conversion is a rate.
///
/// The result is `None` exactly when the table holds no path between the
/// two units.
pub fn convert<R: Copy, F: Fn(R) -> R, M: Fn(R, R) -> R>(
    input: R,
    source_unit: &str,
    target_unit: &str,
    conversions: &Vec<Conversion<R, F>>,
    times: M,
) -> (converted: Option<R>)
    requires
        forall|steps: Seq<usize>| #[trigger]
            is_chosen_path(links(conversions@), source_unit@, target_unit@, steps)
                ==> can_evaluate(path_at(conversions@, steps), times, input),
    ensures
        match converted {
            Some(output) => exists|steps: Seq<usize>, values: Seq<R>|
                {
                    &&& is_chosen_path(links(conversions@), source_unit@, target_unit@, steps)
                    &&& #[trigger] is_evaluation(path_at(conversions@, steps), times, values)
                    &&& values[0] == input
                    &&& values.last() == output
                },
            None => forall|steps: Seq<usize>|
                !is_path(links(conversions@), source_unit@, target_unit@, steps),
        },
{
    match find_conversion_path(source_unit, target_unit, conversions) {
        Some(path) => Some(evaluate(&path, input, times)),
        None => None,
    }
}

} // verus!
