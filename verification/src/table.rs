//! Tables of conversions.

use vstd::prelude::*;
use crate::conversion::{Calculation, Conversion};
use crate::path::{links, names_unit};

verus! {

/// `conversions` holds, for each entry of `entries` in order, the
/// conversion that the entry describes and then an inverse of it made with
/// `reciprocal`.
pub open spec fn is_built_from<R, F, I: Fn(R) -> R>(
    conversions: Seq<Conversion<R, F>>,
    entries: Seq<(&str, Calculation<R, F>, &str)>,
    reciprocal: I,
) -> bool {
    &&& conversions.len() == 2 * entries.len()
    &&& forall|i: int|
        #![trigger entries[i]]
        0 <= i < entries.len() ==> {
            &&& conversions[2 * i].source_unit@ == entries[i].0@
            &&& conversions[2 * i].calculation == entries[i].1
            &&& conversions[2 * i].target_unit@ == entries[i].2@
            &&& conversions[2 * i + 1].inverts(&conversions[2 * i], reciprocal)
        }
}

/// Builds a table from `entries`, each a source unit, a calculation and a
/// target unit: every entry gives its conversion and, right after it, the
/// inverse of that conversion, with rates inverted by `reciprocal`.
pub fn build_conversions<R: Copy, F: Copy, I: Fn(R) -> R>(
    entries: &Vec<(&str, Calculation<R, F>, &str)>,
    reciprocal: I,
) -> (conversions: Vec<Conversion<R, F>>)
    requires
        forall|i: int|
            #![trigger entries[i]]
            0 <= i < entries.len() ==> (entries[i].1 matches Calculation::Rate(rate)
                ==> reciprocal.requires((rate,))),
    ensures
        is_built_from(conversions@, entries@, reciprocal),
{
    let mut conversions: Vec<Conversion<R, F>> = Vec::new();
    let mut n: usize = 0;
    while n < entries.len()
        invariant
            n <= entries.len(),
            forall|i: int|
                #![trigger entries[i]]
                0 <= i < entries.len() ==> (entries[i].1 matches Calculation::Rate(rate)
                    ==> reciprocal.requires((rate,))),
            is_built_from(conversions@, entries@.take(n as int), reciprocal),
        decreases entries.len() - n,
    {
        let entry = &entries[n];
        let conversion = Conversion::new(entry.0, entry.1, entry.2);
        let inverse = conversion.invert(&reciprocal);
        conversions.push(conversion);
        conversions.push(inverse);
        n += 1;
    }
    assert(entries@.take(entries.len() as int) =~= entries@);
    conversions
}

/// Whether `conversions` names `unit`, as the source or as the target of a
/// conversion.
pub fn knows_unit<R, F>(conversions: &Vec<Conversion<R, F>>, unit: &str) -> (known: bool)
    ensures
        known == names_unit(links(conversions@), unit@),
{
    let name = unit.to_owned();
    let mut n: usize = 0;
    while n < conversions.len()
        invariant
            n <= conversions.len(),
            name@ == unit@,
            forall|i: int|
                0 <= i < n ==> (#[trigger] links(conversions@)[i]).0 != unit@ && links(
                    conversions@,
                )[i].1 != unit@,
        decreases conversions.len() - n,
    {
        assert(links(conversions@)[n as int] == conversions[n as int].link());
        if conversions[n].source_unit == name || conversions[n].target_unit == name {
            return true;
        }
        n += 1;
    }
    false
}

} // verus!
