//! What a path through a table of conversions is, and which path is chosen.
//!
//! A table is read here as the sequence of its links, a link being the pair
//! of unit names that one conversion joins.  A path is written as the
//! positions of its conversions in the table, in the order in which they are
//! applied.

use vstd::prelude::*;
use crate::conversion::Conversion;

verus! {

/// The names of the two units that one conversion joins: source, then target.
pub type Link = (Seq<char>, Seq<char>);

/// The links of a table, entry by entry.
pub open spec fn links<R, F>(conversions: Seq<Conversion<R, F>>) -> Seq<Link> {
    Seq::new(conversions.len(), |i: int| conversions[i].link())
}

/// The table names `unit`, as the source or as the target of a conversion.
pub open spec fn names_unit(table: Seq<Link>, unit: Seq<char>) -> bool {
    exists|i: int| 0 <= i < table.len() && ((#[trigger] table[i]).0 == unit || table[i].1 == unit)
}

/// Every step is a position in the table.
pub open spec fn in_table(table: Seq<Link>, steps: Seq<usize>) -> bool {
    forall|i: int| 0 <= i < steps.len() ==> (#[trigger] steps[i]) < table.len()
}

/// The first step leaves `from`, and every later step leaves the unit that
/// the step before it reached.
pub open spec fn is_chain(table: Seq<Link>, from: Seq<char>, steps: Seq<usize>) -> bool {
    &&& steps.len() > 0 ==> table[steps[0] as int].0 == from
    &&& forall|i: int|
        0 < i < steps.len() ==> table[steps[i - 1] as int].1 == table[(
        #[trigger] steps[i]) as int].0
}

/// No two steps have the same link.
pub open spec fn no_link_twice(table: Seq<Link>, steps: Seq<usize>) -> bool {
    forall|i: int, j: int|
        0 <= i < j < steps.len() ==> table[(#[trigger] steps[i]) as int] != table[(
        #[trigger] steps[j]) as int]
}

/// The unit at which `steps` ends when it starts at `from`.
pub open spec fn end_of(table: Seq<Link>, from: Seq<char>, steps: Seq<usize>) -> Seq<char> {
    if steps.len() == 0 {
        from
    } else {
        table[steps.last() as int].1
    }
}

/// `steps` is a path from `from` to `to`: at least one step, each in the
/// table, chained from `from`, ending at `to`, and no link taken twice.
pub open spec fn is_path(
    table: Seq<Link>,
    from: Seq<char>,
    to: Seq<char>,
    steps: Seq<usize>,
) -> bool {
    &&& steps.len() > 0
    &&& in_table(table, steps)
    &&& is_chain(table, from, steps)
    &&& no_link_twice(table, steps)
    &&& table[steps.last() as int].1 == to
}

/// `first` and `second` part ways at some step, and there `first` takes the
/// conversion that stands earlier in the table.
pub open spec fn precedes(first: Seq<usize>, second: Seq<usize>) -> bool {
    exists|k: int|
        0 <= k < first.len() && k < second.len() && first.take(k) == second.take(k) && (
        #[trigger] first[k]) < second[k]
}

/// `steps` is the path that a search from `from` to `to` settles on: no path
/// is shorter, and among the paths of its length it comes first.
pub open spec fn is_chosen_path(
    table: Seq<Link>,
    from: Seq<char>,
    to: Seq<char>,
    steps: Seq<usize>,
) -> bool {
    &&& is_path(table, from, to, steps)
    &&& forall|other: Seq<usize>| #[trigger]
        is_path(table, from, to, other) ==> steps.len() <= other.len()
    &&& forall|other: Seq<usize>| #[trigger]
        is_path(table, from, to, other) && other.len() == steps.len() && other != steps
            ==> precedes(steps, other)
}

/// The conversions that stand at the positions `steps` of `conversions`, in
/// the order of `steps`.
pub open spec fn path_at<'a, R, F>(
    conversions: Seq<Conversion<R, F>>,
    steps: Seq<usize>,
) -> Seq<&'a Conversion<R, F>> {
    Seq::new(steps.len(), |i: int| &conversions[steps[i] as int])
}

/// `path` leads from `from` to `to`: it is not empty, starts at `from`, ends
/// at `to`, each conversion starts at the unit that the one before it
/// reached, and no two of its conversions have the same link.
pub open spec fn is_valid_path<R, F>(
    path: Seq<&Conversion<R, F>>,
    from: Seq<char>,
    to: Seq<char>,
) -> bool {
    &&& path.len() > 0
    &&& path[0].source_unit@ == from
    &&& path.last().target_unit@ == to
    &&& forall|i: int|
        0 < i < path.len() ==> path[i - 1].target_unit@ == (#[trigger] path[i]).source_unit@
    &&& forall|i: int, j: int|
        0 <= i < j < path.len() ==> (#[trigger] path[i]).link() != (#[trigger] path[j]).link()
}

/// At most one path is chosen.
pub proof fn lemma_chosen_path_is_unique(
    table: Seq<Link>,
    from: Seq<char>,
    to: Seq<char>,
    one: Seq<usize>,
    other: Seq<usize>,
)
    requires
        is_chosen_path(table, from, to, one),
        is_chosen_path(table, from, to, other),
    ensures
        one == other,
{
    if one != other {
        let k = choose|k: int|
            0 <= k < one.len() && k < other.len() && one.take(k) == other.take(k) && (
            #[trigger] one[k]) < other[k];
        let m = choose|m: int|
            0 <= m < other.len() && m < one.len() && other.take(m) == one.take(m) && (
            #[trigger] other[m]) < one[m];
        if k < m {
            assert(other.take(m)[k] == one.take(m)[k]);
        } else if m < k {
            assert(one.take(k)[m] == other.take(k)[m]);
        }
    }
}

/// The conversions at the positions of a path form a valid path.
pub proof fn lemma_path_is_valid<R, F>(
    conversions: Seq<Conversion<R, F>>,
    from: Seq<char>,
    to: Seq<char>,
    steps: Seq<usize>,
)
    requires
        is_path(links(conversions), from, to, steps),
    ensures
        is_valid_path(path_at(conversions, steps), from, to),
{
}

/// A path joins only units that the table names: where either unit is
/// missing from the table, there is no path.
pub proof fn lemma_path_joins_known_units(
    table: Seq<Link>,
    from: Seq<char>,
    to: Seq<char>,
    steps: Seq<usize>,
)
    requires
        is_path(table, from, to, steps),
    ensures
        names_unit(table, from),
        names_unit(table, to),
{
}

} // verus!
