//! The search for a path between two units.
//!
//! The search walks the table depth first and collects every direct path,
//! that is every path that reaches the target with its last step only.  It
//! then keeps the first of the shortest ones.

use vstd::prelude::*;
use crate::conversion::Conversion;
use crate::path::{
    end_of, in_table, is_chain, is_chosen_path, is_path, is_valid_path, lemma_path_is_valid,
    links, no_link_twice, path_at, precedes, Link,
};

verus! {

/// `steps` may still be extended: it is chained from `from`, takes no link
/// twice and has not reached `to`.
spec fn is_trail(table: Seq<Link>, from: Seq<char>, to: Seq<char>, steps: Seq<usize>) -> bool {
    &&& in_table(table, steps)
    &&& is_chain(table, from, steps)
    &&& no_link_twice(table, steps)
    &&& forall|i: int| 0 <= i < steps.len() ==> table[(#[trigger] steps[i]) as int].1 != to
}

/// `steps` is a path that reaches `to` with its last step only.
spec fn is_direct(table: Seq<Link>, from: Seq<char>, to: Seq<char>, steps: Seq<usize>) -> bool {
    &&& is_path(table, from, to, steps)
    &&& forall|i: int| 0 <= i < steps.len() - 1 ==> table[(#[trigger] steps[i]) as int].1 != to
}

/// `steps` is a direct path that begins with `prefix`, goes on, and takes as
/// its next step a conversion that stands before `bound` in the table.
spec fn is_wanted(
    table: Seq<Link>,
    from: Seq<char>,
    to: Seq<char>,
    prefix: Seq<usize>,
    bound: int,
    steps: Seq<usize>,
) -> bool {
    &&& is_direct(table, from, to, steps)
    &&& prefix.len() < steps.len()
    &&& steps.take(prefix.len() as int) == prefix
    &&& steps[prefix.len() as int] < bound
}

/// `paths` holds the wanted paths, each once, the earlier first.
spec fn collects(
    table: Seq<Link>,
    from: Seq<char>,
    to: Seq<char>,
    prefix: Seq<usize>,
    bound: int,
    paths: Seq<Vec<usize>>,
) -> bool {
    &&& forall|k: int|
        0 <= k < paths.len() ==> is_wanted(table, from, to, prefix, bound, (#[trigger] paths[k])@)
    &&& forall|steps: Seq<usize>| #[trigger]
        is_wanted(table, from, to, prefix, bound, steps) ==> exists|k: int|
            0 <= k < paths.len() && (#[trigger] paths[k])@ == steps
    &&& forall|k: int, m: int|
        0 <= k < m < paths.len() ==> precedes((#[trigger] paths[k])@, (#[trigger] paths[m])@)
}

/// Distinct numbers below `bound` are at most `bound` many.
proof fn lemma_distinct_steps_are_few(steps: Seq<usize>, bound: nat)
    requires
        forall|i: int| 0 <= i < steps.len() ==> (#[trigger] steps[i]) < bound,
        forall|i: int, j: int| 0 <= i < j < steps.len() ==> steps[i] != steps[j],
    ensures
        steps.len() <= bound,
    decreases bound,
{
    if steps.len() > 0 {
        assert(steps[0] < bound);
        let top = (bound - 1) as nat;
        if exists|i: int| 0 <= i < steps.len() && steps[i] == top {
            let at = choose|i: int| 0 <= i < steps.len() && steps[i] == top;
            let rest = steps.remove(at);
            lemma_distinct_steps_are_few(rest, top);
        } else {
            lemma_distinct_steps_are_few(steps, top);
        }
    }
}

/// A trail is no longer than the table.
proof fn lemma_trail_fits(table: Seq<Link>, from: Seq<char>, to: Seq<char>, steps: Seq<usize>)
    requires
        is_trail(table, from, to, steps),
    ensures
        steps.len() <= table.len(),
{
    lemma_distinct_steps_are_few(steps, table.len());
}

/// The first step from `start` on that reaches `to`.
proof fn first_arrival(table: Seq<Link>, to: Seq<char>, steps: Seq<usize>, start: int) -> (at: int)
    requires
        0 <= start < steps.len(),
        table[steps.last() as int].1 == to,
        forall|i: int| 0 <= i < start ==> table[(#[trigger] steps[i]) as int].1 != to,
    ensures
        start <= at < steps.len(),
        table[steps[at] as int].1 == to,
        forall|i: int| 0 <= i < at ==> table[(#[trigger] steps[i]) as int].1 != to,
    decreases steps.len() - start,
{
    if table[steps[start] as int].1 == to {
        start
    } else {
        first_arrival(table, to, steps, start + 1)
    }
}

/// Every path begins with a direct path.
proof fn lemma_direct_prefix(
    table: Seq<Link>,
    from: Seq<char>,
    to: Seq<char>,
    steps: Seq<usize>,
) -> (len: int)
    requires
        is_path(table, from, to, steps),
    ensures
        0 < len <= steps.len(),
        is_direct(table, from, to, steps.take(len)),
{
    first_arrival(table, to, steps, 0) + 1
}

/// A trail that is extended by a conversion which leaves its end, and whose
/// link it has not taken, is chained and still takes no link twice.
proof fn lemma_push_keeps_chain(table: Seq<Link>, from: Seq<char>, prefix: Seq<usize>, n: usize)
    requires
        in_table(table, prefix),
        is_chain(table, from, prefix),
        no_link_twice(table, prefix),
        n < table.len(),
        table[n as int].0 == end_of(table, from, prefix),
        !exists|i: int|
            0 <= i < prefix.len() && table[(#[trigger] prefix[i]) as int] == table[n as int],
    ensures
        in_table(table, prefix.push(n)),
        is_chain(table, from, prefix.push(n)),
        no_link_twice(table, prefix.push(n)),
{
}

/// A wanted path takes as its next step a conversion that leaves the end of
/// the prefix, and whose link the prefix has not taken.
proof fn lemma_next_step_is_free(
    table: Seq<Link>,
    from: Seq<char>,
    to: Seq<char>,
    prefix: Seq<usize>,
    bound: int,
    steps: Seq<usize>,
)
    requires
        is_wanted(table, from, to, prefix, bound, steps),
    ensures
        table[steps[prefix.len() as int] as int].0 == end_of(table, from, prefix),
        !exists|i: int|
            0 <= i < prefix.len() && table[(#[trigger] prefix[i]) as int]
                == table[steps[prefix.len() as int] as int],
{
}

/// The trail `prefix`, extended by a conversion that reaches `to`, is wanted.
proof fn lemma_arrival_is_wanted(
    table: Seq<Link>,
    from: Seq<char>,
    to: Seq<char>,
    prefix: Seq<usize>,
    n: usize,
)
    requires
        is_trail(table, from, to, prefix),
        in_table(table, prefix.push(n)),
        is_chain(table, from, prefix.push(n)),
        no_link_twice(table, prefix.push(n)),
        table[n as int].1 == to,
    ensures
        is_wanted(table, from, to, prefix, n + 1, prefix.push(n)),
{
    assert(prefix.push(n).take(prefix.len() as int) =~= prefix);
}

/// What was collected below `n` is all that is wanted below `n + 1` when no
/// path can take the conversion at `n` as its next step.
proof fn lemma_collects_nothing(
    table: Seq<Link>,
    from: Seq<char>,
    to: Seq<char>,
    prefix: Seq<usize>,
    n: usize,
    paths: Seq<Vec<usize>>,
)
    requires
        collects(table, from, to, prefix, n as int, paths),
        table[n as int].0 != end_of(table, from, prefix) || exists|i: int|
            0 <= i < prefix.len() && table[(#[trigger] prefix[i]) as int] == table[n as int],
    ensures
        collects(table, from, to, prefix, n + 1, paths),
{
    assert forall|steps: Seq<usize>| #[trigger]
        is_wanted(table, from, to, prefix, n + 1, steps) implies exists|k: int|
        0 <= k < paths.len() && (#[trigger] paths[k])@ == steps by {
        if steps[prefix.len() as int] == n {
            lemma_next_step_is_free(table, from, to, prefix, n + 1, steps);
        } else {
            assert(is_wanted(table, from, to, prefix, n as int, steps));
        }
    }
}

/// What was collected below `n`, and then the prefix extended by the
/// conversion at `n`, which reaches `to`, is all that is wanted below `n + 1`.
proof fn lemma_collects_arrival(
    table: Seq<Link>,
    from: Seq<char>,
    to: Seq<char>,
    prefix: Seq<usize>,
    n: usize,
    before: Seq<Vec<usize>>,
    arrival: Vec<usize>,
    after: Seq<Vec<usize>>,
)
    requires
        collects(table, from, to, prefix, n as int, before),
        is_wanted(table, from, to, prefix, n + 1, prefix.push(n)),
        table[n as int].1 == to,
        after == before.push(arrival),
        arrival@ == prefix.push(n),
    ensures
        collects(table, from, to, prefix, n + 1, after),
{
    let len = prefix.len() as int;
    assert forall|steps: Seq<usize>| #[trigger]
        is_wanted(table, from, to, prefix, n + 1, steps) implies exists|k: int|
        0 <= k < after.len() && (#[trigger] after[k])@ == steps by {
        if steps[len] == n {
            assert(after[before.len() as int]@ == steps);
        } else {
            assert(is_wanted(table, from, to, prefix, n as int, steps));
            let k = choose|k: int| 0 <= k < before.len() && (#[trigger] before[k])@ == steps;
            assert(after[k] == before[k]);
        }
    }
    assert forall|k: int, m: int| 0 <= k < m < after.len() implies precedes(
        (#[trigger] after[k])@,
        (#[trigger] after[m])@,
    ) by {
        if m == before.len() {
            lemma_parting_at(prefix, before[k]@, after[m]@);
        }
    }
}

/// Two sequences that begin with `prefix` and take their next steps in
/// order are in order.
proof fn lemma_parting_at(prefix: Seq<usize>, first: Seq<usize>, second: Seq<usize>)
    requires
        prefix.len() < first.len(),
        prefix.len() < second.len(),
        first.take(prefix.len() as int) == prefix,
        second.take(prefix.len() as int) == prefix,
        first[prefix.len() as int] < second[prefix.len() as int],
    ensures
        precedes(first, second),
{
    assert(first.take(prefix.len() as int) == second.take(prefix.len() as int));
}

/// What was collected below `n`, and then all that goes on from the prefix
/// extended by the conversion at `n`, is all that is wanted below `n + 1`.
proof fn lemma_collects_beyond(
    table: Seq<Link>,
    from: Seq<char>,
    to: Seq<char>,
    prefix: Seq<usize>,
    n: usize,
    before: Seq<Vec<usize>>,
    beyond: Seq<Vec<usize>>,
    after: Seq<Vec<usize>>,
)
    requires
        collects(table, from, to, prefix, n as int, before),
        collects(table, from, to, prefix.push(n), table.len() as int, beyond),
        table[n as int].1 != to,
        after == before + beyond,
    ensures
        collects(table, from, to, prefix, n + 1, after),
{
    let len = prefix.len() as int;
    let longer = prefix.push(n);
    assert forall|k: int| 0 <= k < after.len() implies is_wanted(
        table,
        from,
        to,
        prefix,
        n + 1,
        (#[trigger] after[k])@,
    ) by {
        if k >= before.len() {
            lemma_goes_through(prefix, n, beyond[k - before.len()]@);
        }
    }
    assert forall|steps: Seq<usize>| #[trigger]
        is_wanted(table, from, to, prefix, n + 1, steps) implies exists|k: int|
        0 <= k < after.len() && (#[trigger] after[k])@ == steps by {
        if steps[len] == n {
            assert(steps.take(len + 1) =~= steps.take(len).push(steps[len]));
            assert(is_wanted(table, from, to, longer, table.len() as int, steps));
            let k = choose|k: int| 0 <= k < beyond.len() && (#[trigger] beyond[k])@ == steps;
            assert(after[before.len() + k] == beyond[k]);
        } else {
            assert(is_wanted(table, from, to, prefix, n as int, steps));
            let k = choose|k: int| 0 <= k < before.len() && (#[trigger] before[k])@ == steps;
            assert(after[k] == before[k]);
        }
    }
    assert forall|k: int, m: int| 0 <= k < m < after.len() implies precedes(
        (#[trigger] after[k])@,
        (#[trigger] after[m])@,
    ) by {
        if k < before.len() <= m {
            lemma_goes_through(prefix, n, after[m]@);
            lemma_parting_at(prefix, before[k]@, after[m]@);
        }
    }
}

/// What begins with `prefix` and then `n` begins with `prefix` and goes on with `n`.
proof fn lemma_goes_through(prefix: Seq<usize>, n: usize, steps: Seq<usize>)
    requires
        prefix.len() + 1 <= steps.len(),
        steps.take(prefix.len() + 1int) == prefix.push(n),
    ensures
        steps.take(prefix.len() as int) == prefix,
        steps[prefix.len() as int] == n,
{
    let len = prefix.len() as int;
    assert(steps.take(len + 1)[len] == steps[len]);
}

/// Whether one of the conversions on `path` joins the same units as `candidate`.
fn path_has_link<R, F>(
    conversions: &Vec<Conversion<R, F>>,
    path: &Vec<usize>,
    candidate: &Conversion<R, F>,
) -> (found: bool)
    requires
        in_table(links(conversions@), path@),
    ensures
        found == exists|i: int|
            0 <= i < path.len() && links(conversions@)[(#[trigger] path[i]) as int]
                == candidate.link(),
{
    let mut i: usize = 0;
    while i < path.len()
        invariant
            i <= path.len(),
            in_table(links(conversions@), path@),
            forall|k: int|
                0 <= k < i ==> links(conversions@)[(#[trigger] path[k]) as int] != candidate.link(),
        decreases path.len() - i,
    {
        if conversions[path[i]] == *candidate {
            return true;
        }
        i += 1;
    }
    false
}

/// Collects, in the order of the table, every direct path to `target_unit`
/// that begins with `path`, which ends at `unit`.
fn find_paths<R, F>(
    unit: &String,
    target_unit: &String,
    conversions: &Vec<Conversion<R, F>>,
    path: Vec<usize>,
    Ghost(from): Ghost<Seq<char>>,
) -> (paths: Vec<Vec<usize>>)
    requires
        is_trail(links(conversions@), from, target_unit@, path@),
        unit@ == end_of(links(conversions@), from, path@),
    ensures
        collects(
            links(conversions@),
            from,
            target_unit@,
            path@,
            conversions.len() as int,
            paths@,
        ),
    decreases conversions.len() - path.len(),
{
    let ghost table = links(conversions@);
    let ghost to = target_unit@;
    let ghost prefix = path@;
    let mut paths: Vec<Vec<usize>> = Vec::new();
    let mut n: usize = 0;
    while n < conversions.len()
        invariant
            n <= conversions.len(),
            table == links(conversions@),
            to == target_unit@,
            prefix == path@,
            is_trail(table, from, to, prefix),
            unit@ == end_of(table, from, prefix),
            collects(table, from, to, prefix, n as int, paths@),
        decreases conversions.len() - n,
    {
        let candidate = &conversions[n];
        let ghost before = paths@;
        if candidate.source_unit == *unit && !path_has_link(conversions, &path, candidate) {
            let mut new_path = path.clone();
            new_path.push(n);
            proof {
                lemma_push_keeps_chain(table, from, prefix, n);
            }
            if candidate.target_unit == *target_unit {
                proof {
                    lemma_arrival_is_wanted(table, from, to, prefix, n);
                }
                let ghost arrival = new_path;
                paths.push(new_path);
                proof {
                    lemma_collects_arrival(table, from, to, prefix, n, before, arrival, paths@);
                }
            } else {
                proof {
                    lemma_trail_fits(table, from, to, new_path@);
                }
                let mut found = find_paths(
                    &candidate.target_unit,
                    target_unit,
                    conversions,
                    new_path,
                    Ghost(from),
                );
                let ghost beyond = found@;
                paths.append(&mut found);
                proof {
                    lemma_collects_beyond(table, from, to, prefix, n, before, beyond, paths@);
                }
            }
        } else {
            proof {
                lemma_collects_nothing(table, from, to, prefix, n, paths@);
            }
        }
        n += 1;
    }
    paths
}

/// The position of the first among the shortest of `paths`.
fn first_shortest(paths: &Vec<Vec<usize>>) -> (at: usize)
    requires
        paths.len() > 0,
    ensures
        at < paths.len(),
        forall|k: int|
            0 <= k < paths.len() ==> paths[at as int].len() <= (#[trigger] paths[k]).len(),
        forall|k: int| 0 <= k < at ==> paths[at as int].len() < (#[trigger] paths[k]).len(),
{
    let mut at: usize = 0;
    let mut k: usize = 1;
    while k < paths.len()
        invariant
            at < k <= paths.len(),
            forall|i: int| 0 <= i < k ==> paths[at as int].len() <= (#[trigger] paths[i]).len(),
            forall|i: int| 0 <= i < at ==> paths[at as int].len() < (#[trigger] paths[i]).len(),
        decreases paths.len() - k,
    {
        if paths[k].len() < paths[at].len() {
            at = k;
        }
        k += 1;
    }
    at
}

/// Of all direct paths, collected in order, the first among the shortest is
/// the chosen path.
proof fn lemma_first_shortest_is_chosen(
    table: Seq<Link>,
    from: Seq<char>,
    to: Seq<char>,
    paths: Seq<Vec<usize>>,
    at: int,
)
    requires
        collects(table, from, to, Seq::empty(), table.len() as int, paths),
        0 <= at < paths.len(),
        forall|k: int| 0 <= k < paths.len() ==> paths[at].len() <= (#[trigger] paths[k]).len(),
        forall|k: int| 0 <= k < at ==> paths[at].len() < (#[trigger] paths[k]).len(),
    ensures
        is_chosen_path(table, from, to, paths[at]@),
{
    let chosen = paths[at]@;
    assert forall|other: Seq<usize>| #[trigger] is_path(table, from, to, other) implies chosen.len()
        <= other.len() && (other.len() == chosen.len() && other != chosen ==> precedes(
        chosen,
        other,
    )) by {
        let len = lemma_direct_prefix(table, from, to, other);
        let head = other.take(len);
        assert(head.take(0) =~= Seq::<usize>::empty());
        assert(is_wanted(table, from, to, Seq::empty(), table.len() as int, head));
        let k = choose|k: int| 0 <= k < paths.len() && (#[trigger] paths[k])@ == head;
        if other.len() == chosen.len() && other != chosen {
            assert(head =~= other);
        }
    }
}

/// Where nothing was collected there is no path.
proof fn lemma_nothing_collected(
    table: Seq<Link>,
    from: Seq<char>,
    to: Seq<char>,
    paths: Seq<Vec<usize>>,
)
    requires
        collects(table, from, to, Seq::empty(), table.len() as int, paths),
        paths.len() == 0,
    ensures
        forall|steps: Seq<usize>| !is_path(table, from, to, steps),
{
    assert forall|steps: Seq<usize>| !is_path(table, from, to, steps) by {
        if is_path(table, from, to, steps) {
            let len = lemma_direct_prefix(table, from, to, steps);
            let head = steps.take(len);
            assert(head.take(0) =~= Seq::<usize>::empty());
            assert(is_wanted(table, from, to, Seq::empty(), table.len() as int, head));
        }
    }
}

/// Searches `conversions` for the chosen path from `source_unit` to
/// `target_unit` and gives the positions of its conversions in the table.
///
/// The result is `None` exactly when the table holds no path between the
/// two units; a unit that the table does not name has no path.  A unit has
/// no path to itself but through other units, or by a conversion from it to
/// itself.
pub fn find_conversion_steps<R, F>(
    source_unit: &str,
    target_unit: &str,
    conversions: &Vec<Conversion<R, F>>,
) -> (found: Option<Vec<usize>>)
    ensures
        match found {
            Some(steps) => is_chosen_path(
                links(conversions@),
                source_unit@,
                target_unit@,
                steps@,
            ),
            None => forall|steps: Seq<usize>|
                !is_path(links(conversions@), source_unit@, target_unit@, steps),
        },
        found matches Some(steps) ==> forall|other: Seq<usize>| #[trigger]
            is_path(links(conversions@), source_unit@, target_unit@, other) ==> steps.len()
                <= other.len(),
{
    let source = source_unit.to_owned();
    let target = target_unit.to_owned();
    let mut paths = find_paths(&source, &target, conversions, Vec::new(), Ghost(source@));
    if paths.len() == 0 {
        proof {
            lemma_nothing_collected(links(conversions@), source@, target@, paths@);
        }
        None
    } else {
        let at = first_shortest(&paths);
        proof {
            lemma_first_shortest_is_chosen(
                links(conversions@),
                source@,
                target@,
                paths@,
                at as int,
            );
        }
        Some(paths.swap_remove(at))
    }
}

/// The conversions of the table at the positions `steps`.
fn conversions_at<'a, R, F>(conversions: &'a Vec<Conversion<R, F>>, steps: &Vec<usize>) -> (path:
    Vec<&'a Conversion<R, F>>)
    requires
        in_table(links(conversions@), steps@),
    ensures
        path@ == path_at(conversions@, steps@),
{
    let mut path: Vec<&'a Conversion<R, F>> = Vec::new();
    let mut i: usize = 0;
    while i < steps.len()
        invariant
            i <= steps.len(),
            in_table(links(conversions@), steps@),
            path@ == path_at(conversions@, steps@.take(i as int)),
        decreases steps.len() - i,
    {
        path.push(&conversions[steps[i]]);
        i += 1;
    }
    path
}

/// Searches `conversions` for the chosen path from `source_unit` to
/// `target_unit`: a shortest chain of conversions that leads from the one to
/// the other, and among the shortest the one that takes the earlier
/// conversion of the table where two of them part.
///
/// The result is `None` exactly when the table holds no path between the
/// two units.
pub fn find_conversion_path<'a, R, F>(
    source_unit: &'a str,
    target_unit: &'a str,
    conversions: &'a Vec<Conversion<R, F>>,
) -> (found: Option<Vec<&'a Conversion<R, F>>>)
    ensures
        match found {
            Some(path) => {
                &&& is_valid_path(path@, source_unit@, target_unit@)
                &&& exists|steps: Seq<usize>|
                    {
                        &&& #[trigger] is_chosen_path(
                            links(conversions@),
                            source_unit@,
                            target_unit@,
                            steps,
                        )
                        &&& path@ == path_at(conversions@, steps)
                    }
            },
            None => forall|steps: Seq<usize>|
                !is_path(links(conversions@), source_unit@, target_unit@, steps),
        },
        found matches Some(path) ==> forall|other: Seq<usize>| #[trigger]
            is_path(links(conversions@), source_unit@, target_unit@, other) ==> path.len()
                <= other.len(),
{
    match find_conversion_steps(source_unit, target_unit, conversions) {
        None => None,
        Some(steps) => {
            proof {
                lemma_path_is_valid(conversions@, source_unit@, target_unit@, steps@);
            }
            Some(conversions_at(conversions, &steps))
        },
    }
}

} // verus!
