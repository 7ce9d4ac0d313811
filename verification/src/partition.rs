//! Every path comes back in exactly one place, whatever the reads returned:
//! in a group or among the failures.

use crate::classes::{lemma_classes_partition, paths_of};
use crate::copies::{
    are_copies, are_hashed_copies, candidate_buckets, copies_of, hashed_copies_of, resolved,
    rounds_observed,
};
use crate::reading::{failures, keyed, observed, Outcome, PathIoError};
use vstd::prelude::*;
use vstd::seq_lib::{lemma_flatten_concat, lemma_multiset_commutative, to_multiset_build};

verus! {

/// The paths of `errors`, in order.
pub open spec fn failed_paths(errors: Seq<PathIoError>) -> Seq<String> {
    Seq::new(errors.len(), |i: int| errors[i].path)
}

/// A list with no paths after it holds what it holds by itself.
proof fn lemma_nothing_added(paths: Seq<String>)
    ensures
        paths.to_multiset().add(Seq::<String>::empty().to_multiset()) == paths.to_multiset(),
{
    lemma_multiset_commutative(paths, Seq::<String>::empty());
    assert(paths + Seq::<String>::empty() =~= paths);
}

/// Every path either came back with a value or failed.
pub proof fn lemma_outcomes_split<T: View>(
    paths: Seq<String>,
    outcomes: Seq<Outcome<T>>,
)
    requires
        outcomes.len() == paths.len(),
    ensures
        paths_of(keyed(paths, outcomes)).to_multiset().add(
            failed_paths(failures(paths, outcomes)).to_multiset(),
        ) == paths.to_multiset(),
    decreases paths.len(),
{
    broadcast use to_multiset_build;

    if paths.len() == 0 {
        let none = Seq::<String>::empty();
        assert(paths =~= none);
        assert(paths_of(keyed(paths, outcomes)) =~= none);
        assert(failed_paths(failures(paths, outcomes)) =~= none);
        lemma_nothing_added(none);
    } else {
        let shorter = paths.drop_last();
        let earlier = outcomes.drop_last();
        lemma_outcomes_split(shorter, earlier);
        assert(shorter.push(paths.last()) =~= paths);
        let got = paths_of(keyed(shorter, earlier));
        let lost = failed_paths(failures(shorter, earlier));
        match outcomes.last() {
            Ok(value) => {
                assert(paths_of(keyed(paths, outcomes)) =~= got.push(paths.last()));
                assert(got.push(paths.last()).to_multiset().add(lost.to_multiset())
                    =~= got.to_multiset().add(lost.to_multiset()).insert(paths.last()));
            },
            Err(error) => {
                assert(failed_paths(failures(paths, outcomes)) =~= lost.push(paths.last()));
                assert(got.to_multiset().add(lost.push(paths.last()).to_multiset())
                    =~= got.to_multiset().add(lost.to_multiset()).insert(paths.last()));
            },
        }
    }
}

/// Partition: each path of `paths` stands in exactly one place, in a group
/// or among the failures, as often as it stands in `paths`.
pub proof fn lemma_copies_partition(
    paths: Seq<String>,
    outcomes: Seq<Outcome<Vec<u8>>>,
)
    requires
        paths.len() != 1 ==> outcomes.len() == paths.len(),
    ensures
        copies_of(paths, outcomes).0.flatten().to_multiset().add(
            failed_paths(copies_of(paths, outcomes).1).to_multiset(),
        ) == paths.to_multiset(),
{
    let (groups, errors) = copies_of(paths, outcomes);
    if paths.len() == 1 {
        groups.lemma_flatten_one_element();
        assert(groups.flatten() =~= paths);
        assert(failed_paths(errors) =~= Seq::<String>::empty());
        lemma_nothing_added(paths);
    } else {
        lemma_classes_partition(keyed(paths, outcomes));
        lemma_outcomes_split(paths, outcomes);
    }
}

/// Resolving buckets one by one leaves each path of the buckets in exactly
/// one place, in a group or among the failures.
pub proof fn lemma_resolved_partition(
    buckets: Seq<Seq<String>>,
    rounds: Seq<Seq<Outcome<Vec<u8>>>>,
)
    requires
        rounds.len() == buckets.len(),
        forall|b: int|
            0 <= b < buckets.len() && buckets[b].len() != 1 ==> (#[trigger] rounds[b]).len()
                == buckets[b].len(),
    ensures
        resolved(buckets, rounds).0.flatten().to_multiset().add(
            failed_paths(resolved(buckets, rounds).1).to_multiset(),
        ) == buckets.flatten().to_multiset(),
    decreases buckets.len(),
{
    broadcast use lemma_multiset_commutative;

    if buckets.len() == 0 {
        let none = Seq::<String>::empty();
        assert(failed_paths(resolved(buckets, rounds).1) =~= none);
        lemma_nothing_added(none);
    } else {
        let before = resolved(buckets.drop_last(), rounds.drop_last());
        let last = copies_of(buckets.last(), rounds.last());
        assert(rounds.drop_last().len() == buckets.drop_last().len());
        assert forall|b: int|
            0 <= b < buckets.drop_last().len() && buckets.drop_last()[b].len() != 1 implies (
            #[trigger] rounds.drop_last()[b]).len() == buckets.drop_last()[b].len() by {
            assert(rounds[b].len() == buckets[b].len());
        }
        lemma_resolved_partition(buckets.drop_last(), rounds.drop_last());
        lemma_copies_partition(buckets.last(), rounds.last());
        lemma_flatten_concat(before.0, last.0);
        assert(failed_paths(before.1 + last.1) =~= failed_paths(before.1) + failed_paths(last.1));
        buckets.lemma_flatten_and_flatten_alt_are_equivalent();
        buckets.drop_last().lemma_flatten_and_flatten_alt_are_equivalent();
        assert(buckets.flatten() =~= buckets.drop_last().flatten() + buckets.last());
        let a = before.0.flatten().to_multiset();
        let b = last.0.flatten().to_multiset();
        let c = failed_paths(before.1).to_multiset();
        let d = failed_paths(last.1).to_multiset();
        assert(a.add(b).add(c.add(d)) =~= a.add(c).add(b.add(d)));
    }
}

/// Partition: each path of `paths` stands in exactly one place, in a group
/// or among the failures, as often as it stands in `paths`.
pub proof fn lemma_hashed_copies_partition(
    paths: Seq<String>,
    probes: Seq<Outcome<(u64, usize)>>,
    rounds: Seq<Seq<Outcome<Vec<u8>>>>,
)
    requires
        probes.len() == paths.len(),
        rounds.len() == candidate_buckets(paths, probes).len(),
        forall|b: int|
            0 <= b < rounds.len() && candidate_buckets(paths, probes)[b].len() != 1 ==> (
            #[trigger] rounds[b]).len() == candidate_buckets(paths, probes)[b].len(),
    ensures
        hashed_copies_of(paths, probes, rounds).0.flatten().to_multiset().add(
            failed_paths(hashed_copies_of(paths, probes, rounds).1).to_multiset(),
        ) == paths.to_multiset(),
{
    broadcast use lemma_multiset_commutative;

    let buckets = candidate_buckets(paths, probes);
    let found = resolved(buckets, rounds);
    let missed = failures(paths, probes);
    lemma_resolved_partition(buckets, rounds);
    lemma_classes_partition(keyed(paths, probes));
    lemma_outcomes_split(paths, probes);
    assert(failed_paths(missed + found.1) =~= failed_paths(missed) + failed_paths(found.1));
    let a = found.0.flatten().to_multiset();
    let b = failed_paths(missed).to_multiset();
    let c = failed_paths(found.1).to_multiset();
    assert(a.add(b.add(c)) =~= a.add(c).add(b));
}

/// Every path of a group is among the paths of all groups.
proof fn lemma_member_in_flatten(groups: Seq<Seq<String>>, g: int, m: int)
    requires
        0 <= g < groups.len(),
        0 <= m < groups[g].len(),
    ensures
        groups.flatten().contains(groups[g][m]),
    decreases groups.len(),
{
    let flat = groups.flatten();
    let before = groups.drop_last().flatten();
    groups.lemma_flatten_and_flatten_alt_are_equivalent();
    groups.drop_last().lemma_flatten_and_flatten_alt_are_equivalent();
    assert(flat =~= before + groups.last());
    if g == groups.len() - 1 {
        assert(flat[before.len() + m] == groups[g][m]);
    } else {
        lemma_member_in_flatten(groups.drop_last(), g, m);
        let at = choose|at: int| 0 <= at < before.len() && before[at] == groups[g][m];
        assert(flat[at] == groups[g][m]);
    }
}

/// Where no path stands twice among the paths of all groups, the groups
/// have no path in common, and none holds a path twice.
proof fn lemma_groups_apart(groups: Seq<Seq<String>>)
    requires
        groups.flatten().no_duplicates(),
    ensures
        forall|g: int, h: int, m: int, n: int|
            0 <= g < groups.len() && 0 <= h < groups.len() && 0 <= m < groups[g].len() && 0 <= n
                < groups[h].len() && (g != h || m != n) ==> #[trigger] groups[g][m]
                != #[trigger] groups[h][n],
    decreases groups.len(),
{
    if groups.len() > 0 {
        let fewer = groups.drop_last();
        let last = groups.len() - 1;
        let flat = groups.flatten();
        let before = fewer.flatten();
        groups.lemma_flatten_and_flatten_alt_are_equivalent();
        fewer.lemma_flatten_and_flatten_alt_are_equivalent();
        assert(flat =~= before + groups.last());
        assert forall|i: int, j: int| 0 <= i < j < before.len() implies before[i] != before[j] by {
            assert(flat[i] == before[i] && flat[j] == before[j]);
        }
        lemma_groups_apart(fewer);
        assert forall|g: int, h: int, m: int, n: int|
            0 <= g < groups.len() && 0 <= h < groups.len() && 0 <= m < groups[g].len() && 0 <= n
                < groups[h].len() && (g != h || m != n) implies #[trigger] groups[g][m]
            != #[trigger] groups[h][n] by {
            if g < last && h < last {
                assert(fewer[g][m] != fewer[h][n]);
            } else if g == last && h == last {
                assert(flat[before.len() + m] == groups[g][m]);
                assert(flat[before.len() + n] == groups[h][n]);
            } else if g < last {
                lemma_member_in_flatten(fewer, g, m);
                let at = choose|at: int| 0 <= at < before.len() && before[at] == fewer[g][m];
                assert(flat[at] == groups[g][m]);
                assert(flat[before.len() + n] == groups[h][n]);
            } else {
                lemma_member_in_flatten(fewer, h, n);
                let at = choose|at: int| 0 <= at < before.len() && before[at] == fewer[h][n];
                assert(flat[at] == groups[h][n]);
                assert(flat[before.len() + m] == groups[g][m]);
            }
        }
    }
}

/// Partition, where no path stands twice in `paths`: no path stands in two
/// groups, and none stands twice in one. `rest` holds the paths that are in
/// no group.
pub proof fn lemma_groups_disjoint(paths: Seq<String>, groups: Seq<Seq<String>>, rest: Seq<String>)
    requires
        paths.no_duplicates(),
        groups.flatten().to_multiset().add(rest.to_multiset()) == paths.to_multiset(),
    ensures
        groups.flatten().no_duplicates(),
        forall|g: int, h: int, m: int, n: int|
            0 <= g < groups.len() && 0 <= h < groups.len() && 0 <= m < groups[g].len() && 0 <= n
                < groups[h].len() && (g != h || m != n) ==> #[trigger] groups[g][m]
                != #[trigger] groups[h][n],
{
    paths.lemma_multiset_has_no_duplicates();
    let flat = groups.flatten();
    assert forall|path: String| flat.to_multiset().count(path) <= 1 by {
        assert(paths.to_multiset().count(path) == flat.to_multiset().count(path)
            + rest.to_multiset().count(path));
    }
    flat.lemma_multiset_has_no_duplicates_conv();
    lemma_groups_apart(groups);
}

/// Partition: each path handed to `get_copies` comes back in exactly one
/// place, in a group or among the failures.
pub proof fn lemma_get_copies_partition<R: Fn(&String) -> Outcome<Vec<u8>>>(
    read: R,
    paths: Seq<String>,
    groups: Seq<Seq<String>>,
    errors: Seq<PathIoError>,
)
    requires
        are_copies(read, paths, groups, errors),
    ensures
        groups.flatten().to_multiset().add(failed_paths(errors).to_multiset())
            == paths.to_multiset(),
{
    let outcomes = choose|outcomes: Seq<Outcome<Vec<u8>>>|
        {
            &&& paths.len() != 1 ==> observed(read, paths, outcomes)
            &&& (groups, errors) == #[trigger] copies_of(paths, outcomes)
        };
    lemma_copies_partition(paths, outcomes);
}

/// Partition: each path handed to `get_copies_hashed` comes back in exactly
/// one place, in a group or among the failures.
pub proof fn lemma_get_copies_hashed_partition<
    P: Fn(&String) -> Outcome<(u64, usize)>,
    R: Fn(&String) -> Outcome<Vec<u8>>,
>(probe: P, read: R, paths: Seq<String>, groups: Seq<Seq<String>>, errors: Seq<PathIoError>)
    requires
        are_hashed_copies(probe, read, paths, groups, errors),
    ensures
        groups.flatten().to_multiset().add(failed_paths(errors).to_multiset())
            == paths.to_multiset(),
{
    let (probes, rounds) = choose|
        probes: Seq<Outcome<(u64, usize)>>,
        rounds: Seq<Seq<Outcome<Vec<u8>>>>,
    |
        {
            &&& observed(probe, paths, probes)
            &&& rounds_observed(read, candidate_buckets(paths, probes), rounds)
            &&& (groups, errors) == #[trigger] hashed_copies_of(paths, probes, rounds)
        };
    lemma_hashed_copies_partition(paths, probes, rounds);
}

} // verus!
