//! The groups of copies among files that do not change.

use crate::classes::{
    classes, distinct_keys, filed_under, lemma_distinct_keys_cover, lemma_distinct_keys_differ,
};
use crate::copies::{
    are_copies, are_hashed_copies, candidate_buckets, copies_of, hashed_copies_of, resolved,
    rounds_observed,
};
use crate::fingerprint::fingerprint_of;
use crate::reading::{observed, Outcome, PathIoError};
use crate::snapshot::{
    holding, known, lemma_filed_is_holding, lemma_holding_has, lemma_holding_members,
    lemma_holding_within, lemma_keyed_probes, lemma_keyed_reads, lemma_known_classes_sorted,
    lemma_known_values, lemma_observed_probes, lemma_observed_reads, lemma_sortings_agree,
    probed_from, probes_unchanging, read_from, reads_unchanging, sorted_by_contents, whole,
};
use vstd::prelude::*;

verus! {

/// The copies of unchanging files are sorted by contents. A lone path that
/// cannot be read is left out: it is a group all the same.
pub proof fn lemma_copies_sorted(
    files: Map<String, Seq<u8>>,
    paths: Seq<String>,
    outcomes: Seq<Outcome<Vec<u8>>>,
)
    requires
        paths.len() != 1 ==> read_from(files, paths, outcomes),
        paths.len() == 1 ==> files.contains_key(paths[0]),
    ensures
        copies_of(paths, outcomes).0 == classes(known(files, paths, whole())),
        sorted_by_contents(
            files,
            paths,
            copies_of(paths, outcomes).0,
            distinct_keys(known(files, paths, whole())),
        ),
{
    lemma_known_classes_sorted(files, paths);
    if paths.len() == 1 {
        reveal_with_fuel(known, 2);
        reveal_with_fuel(distinct_keys, 2);
        reveal_with_fuel(filed_under, 2);
        let items = known(files, paths, whole());
        assert(items.drop_last() =~= Seq::<(String, Seq<u8>)>::empty());
        assert(classes(items) =~= seq![seq![paths[0]]]);
    } else {
        lemma_keyed_reads(files, paths, outcomes);
    }
}

/// The copies found in one candidate bucket are groups of the whole: each
/// holds all paths with its contents, and the contents go with the bucket's
/// key.
proof fn lemma_bucket_sorted(
    files: Map<String, Seq<u8>>,
    key: spec_fn(Seq<u8>) -> (u64, usize),
    paths: Seq<String>,
    found: (u64, usize),
    round: Seq<Outcome<Vec<u8>>>,
) -> (shared: Seq<Seq<u8>>)
    requires
        holding(files, paths, key, found).len() > 0,
        holding(files, paths, key, found).len() != 1 ==> read_from(
            files,
            holding(files, paths, key, found),
            round,
        ),
    ensures
        shared.len() == copies_of(holding(files, paths, key, found), round).0.len(),
        shared.no_duplicates(),
        forall|g: int|
            0 <= g < shared.len() ==> {
                &&& #[trigger] copies_of(holding(files, paths, key, found), round).0[g] == holding(
                    files,
                    paths,
                    whole(),
                    shared[g],
                )
                &&& copies_of(holding(files, paths, key, found), round).0[g].len() > 0
                &&& key(shared[g]) == found
            },
        forall|i: int|
            0 <= i < paths.len() && files.contains_key(#[trigger] paths[i]) && key(files[paths[i]])
                == found ==> shared.contains(files[paths[i]]),
{
    let bucket = holding(files, paths, key, found);
    let groups = copies_of(bucket, round).0;
    let shared = distinct_keys(known(files, bucket, whole()));
    lemma_holding_members(files, paths, key, found, 0);
    lemma_copies_sorted(files, bucket, round);
    assert forall|g: int| 0 <= g < shared.len() implies {
        &&& #[trigger] groups[g] == holding(files, paths, whole(), shared[g])
        &&& groups[g].len() > 0
        &&& key(shared[g]) == found
    } by {
        assert(sorted_by_contents(files, bucket, groups, shared));
        assert(groups[g] == holding(files, bucket, whole(), shared[g]) && groups[g].len() > 0);
        lemma_holding_members(files, bucket, whole(), shared[g], 0);
        let member = groups[g][0];
        let m = choose|m: int| 0 <= m < bucket.len() && bucket[m] == member;
        lemma_holding_members(files, paths, key, found, m);
        assert(whole()(files[member]) == shared[g]);
        assert forall|i: int|
            0 <= i < paths.len() && files.contains_key(#[trigger] paths[i]) && whole()(
                files[paths[i]],
            ) == shared[g] implies key(files[paths[i]]) == found by {}
        lemma_holding_within(files, paths, key, found, whole(), shared[g]);
    }
    assert forall|i: int|
        0 <= i < paths.len() && files.contains_key(#[trigger] paths[i]) && key(files[paths[i]])
            == found implies shared.contains(files[paths[i]]) by {
        lemma_holding_has(files, paths, key, found, i);
        let m = choose|m: int| 0 <= m < bucket.len() && bucket[m] == paths[i];
        assert(files.contains_key(bucket[m]));
    }
    shared
}

/// The copies found in the first `count` candidate buckets are groups of
/// the whole, and none of the contents that go with these buckets' keys are
/// left out.
proof fn lemma_resolved_sorted(
    files: Map<String, Seq<u8>>,
    key: spec_fn(Seq<u8>) -> (u64, usize),
    paths: Seq<String>,
    rounds: Seq<Seq<Outcome<Vec<u8>>>>,
    count: int,
) -> (shared: Seq<Seq<u8>>)
    requires
        0 <= count <= classes(known(files, paths, key)).len(),
        rounds.len() == classes(known(files, paths, key)).len(),
        forall|b: int|
            0 <= b < rounds.len() && classes(known(files, paths, key))[b].len() != 1 ==> read_from(
                files,
                classes(known(files, paths, key))[b],
                #[trigger] rounds[b],
            ),
    ensures
        shared.len() == resolved(
            classes(known(files, paths, key)).take(count),
            rounds.take(count),
        ).0.len(),
        shared.no_duplicates(),
        forall|g: int|
            0 <= g < shared.len() ==> {
                &&& #[trigger] resolved(
                    classes(known(files, paths, key)).take(count),
                    rounds.take(count),
                ).0[g] == holding(files, paths, whole(), shared[g])
                &&& resolved(
                    classes(known(files, paths, key)).take(count),
                    rounds.take(count),
                ).0[g].len() > 0
                &&& distinct_keys(known(files, paths, key)).take(count).contains(key(shared[g]))
            },
        forall|i: int|
            0 <= i < paths.len() && files.contains_key(#[trigger] paths[i]) && distinct_keys(
                known(files, paths, key),
            ).take(count).contains(key(files[paths[i]])) ==> shared.contains(files[paths[i]]),
    decreases count,
{
    let items = known(files, paths, key);
    let keys = distinct_keys(items);
    let buckets = classes(items);
    if count == 0 {
        Seq::empty()
    } else {
        let b = count - 1;
        let earlier = lemma_resolved_sorted(files, key, paths, rounds, b);
        let found = keys[b];
        lemma_filed_is_holding(files, paths, key, found);
        lemma_distinct_keys_cover(items, found);
        lemma_known_values(files, paths, key, found);
        let i = choose|i: int|
            0 <= i < paths.len() && files.contains_key(#[trigger] paths[i]) && key(files[paths[i]])
                == found;
        lemma_holding_has(files, paths, key, found, i);
        assert(buckets[b] == holding(files, paths, key, found));
        let here = lemma_bucket_sorted(files, key, paths, found, rounds[b]);
        let shared = earlier + here;
        let before = resolved(buckets.take(b), rounds.take(b)).0;
        let last = copies_of(buckets[b], rounds[b]).0;
        let groups = resolved(buckets.take(count), rounds.take(count)).0;
        assert(buckets.take(count).drop_last() =~= buckets.take(b));
        assert(rounds.take(count).drop_last() =~= rounds.take(b));
        assert(groups =~= before + last);
        lemma_distinct_keys_differ(items);
        assert forall|g: int, h: int|
            0 <= g < earlier.len() && 0 <= h < here.len() implies earlier[g] != here[h] by {
            assert(last[h].len() > 0);
            assert(before[g].len() > 0);
            let held = key(earlier[g]);
            let at = choose|at: int| 0 <= at < keys.take(b).len() && keys.take(b)[at] == held;
            assert(keys[at] == held);
        }
        vstd::seq_lib::lemma_no_dup_in_concat(earlier, here);
        assert forall|g: int| 0 <= g < shared.len() implies {
            &&& #[trigger] groups[g] == holding(files, paths, whole(), shared[g])
            &&& groups[g].len() > 0
            &&& keys.take(count).contains(key(shared[g]))
        } by {
            if g < earlier.len() {
                assert(groups[g] == before[g]);
                let held = key(shared[g]);
                let at = choose|at: int| 0 <= at < keys.take(b).len() && keys.take(b)[at] == held;
                assert(keys.take(count)[at] == held);
            } else {
                assert(groups[g] == last[g - earlier.len()]);
                assert(keys.take(count)[b] == found);
            }
        }
        assert forall|i: int|
            0 <= i < paths.len() && files.contains_key(#[trigger] paths[i]) && keys.take(
                count,
            ).contains(key(files[paths[i]])) implies shared.contains(files[paths[i]]) by {
            let held = key(files[paths[i]]);
            let at = choose|at: int| 0 <= at < count && keys.take(count)[at] == held;
            if at < b {
                assert(keys.take(b)[at] == held);
                assert(earlier.contains(files[paths[i]]));
                let g = choose|g: int| 0 <= g < earlier.len() && earlier[g] == files[paths[i]];
                assert(shared[g] == files[paths[i]]);
            } else {
                assert(here.contains(files[paths[i]]));
                let h = choose|h: int| 0 <= h < here.len() && here[h] == files[paths[i]];
                assert(shared[earlier.len() + h] == files[paths[i]]);
            }
        }
        shared
    }
}

/// The copies that the two stages find among unchanging files are sorted by
/// contents, where a probe hands back a function of the contents.
pub proof fn lemma_hashed_copies_sorted(
    files: Map<String, Seq<u8>>,
    key: spec_fn(Seq<u8>) -> (u64, usize),
    paths: Seq<String>,
    probes: Seq<Outcome<(u64, usize)>>,
    rounds: Seq<Seq<Outcome<Vec<u8>>>>,
) -> (shared: Seq<Seq<u8>>)
    requires
        probed_from(files, key, paths, probes),
        rounds.len() == candidate_buckets(paths, probes).len(),
        forall|b: int|
            0 <= b < rounds.len() && candidate_buckets(paths, probes)[b].len() != 1 ==> read_from(
                files,
                candidate_buckets(paths, probes)[b],
                #[trigger] rounds[b],
            ),
    ensures
        sorted_by_contents(files, paths, hashed_copies_of(paths, probes, rounds).0, shared),
{
    lemma_keyed_probes(files, key, paths, probes);
    let items = known(files, paths, key);
    let keys = distinct_keys(items);
    let buckets = classes(items);
    let shared = lemma_resolved_sorted(files, key, paths, rounds, buckets.len() as int);
    assert(buckets.take(buckets.len() as int) =~= buckets);
    assert(rounds.take(buckets.len() as int) =~= rounds);
    assert(keys.take(buckets.len() as int) =~= keys);
    assert forall|i: int|
        0 <= i < paths.len() && files.contains_key(#[trigger] paths[i]) implies shared.contains(
        files[paths[i]],
    ) by {
        lemma_known_values(files, paths, key, key(files[paths[i]]));
        lemma_distinct_keys_cover(items, key(files[paths[i]]));
    }
    shared
}

/// Consistency: among unchanging files the two stages find the groups that
/// reading every file finds, in another order at most.
pub proof fn lemma_variants_agree(
    files: Map<String, Seq<u8>>,
    key: spec_fn(Seq<u8>) -> (u64, usize),
    paths: Seq<String>,
    outcomes: Seq<Outcome<Vec<u8>>>,
    probes: Seq<Outcome<(u64, usize)>>,
    rounds: Seq<Seq<Outcome<Vec<u8>>>>,
)
    requires
        paths.len() != 1 ==> read_from(files, paths, outcomes),
        paths.len() == 1 ==> files.contains_key(paths[0]),
        probed_from(files, key, paths, probes),
        rounds.len() == candidate_buckets(paths, probes).len(),
        forall|b: int|
            0 <= b < rounds.len() && candidate_buckets(paths, probes)[b].len() != 1 ==> read_from(
                files,
                candidate_buckets(paths, probes)[b],
                #[trigger] rounds[b],
            ),
    ensures
        hashed_copies_of(paths, probes, rounds).0.len() == copies_of(paths, outcomes).0.len(),
        forall|group: Seq<String>|
            hashed_copies_of(paths, probes, rounds).0.contains(group) <==> copies_of(
                paths,
                outcomes,
            ).0.contains(group),
{
    let shared = lemma_hashed_copies_sorted(files, key, paths, probes, rounds);
    lemma_copies_sorted(files, paths, outcomes);
    lemma_sortings_agree(
        files,
        paths,
        hashed_copies_of(paths, probes, rounds).0,
        shared,
        copies_of(paths, outcomes).0,
        distinct_keys(known(files, paths, whole())),
    );
}

/// The function that draws the fingerprint from the contents of an
/// unchanging file.
pub open spec fn fingerprinted() -> spec_fn(Seq<u8>) -> (u64, usize) {
    |contents: Seq<u8>| fingerprint_of(contents)
}

/// Consistency: sorting unchanging files by fingerprint first finds the
/// groups that reading every file finds, in another order at most.
pub proof fn lemma_fingerprinting_agrees(
    files: Map<String, Seq<u8>>,
    paths: Seq<String>,
    outcomes: Seq<Outcome<Vec<u8>>>,
    probes: Seq<Outcome<(u64, usize)>>,
    rounds: Seq<Seq<Outcome<Vec<u8>>>>,
)
    requires
        paths.len() != 1 ==> read_from(files, paths, outcomes),
        paths.len() == 1 ==> files.contains_key(paths[0]),
        probed_from(files, fingerprinted(), paths, probes),
        rounds.len() == candidate_buckets(paths, probes).len(),
        forall|b: int|
            0 <= b < rounds.len() && candidate_buckets(paths, probes)[b].len() != 1 ==> read_from(
                files,
                candidate_buckets(paths, probes)[b],
                #[trigger] rounds[b],
            ),
    ensures
        hashed_copies_of(paths, probes, rounds).0.len() == copies_of(paths, outcomes).0.len(),
        forall|group: Seq<String>|
            hashed_copies_of(paths, probes, rounds).0.contains(group) <==> copies_of(
                paths,
                outcomes,
            ).0.contains(group),
{
    lemma_variants_agree(files, fingerprinted(), paths, outcomes, probes, rounds);
}

/// Idempotence: reading unchanging files once more gives the same groups.
pub proof fn lemma_copies_repeatable(
    files: Map<String, Seq<u8>>,
    paths: Seq<String>,
    first: Seq<Outcome<Vec<u8>>>,
    second: Seq<Outcome<Vec<u8>>>,
)
    requires
        paths.len() != 1 ==> read_from(files, paths, first),
        paths.len() != 1 ==> read_from(files, paths, second),
    ensures
        copies_of(paths, first).0 == copies_of(paths, second).0,
{
    if paths.len() != 1 {
        lemma_keyed_reads(files, paths, first);
        lemma_keyed_reads(files, paths, second);
    }
}

/// Resolving the same buckets of unchanging files once more gives the same
/// groups.
proof fn lemma_resolved_repeatable(
    files: Map<String, Seq<u8>>,
    buckets: Seq<Seq<String>>,
    first: Seq<Seq<Outcome<Vec<u8>>>>,
    second: Seq<Seq<Outcome<Vec<u8>>>>,
)
    requires
        first.len() == buckets.len(),
        second.len() == buckets.len(),
        forall|b: int|
            0 <= b < buckets.len() && buckets[b].len() != 1 ==> read_from(
                files,
                buckets[b],
                #[trigger] first[b],
            ),
        forall|b: int|
            0 <= b < buckets.len() && buckets[b].len() != 1 ==> read_from(
                files,
                buckets[b],
                #[trigger] second[b],
            ),
    ensures
        resolved(buckets, first).0 == resolved(buckets, second).0,
    decreases buckets.len(),
{
    if buckets.len() > 0 {
        let last = buckets.len() - 1;
        let fewer = buckets.drop_last();
        assert forall|b: int| 0 <= b < fewer.len() && fewer[b].len() != 1 implies read_from(
            files,
            fewer[b],
            #[trigger] first.drop_last()[b],
        ) by {
            assert(first.drop_last()[b] == first[b]);
        }
        assert forall|b: int| 0 <= b < fewer.len() && fewer[b].len() != 1 implies read_from(
            files,
            fewer[b],
            #[trigger] second.drop_last()[b],
        ) by {
            assert(second.drop_last()[b] == second[b]);
        }
        lemma_resolved_repeatable(files, fewer, first.drop_last(), second.drop_last());
        assert(first.last() == first[last]);
        assert(second.last() == second[last]);
        lemma_copies_repeatable(files, buckets.last(), first.last(), second.last());
    }
}

/// Idempotence: probing and reading unchanging files once more gives the
/// same groups.
pub proof fn lemma_hashed_copies_repeatable(
    files: Map<String, Seq<u8>>,
    key: spec_fn(Seq<u8>) -> (u64, usize),
    paths: Seq<String>,
    first_probes: Seq<Outcome<(u64, usize)>>,
    first_rounds: Seq<Seq<Outcome<Vec<u8>>>>,
    second_probes: Seq<Outcome<(u64, usize)>>,
    second_rounds: Seq<Seq<Outcome<Vec<u8>>>>,
)
    requires
        probed_from(files, key, paths, first_probes),
        probed_from(files, key, paths, second_probes),
        first_rounds.len() == candidate_buckets(paths, first_probes).len(),
        second_rounds.len() == candidate_buckets(paths, second_probes).len(),
        forall|b: int|
            0 <= b < first_rounds.len() && candidate_buckets(paths, first_probes)[b].len() != 1
                ==> read_from(
                files,
                candidate_buckets(paths, first_probes)[b],
                #[trigger] first_rounds[b],
            ),
        forall|b: int|
            0 <= b < second_rounds.len() && candidate_buckets(paths, second_probes)[b].len() != 1
                ==> read_from(
                files,
                candidate_buckets(paths, second_probes)[b],
                #[trigger] second_rounds[b],
            ),
    ensures
        hashed_copies_of(paths, first_probes, first_rounds).0 == hashed_copies_of(
            paths,
            second_probes,
            second_rounds,
        ).0,
{
    lemma_keyed_probes(files, key, paths, first_probes);
    lemma_keyed_probes(files, key, paths, second_probes);
    lemma_resolved_repeatable(
        files,
        classes(known(files, paths, key)),
        first_rounds,
        second_rounds,
    );
}

/// What `get_copies` returns for unchanging files is sorted by contents:
/// the paths of a group hold the same contents, paths of different groups
/// hold different contents, and no path that can be read is left out. A lone
/// path that cannot be read is left out of this: it is a group all the same.
pub proof fn lemma_get_copies_sorted<R: Fn(&String) -> Outcome<Vec<u8>>>(
    read: R,
    files: Map<String, Seq<u8>>,
    paths: Seq<String>,
    groups: Seq<Seq<String>>,
    errors: Seq<PathIoError>,
) -> (shared: Seq<Seq<u8>>)
    requires
        reads_unchanging(read, files),
        are_copies(read, paths, groups, errors),
        paths.len() == 1 ==> files.contains_key(paths[0]),
    ensures
        sorted_by_contents(files, paths, groups, shared),
{
    let outcomes = choose|outcomes: Seq<Outcome<Vec<u8>>>|
        {
            &&& paths.len() != 1 ==> observed(read, paths, outcomes)
            &&& (groups, errors) == #[trigger] copies_of(paths, outcomes)
        };
    if paths.len() != 1 {
        lemma_observed_reads(read, files, paths, outcomes);
    }
    lemma_copies_sorted(files, paths, outcomes);
    distinct_keys(known(files, paths, whole()))
}

/// What the probes and reads of `get_copies_hashed` gave, where they were of
/// unchanging files.
proof fn lemma_hashed_copies_observed<
    P: Fn(&String) -> Outcome<(u64, usize)>,
    R: Fn(&String) -> Outcome<Vec<u8>>,
>(
    probe: P,
    read: R,
    files: Map<String, Seq<u8>>,
    key: spec_fn(Seq<u8>) -> (u64, usize),
    paths: Seq<String>,
    groups: Seq<Seq<String>>,
    errors: Seq<PathIoError>,
) -> (seen: (
    Seq<Outcome<(u64, usize)>>,
    Seq<Seq<Outcome<Vec<u8>>>>,
))
    requires
        probes_unchanging(probe, files, key),
        reads_unchanging(read, files),
        are_hashed_copies(probe, read, paths, groups, errors),
    ensures
        (groups, errors) == hashed_copies_of(paths, seen.0, seen.1),
        probed_from(files, key, paths, seen.0),
        seen.1.len() == candidate_buckets(paths, seen.0).len(),
        forall|b: int|
            0 <= b < seen.1.len() && candidate_buckets(paths, seen.0)[b].len() != 1 ==> read_from(
                files,
                candidate_buckets(paths, seen.0)[b],
                #[trigger] seen.1[b],
            ),
{
    let (probes, rounds) = choose|
        probes: Seq<Outcome<(u64, usize)>>,
        rounds: Seq<Seq<Outcome<Vec<u8>>>>,
    |
        {
            &&& observed(probe, paths, probes)
            &&& rounds_observed(read, candidate_buckets(paths, probes), rounds)
            &&& (groups, errors) == #[trigger] hashed_copies_of(paths, probes, rounds)
        };
    lemma_observed_probes(probe, files, key, paths, probes);
    let buckets = candidate_buckets(paths, probes);
    assert forall|b: int| 0 <= b < rounds.len() && buckets[b].len() != 1 implies read_from(
        files,
        buckets[b],
        #[trigger] rounds[b],
    ) by {
        lemma_observed_reads(read, files, buckets[b], rounds[b]);
    }
    (probes, rounds)
}

/// What `get_copies_hashed` returns for unchanging files is sorted by
/// contents, where the probe hands back a function of the contents: the
/// paths of a group hold the same contents, paths of different groups hold
/// different contents, and no path that can be read is left out.
pub proof fn lemma_get_copies_hashed_sorted<
    P: Fn(&String) -> Outcome<(u64, usize)>,
    R: Fn(&String) -> Outcome<Vec<u8>>,
>(
    probe: P,
    read: R,
    files: Map<String, Seq<u8>>,
    key: spec_fn(Seq<u8>) -> (u64, usize),
    paths: Seq<String>,
    groups: Seq<Seq<String>>,
    errors: Seq<PathIoError>,
) -> (shared: Seq<Seq<u8>>)
    requires
        probes_unchanging(probe, files, key),
        reads_unchanging(read, files),
        are_hashed_copies(probe, read, paths, groups, errors),
    ensures
        sorted_by_contents(files, paths, groups, shared),
{
    let (probes, rounds) = lemma_hashed_copies_observed(
        probe,
        read,
        files,
        key,
        paths,
        groups,
        errors,
    );
    lemma_hashed_copies_sorted(files, key, paths, probes, rounds)
}

/// Consistency: for unchanging files `get_copies_hashed` returns the groups
/// that `get_copies` returns, in another order at most. A lone path that
/// cannot be read is left out of this: `get_copies` makes a group of it
/// unread, `get_copies_hashed` reports the failure of its probe.
pub proof fn lemma_get_copies_agree<
    P: Fn(&String) -> Outcome<(u64, usize)>,
    R: Fn(&String) -> Outcome<Vec<u8>>,
>(
    probe: P,
    read: R,
    files: Map<String, Seq<u8>>,
    key: spec_fn(Seq<u8>) -> (u64, usize),
    paths: Seq<String>,
    plain: Seq<Seq<String>>,
    plain_errors: Seq<PathIoError>,
    hashed: Seq<Seq<String>>,
    hashed_errors: Seq<PathIoError>,
)
    requires
        probes_unchanging(probe, files, key),
        reads_unchanging(read, files),
        are_copies(read, paths, plain, plain_errors),
        are_hashed_copies(probe, read, paths, hashed, hashed_errors),
        paths.len() == 1 ==> files.contains_key(paths[0]),
    ensures
        hashed.len() == plain.len(),
        forall|group: Seq<String>| hashed.contains(group) <==> plain.contains(group),
{
    let ours = lemma_get_copies_hashed_sorted(
        probe,
        read,
        files,
        key,
        paths,
        hashed,
        hashed_errors,
    );
    let theirs = lemma_get_copies_sorted(read, files, paths, plain, plain_errors);
    lemma_sortings_agree(files, paths, hashed, ours, plain, theirs);
}

/// Idempotence: for unchanging files a second run of `get_copies` returns
/// the groups of the first.
pub proof fn lemma_get_copies_idempotent<R: Fn(&String) -> Outcome<Vec<u8>>>(
    read: R,
    files: Map<String, Seq<u8>>,
    paths: Seq<String>,
    first: Seq<Seq<String>>,
    first_errors: Seq<PathIoError>,
    second: Seq<Seq<String>>,
    second_errors: Seq<PathIoError>,
)
    requires
        reads_unchanging(read, files),
        are_copies(read, paths, first, first_errors),
        are_copies(read, paths, second, second_errors),
    ensures
        first == second,
{
    let once = choose|outcomes: Seq<Outcome<Vec<u8>>>|
        {
            &&& paths.len() != 1 ==> observed(read, paths, outcomes)
            &&& (first, first_errors) == #[trigger] copies_of(paths, outcomes)
        };
    let again = choose|outcomes: Seq<Outcome<Vec<u8>>>|
        {
            &&& paths.len() != 1 ==> observed(read, paths, outcomes)
            &&& (second, second_errors) == #[trigger] copies_of(paths, outcomes)
        };
    if paths.len() != 1 {
        lemma_observed_reads(read, files, paths, once);
        lemma_observed_reads(read, files, paths, again);
    }
    lemma_copies_repeatable(files, paths, once, again);
}

/// Idempotence: for unchanging files a second run of `get_copies_hashed`
/// returns the groups of the first.
pub proof fn lemma_get_copies_hashed_idempotent<
    P: Fn(&String) -> Outcome<(u64, usize)>,
    R: Fn(&String) -> Outcome<Vec<u8>>,
>(
    probe: P,
    read: R,
    files: Map<String, Seq<u8>>,
    key: spec_fn(Seq<u8>) -> (u64, usize),
    paths: Seq<String>,
    first: Seq<Seq<String>>,
    first_errors: Seq<PathIoError>,
    second: Seq<Seq<String>>,
    second_errors: Seq<PathIoError>,
)
    requires
        probes_unchanging(probe, files, key),
        reads_unchanging(read, files),
        are_hashed_copies(probe, read, paths, first, first_errors),
        are_hashed_copies(probe, read, paths, second, second_errors),
    ensures
        first == second,
{
    let once = lemma_hashed_copies_observed(probe, read, files, key, paths, first, first_errors);
    let again = lemma_hashed_copies_observed(probe, read, files, key, paths, second, second_errors);
    lemma_hashed_copies_repeatable(files, key, paths, once.0, once.1, again.0, again.1);
}

} // verus!
