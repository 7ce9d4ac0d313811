//! Sorting a set of paths into groups of duplicates: files that share
//! their contents with at least one other file of the set.
//!
//! A file that cannot be read belongs to no group, and nothing more is said
//! of it: these functions return the groups alone. A caller who wants to
//! know of the failures sorts with [`crate::copies`], which hands them back.

use crate::classes::{classes, group_views, Sorter};
use crate::copies::copies_of;
use crate::keys::Key;
use crate::reading::{keyed, lemma_class_members_are_paths, observed, Outcome, sort_by};
use std::collections::hash_map::DefaultHasher;
use vstd::prelude::*;
use vstd::std_specs::hash::DefaultHasherAdditionalSpecFns;

verus! {

/// The groups of more than one path, in the order of `groups`.
pub open spec fn crowded(groups: Seq<Seq<String>>) -> Seq<Seq<String>>
    decreases groups.len(),
{
    if groups.len() == 0 {
        Seq::empty()
    } else {
        let before = crowded(groups.drop_last());
        if groups.last().len() > 1 {
            before.push(groups.last())
        } else {
            before
        }
    }
}

/// The groups of duplicates among `paths` when reading them gave `outcomes`:
/// the classes, by contents, of the paths that could be read, without the
/// classes of one.
pub open spec fn duplicates_of(
    paths: Seq<String>,
    outcomes: Seq<Outcome<Vec<u8>>>,
) -> Seq<Seq<String>> {
    crowded(classes(keyed(paths, outcomes)))
}

/// The duplicates are the copies without the groups of one.
pub proof fn lemma_duplicates_are_crowded_copies(
    paths: Seq<String>,
    outcomes: Seq<Outcome<Vec<u8>>>,
)
    ensures
        duplicates_of(paths, outcomes) == crowded(copies_of(paths, outcomes).0),
{
    if paths.len() == 1 {
        reveal_with_fuel(keyed, 2);
        reveal_with_fuel(crowded, 2);
        reveal_with_fuel(crate::classes::distinct_keys, 2);
        reveal_with_fuel(crate::classes::filed_under, 2);
        let only = seq![seq![paths[0]]];
        assert(only.drop_last() =~= Seq::<Seq<String>>::empty());
        assert(crowded(only) =~= Seq::<Seq<String>>::empty());
        let items = keyed(paths, outcomes);
        if items.len() > 0 {
            assert(items.drop_last() =~= Seq::<(String, Seq<u8>)>::empty());
            assert(classes(items) =~= seq![seq![paths[0]]]);
        } else {
            assert(classes(items) =~= Seq::<Seq<String>>::empty());
        }
    }
}

/// `groups` are the duplicates among `paths` for what `read` returned, once
/// for each path.
pub open spec fn are_duplicates<R: Fn(&String) -> Outcome<Vec<u8>>>(
    read: R,
    paths: Seq<String>,
    groups: Seq<Seq<String>>,
) -> bool {
    exists|outcomes: Seq<Outcome<Vec<u8>>>|
        {
            &&& observed(read, paths, outcomes)
            &&& groups == #[trigger] duplicates_of(paths, outcomes)
        }
}

/// Keeps the groups of more than one path.
fn keep_crowded(groups: Vec<Vec<String>>) -> (kept: Vec<Vec<String>>)
    ensures
        group_views(kept@) == crowded(group_views(groups@)),
{
    let ghost all = group_views(groups@);
    let ghost given = groups@;
    let mut kept: Vec<Vec<String>> = Vec::new();
    for group in it: groups
        invariant
            it.seq() == given,
            all == group_views(given),
            group_views(kept@) == crowded(all.take(it.index())),
    {
        proof {
            let n = it.index();
            assert(group@ == all[n]);
            assert(all.take(n + 1).drop_last() =~= all.take(n));
            assert(all.take(n + 1).last() == group@);
            assert(group_views(kept@.push(group)) =~= group_views(kept@).push(group@));
        }
        if group.len() > 1 {
            kept.push(group);
        }
    }
    proof {
        assert(all.take(given.len() as int) =~= all);
    }
    kept
}

/// Sorts `paths` into groups of files with the same contents, and returns
/// the groups of more than one file.
///
/// `read` is called once for each path, in order. The groups stand in the
/// order in which their contents first came, the paths of a group in the
/// order of `paths`. A path whose read failed is in no group.
pub fn get_duplicates<R: Fn(&String) -> Outcome<Vec<u8>>>(
    paths: &[String],
    read: &R,
) -> (groups: Vec<Vec<String>>)
    requires
        forall|i: int| 0 <= i < paths.len() ==> call_requires(*read, (&#[trigger] paths[i],)),
    ensures
        are_duplicates(*read, paths@, group_views(groups@)),
{
    let (all, _, Ghost(outcomes)) = sort_by(paths, read);
    let groups = keep_crowded(all);
    proof {
        assert(group_views(groups@) == duplicates_of(paths@, outcomes));
    }
    groups
}

/// The key under which contents are filed before they are compared in
/// full: the number that the standard hasher, freshly made, draws from the
/// bytes written in one piece, and the length.
pub open spec fn content_key(contents: Seq<u8>) -> (u64, usize) {
    (DefaultHasher::spec_finish(seq![contents]), contents.len() as usize)
}

/// The key of each of `outcomes` that holds contents; the failures stay.
pub open spec fn content_keys(
    outcomes: Seq<Outcome<Vec<u8>>>,
) -> Seq<Outcome<(u64, usize)>> {
    Seq::new(
        outcomes.len(),
        |i: int|
            match outcomes[i] {
                Ok(contents) => Ok(content_key(contents@)),
                Err(error) => Err(error),
            },
    )
}

/// The groups of duplicates that come of resolving each bucket of `buckets`
/// by itself, bucket after bucket, when reading the paths of bucket `b` gave
/// `rounds[b]`.
pub open spec fn all_duplicates(
    buckets: Seq<Seq<String>>,
    rounds: Seq<Seq<Outcome<Vec<u8>>>>,
) -> Seq<Seq<String>>
    decreases buckets.len(),
{
    if buckets.len() == 0 || rounds.len() != buckets.len() {
        Seq::empty()
    } else {
        all_duplicates(buckets.drop_last(), rounds.drop_last()) + duplicates_of(
            buckets.last(),
            rounds.last(),
        )
    }
}

/// The candidate buckets: the classes of more than one path, by content
/// key, of the paths that could be read.
pub open spec fn crowded_buckets(
    paths: Seq<String>,
    firsts: Seq<Outcome<Vec<u8>>>,
) -> Seq<Seq<String>> {
    crowded(classes(keyed(paths, content_keys(firsts))))
}

/// The groups of duplicates among `paths` when the first reads gave `firsts`
/// and reading the paths of candidate bucket `b` once more gave `rounds[b]`.
pub open spec fn hashed_duplicates_of(
    paths: Seq<String>,
    firsts: Seq<Outcome<Vec<u8>>>,
    rounds: Seq<Seq<Outcome<Vec<u8>>>>,
) -> Seq<Seq<String>> {
    all_duplicates(crowded_buckets(paths, firsts), rounds)
}

/// `rounds[b]` is what `read` returned for the paths of bucket `b`.
pub open spec fn every_round_observed<R: Fn(&String) -> Outcome<Vec<u8>>>(
    read: R,
    buckets: Seq<Seq<String>>,
    rounds: Seq<Seq<Outcome<Vec<u8>>>>,
) -> bool {
    &&& rounds.len() == buckets.len()
    &&& forall|b: int| 0 <= b < buckets.len() ==> observed(read, buckets[b], #[trigger] rounds[b])
}

/// `groups` are the duplicates among `paths` for what `read` returned: once
/// for each path, and once more for each path of a candidate bucket.
pub open spec fn are_hashed_duplicates<R: Fn(&String) -> Outcome<Vec<u8>>>(
    read: R,
    paths: Seq<String>,
    groups: Seq<Seq<String>>,
) -> bool {
    exists|
        firsts: Seq<Outcome<Vec<u8>>>,
        rounds: Seq<Seq<Outcome<Vec<u8>>>>,
    |
        {
            &&& observed(read, paths, firsts)
            &&& every_round_observed(read, crowded_buckets(paths, firsts), rounds)
            &&& groups == #[trigger] hashed_duplicates_of(paths, firsts, rounds)
        }
}

/// Every crowded group is one of the groups.
pub proof fn lemma_crowded_from_groups(groups: Seq<Seq<String>>, b: int)
    requires
        0 <= b < crowded(groups).len(),
    ensures
        exists|c: int| 0 <= c < groups.len() && #[trigger] groups[c] == crowded(groups)[b],
        crowded(groups)[b].len() > 1,
    decreases groups.len(),
{
    if groups.len() > 0 {
        let before = groups.drop_last();
        if groups.last().len() > 1 && b == crowded(before).len() {
            assert(groups[groups.len() - 1] == crowded(groups)[b]);
        } else {
            lemma_crowded_from_groups(before, b);
            let c = choose|c: int|
                0 <= c < before.len() && #[trigger] before[c] == crowded(before)[b];
            assert(groups[c] == crowded(groups)[b]);
        }
    }
}

/// Draws the content key from the contents of a file.
fn key_of(contents: &Vec<u8>) -> (key: (u64, usize))
    ensures
        key == content_key(contents@),
{
    (contents.digest(), contents.len())
}

/// Sorts `paths` into groups of files with the same contents without
/// holding more than one file's contents at a time, and returns the groups
/// of more than one file.
///
/// `read` is called once for each path, in order; of what it hands back only
/// a content key is kept. The paths with the same key form a candidate
/// bucket. Each bucket of more than one path is then resolved by
/// `get_duplicates` with `read`, and the groups of all buckets are returned,
/// bucket after bucket in the order in which the keys first came. A path
/// whose read failed is in no group.
pub fn get_duplicates_hashed<R: Fn(&String) -> Outcome<Vec<u8>>>(
    paths: &[String],
    read: &R,
) -> (groups: Vec<Vec<String>>)
    requires
        forall|i: int| 0 <= i < paths.len() ==> call_requires(*read, (&#[trigger] paths[i],)),
    ensures
        are_hashed_duplicates(*read, paths@, group_views(groups@)),
{
    let mut sorter: Sorter<(u64, usize)> = Sorter::new();
    let ghost mut firsts = Seq::<Outcome<Vec<u8>>>::empty();
    let mut i: usize = 0;
    while i < paths.len()
        invariant
            i <= paths.len(),
            forall|k: int| 0 <= k < paths.len() ==> call_requires(*read, (&#[trigger] paths[k],)),
            observed(*read, paths@.take(i as int), firsts),
            sorter.well_formed(),
            sorter.seen() == keyed(paths@.take(i as int), content_keys(firsts)),
        decreases paths.len() - i,
    {
        let outcome = read(&paths[i]);
        proof {
            assert(paths@.take(i + 1).drop_last() =~= paths@.take(i as int));
            assert(content_keys(firsts.push(outcome)).drop_last() =~= content_keys(firsts));
            firsts = firsts.push(outcome);
        }
        if let Ok(contents) = outcome {
            let key = key_of(&contents);
            sorter.add(paths[i].clone(), key);
        }
        i += 1;
    }
    proof {
        assert(paths@.take(i as int) =~= paths@);
    }
    let ghost keys = content_keys(firsts);
    let buckets = keep_crowded(sorter.finish());
    let ghost candidates = crowded_buckets(paths@, firsts);
    let mut groups: Vec<Vec<String>> = Vec::new();
    let ghost mut rounds = Seq::<Seq<Outcome<Vec<u8>>>>::empty();
    let mut b: usize = 0;
    while b < buckets.len()
        invariant
            b <= buckets.len(),
            forall|k: int| 0 <= k < paths.len() ==> call_requires(*read, (&#[trigger] paths[k],)),
            keys == content_keys(firsts),
            group_views(buckets@) == candidates,
            candidates == crowded_buckets(paths@, firsts),
            every_round_observed(*read, candidates.take(b as int), rounds),
            group_views(groups@) == all_duplicates(candidates.take(b as int), rounds),
        decreases buckets.len() - b,
    {
        let bucket = buckets[b].as_slice();
        proof {
            assert(bucket@ == candidates[b as int]);
            let sorted = classes(keyed(paths@, keys));
            lemma_crowded_from_groups(sorted, b as int);
            let c = choose|c: int|
                0 <= c < sorted.len() && #[trigger] sorted[c] == candidates[b as int];
            assert forall|m: int| 0 <= m < bucket.len() implies call_requires(
                *read,
                (&#[trigger] bucket[m],),
            ) by {
                lemma_class_members_are_paths(paths@, keys, c, m);
            }
        }
        let mut found = get_duplicates(bucket, read);
        proof {
            let round = choose|round: Seq<Outcome<Vec<u8>>>|
                {
                    &&& observed(*read, bucket@, round)
                    &&& group_views(found@) == #[trigger] duplicates_of(bucket@, round)
                };
            let longer = candidates.take(b + 1);
            assert(longer.drop_last() =~= candidates.take(b as int));
            assert(rounds.push(round).drop_last() =~= rounds);
            assert(longer.last() == bucket@);
            rounds = rounds.push(round);
            assert(group_views(groups@ + found@) =~= group_views(groups@) + group_views(found@));
        }
        groups.append(&mut found);
        b += 1;
    }
    proof {
        assert(candidates.take(b as int) =~= candidates);
        assert(group_views(groups@) == hashed_duplicates_of(paths@, firsts, rounds));
    }
    groups
}

} // verus!
