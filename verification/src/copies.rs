//! Sorting a set of paths into groups of files with the same contents.

use crate::classes::{classes, group_views};
use crate::keys::Key;
pub use crate::reading::PathIoError;
use crate::reading::{failures, keyed, lemma_class_members_are_paths, observed, sort_by, Outcome};
use vstd::prelude::*;

verus! {

/// The groups and the failures that belong to `paths` when reading them gave
/// `outcomes`.
///
/// A lone path is a group by itself and is not read. Otherwise the groups
/// are the classes, by contents, of the paths that could be read.
pub open spec fn copies_of(
    paths: Seq<String>,
    outcomes: Seq<Outcome<Vec<u8>>>,
) -> (Seq<Seq<String>>, Seq<PathIoError>) {
    if paths.len() == 1 {
        (seq![seq![paths[0]]], Seq::empty())
    } else {
        (classes(keyed(paths, outcomes)), failures(paths, outcomes))
    }
}

/// `groups` and `errors` are the copies of `paths` for what `read` returned:
/// once for each path, unless the path is alone.
pub open spec fn are_copies<R: Fn(&String) -> Outcome<Vec<u8>>>(
    read: R,
    paths: Seq<String>,
    groups: Seq<Seq<String>>,
    errors: Seq<PathIoError>,
) -> bool {
    exists|outcomes: Seq<Outcome<Vec<u8>>>|
        {
            &&& paths.len() != 1 ==> observed(read, paths, outcomes)
            &&& (groups, errors) == #[trigger] copies_of(paths, outcomes)
        }
}

/// Sorts two paths by comparing what reading them gave.
fn pair_copies(
    first: &String,
    second: &String,
    ours: Outcome<Vec<u8>>,
    theirs: Outcome<Vec<u8>>,
) -> (out: (Vec<Vec<String>>, Vec<PathIoError>))
    ensures
        (group_views(out.0@), out.1@) == copies_of(seq![*first, *second], seq![ours, theirs]),
{
    let ghost paths = seq![*first, *second];
    let ghost outcomes = seq![ours, theirs];
    proof {
        reveal_with_fuel(keyed, 3);
        reveal_with_fuel(failures, 3);
        reveal_with_fuel(crate::classes::distinct_keys, 3);
        reveal_with_fuel(crate::classes::filed_under, 3);
        assert(paths.drop_last() =~= seq![*first]);
        assert(outcomes.drop_last() =~= seq![ours]);
        assert(paths.drop_last().drop_last() =~= Seq::<String>::empty());
        assert(outcomes.drop_last().drop_last() =~= Seq::<
            Outcome<Vec<u8>>,
        >::empty());
    }
    let mut groups: Vec<Vec<String>> = Vec::new();
    let mut errors: Vec<PathIoError> = Vec::new();
    match (ours, theirs) {
        (Ok(a), Ok(b)) => {
            let ghost items = seq![(*first, a@), (*second, b@)];
            proof {
                assert(keyed(paths, outcomes) =~= items);
                assert(items.drop_last() =~= seq![(*first, a@)]);
                assert(items.drop_last().drop_last() =~= Seq::<(String, Seq<u8>)>::empty());
            }
            let ghost base = seq![(*first, a@)];
            proof {
                assert(base.drop_last() =~= Seq::<(String, Seq<u8>)>::empty());
                assert(crate::classes::distinct_keys(base) =~= seq![a@]);
                assert(classes(base) =~~= seq![seq![*first]]);
                assert(base.push((*second, b@)) =~= items);
                crate::classes::lemma_classes_step(base, *second, b@);
                if a@ == b@ {
                    assert(seq![a@][0] == b@);
                    seq![a@].index_of_first_ensures(b@);
                }
            }
            if a.same(&b) {
                let mut both: Vec<String> = Vec::new();
                both.push(first.clone());
                both.push(second.clone());
                groups.push(both);
                assert(group_views(groups@) =~~= classes(items));
            } else {
                let mut one: Vec<String> = Vec::new();
                one.push(first.clone());
                let mut other: Vec<String> = Vec::new();
                other.push(second.clone());
                groups.push(one);
                groups.push(other);
                assert(group_views(groups@) =~~= classes(items));
            }
        },
        (Ok(a), Err(error)) => {
            let ghost items = seq![(*first, a@)];
            proof {
                assert(keyed(paths, outcomes) =~= items);
                assert(items.drop_last() =~= Seq::<(String, Seq<u8>)>::empty());
            }
            let mut one: Vec<String> = Vec::new();
            one.push(first.clone());
            groups.push(one);
            errors.push(PathIoError { error, path: second.clone() });
            assert(group_views(groups@) =~~= classes(items));
            assert(errors@ =~= failures(paths, outcomes));
        },
        (Err(error), Ok(b)) => {
            let ghost items = seq![(*second, b@)];
            proof {
                assert(keyed(paths, outcomes) =~= items);
                assert(items.drop_last() =~= Seq::<(String, Seq<u8>)>::empty());
            }
            let mut other: Vec<String> = Vec::new();
            other.push(second.clone());
            groups.push(other);
            errors.push(PathIoError { error, path: first.clone() });
            assert(group_views(groups@) =~~= classes(items));
            assert(errors@ =~= failures(paths, outcomes));
        },
        (Err(error), Err(other)) => {
            proof {
                assert(keyed(paths, outcomes) =~= Seq::<(String, Seq<u8>)>::empty());
            }
            errors.push(PathIoError { error, path: first.clone() });
            errors.push(PathIoError { error: other, path: second.clone() });
            assert(group_views(groups@) =~~= classes(keyed(paths, outcomes)));
            assert(errors@ =~= failures(paths, outcomes));
        },
    }
    (groups, errors)
}

/// Sorts `paths` into groups of files with the same contents.
///
/// `read` is called once for each path, in order, and hands back the
/// contents of the file or the failure. Each group holds the paths whose
/// reads gave the same bytes; the groups stand in the order in which their
/// contents first came, the paths of a group in the order of `paths`. A path
/// whose read failed is in no group: its failure is returned beside the
/// groups, with the path.
///
/// A lone path is a group by itself and is not read. Two paths are read and
/// compared with each other.
pub fn get_copies<R: Fn(&String) -> Outcome<Vec<u8>>>(
    paths: &[String],
    read: &R,
) -> (out: (Vec<Vec<String>>, Vec<PathIoError>))
    requires
        forall|i: int| 0 <= i < paths.len() ==> call_requires(*read, (&#[trigger] paths[i],)),
    ensures
        are_copies(*read, paths@, group_views(out.0@), out.1@),
{
    if paths.len() == 1 {
        let mut only: Vec<String> = Vec::new();
        only.push(paths[0].clone());
        let mut groups: Vec<Vec<String>> = Vec::new();
        groups.push(only);
        let errors: Vec<PathIoError> = Vec::new();
        proof {
            let outcomes = Seq::<Outcome<Vec<u8>>>::empty();
            assert(group_views(groups@) =~~= copies_of(paths@, outcomes).0);
            assert(errors@ =~= copies_of(paths@, outcomes).1);
        }
        return (groups, errors);
    }
    if paths.len() == 2 {
        let ours = read(&paths[0]);
        let theirs = read(&paths[1]);
        let ghost outcomes = seq![ours, theirs];
        let out = pair_copies(&paths[0], &paths[1], ours, theirs);
        proof {
            assert(paths@ =~= seq![paths[0], paths[1]]);
            assert(observed(*read, paths@, outcomes));
            assert((group_views(out.0@), out.1@) == copies_of(paths@, outcomes));
        }
        return out;
    }
    let (groups, errors, Ghost(outcomes)) = sort_by(paths, read);
    proof {
        assert((group_views(groups@), errors@) == copies_of(paths@, outcomes));
    }
    (groups, errors)
}

/// The groups and the failures that come of resolving each bucket of
/// `buckets` by itself, bucket after bucket, when reading the paths of bucket
/// `b` gave `rounds[b]`.
pub open spec fn resolved(
    buckets: Seq<Seq<String>>,
    rounds: Seq<Seq<Outcome<Vec<u8>>>>,
) -> (Seq<Seq<String>>, Seq<PathIoError>)
    decreases buckets.len(),
{
    if buckets.len() == 0 || rounds.len() != buckets.len() {
        (Seq::empty(), Seq::empty())
    } else {
        let before = resolved(buckets.drop_last(), rounds.drop_last());
        let last = copies_of(buckets.last(), rounds.last());
        (before.0 + last.0, before.1 + last.1)
    }
}

/// The candidate buckets: the classes, by fingerprint, of the paths whose
/// probe gave one.
pub open spec fn candidate_buckets(
    paths: Seq<String>,
    probes: Seq<Outcome<(u64, usize)>>,
) -> Seq<Seq<String>> {
    classes(keyed(paths, probes))
}

/// The groups and the failures that belong to `paths` when probing them gave
/// `probes` and reading the paths of candidate bucket `b` gave `rounds[b]`.
///
/// The groups are those of the buckets, bucket after bucket. The failures
/// are those of the probes, then those of the reads.
pub open spec fn hashed_copies_of(
    paths: Seq<String>,
    probes: Seq<Outcome<(u64, usize)>>,
    rounds: Seq<Seq<Outcome<Vec<u8>>>>,
) -> (Seq<Seq<String>>, Seq<PathIoError>) {
    let found = resolved(candidate_buckets(paths, probes), rounds);
    (found.0, failures(paths, probes) + found.1)
}

/// `rounds[b]` is what `read` returned for the paths of bucket `b`, unless
/// that bucket holds a lone path, which is not read.
pub open spec fn rounds_observed<R: Fn(&String) -> Outcome<Vec<u8>>>(
    read: R,
    buckets: Seq<Seq<String>>,
    rounds: Seq<Seq<Outcome<Vec<u8>>>>,
) -> bool {
    &&& rounds.len() == buckets.len()
    &&& forall|b: int|
        0 <= b < buckets.len() && buckets[b].len() != 1 ==> observed(
            read,
            buckets[b],
            #[trigger] rounds[b],
        )
}

/// `groups` and `errors` are the copies of `paths` for what `probe` returned
/// for each path and what `read` then returned for the paths of each
/// candidate bucket.
pub open spec fn are_hashed_copies<
    P: Fn(&String) -> Outcome<(u64, usize)>,
    R: Fn(&String) -> Outcome<Vec<u8>>,
>(
    probe: P,
    read: R,
    paths: Seq<String>,
    groups: Seq<Seq<String>>,
    errors: Seq<PathIoError>,
) -> bool {
    exists|
        probes: Seq<Outcome<(u64, usize)>>,
        rounds: Seq<Seq<Outcome<Vec<u8>>>>,
    |
        {
            &&& observed(probe, paths, probes)
            &&& rounds_observed(read, candidate_buckets(paths, probes), rounds)
            &&& (groups, errors) == #[trigger] hashed_copies_of(paths, probes, rounds)
        }
}

/// Sorts `paths` into groups of files with the same contents, reading in
/// full only the files that a cheap probe could not tell apart.
///
/// `probe` is called once for each path, in order, and hands back the
/// fingerprint of the file and its length, or the failure. The paths with
/// the same fingerprint and length form a candidate bucket. Each bucket is
/// then resolved by `get_copies` with `read`, so that files which only look
/// alike end up in different groups, and the groups of all buckets are
/// returned, bucket after bucket in the order in which the fingerprints
/// first came. The failures of the probes are returned first, then those of
/// the reads.
pub fn get_copies_hashed<
    P: Fn(&String) -> Outcome<(u64, usize)>,
    R: Fn(&String) -> Outcome<Vec<u8>>,
>(paths: &[String], probe: &P, read: &R) -> (out: (Vec<Vec<String>>, Vec<PathIoError>))
    requires
        forall|i: int| 0 <= i < paths.len() ==> call_requires(*probe, (&#[trigger] paths[i],)),
        forall|i: int| 0 <= i < paths.len() ==> call_requires(*read, (&#[trigger] paths[i],)),
    ensures
        are_hashed_copies(*probe, *read, paths@, group_views(out.0@), out.1@),
{
    let (buckets, mut errors, Ghost(probes)) = sort_by(paths, probe);
    let mut groups: Vec<Vec<String>> = Vec::new();
    let ghost mut rounds = Seq::<Seq<Outcome<Vec<u8>>>>::empty();
    let ghost candidates = candidate_buckets(paths@, probes);
    let mut b: usize = 0;
    while b < buckets.len()
        invariant
            b <= buckets.len(),
            forall|i: int| 0 <= i < paths.len() ==> call_requires(*read, (&#[trigger] paths[i],)),
            group_views(buckets@) == candidates,
            candidates == candidate_buckets(paths@, probes),
            rounds_observed(*read, candidates.take(b as int), rounds),
            group_views(groups@) == resolved(candidates.take(b as int), rounds).0,
            errors@ == failures(paths@, probes) + resolved(candidates.take(b as int), rounds).1,
        decreases buckets.len() - b,
    {
        let bucket = buckets[b].as_slice();
        proof {
            assert(bucket@ == candidates[b as int]);
            assert forall|m: int| 0 <= m < bucket.len() implies call_requires(
                *read,
                (&#[trigger] bucket[m],),
            ) by {
                lemma_class_members_are_paths(paths@, probes, b as int, m);
            }
        }
        let (mut found, mut failed) = get_copies(bucket, read);
        proof {
            let round = choose|round: Seq<Outcome<Vec<u8>>>|
                {
                    &&& bucket@.len() != 1 ==> observed(*read, bucket@, round)
                    &&& (group_views(found@), failed@) == #[trigger] copies_of(bucket@, round)
                };
            let longer = candidates.take(b + 1);
            assert(longer.drop_last() =~= candidates.take(b as int));
            assert(rounds.push(round).drop_last() =~= rounds);
            assert(longer.last() == bucket@);
            rounds = rounds.push(round);
            assert(group_views(groups@ + found@) =~= group_views(groups@) + group_views(found@));
            assert(errors@ + failed@ =~= failures(paths@, probes) + resolved(longer, rounds).1);
        }
        groups.append(&mut found);
        errors.append(&mut failed);
        b += 1;
    }
    proof {
        assert(candidates.take(b as int) =~= candidates);
        assert((group_views(groups@), errors@) == hashed_copies_of(paths@, probes, rounds));
    }
    (groups, errors)
}

} // verus!
