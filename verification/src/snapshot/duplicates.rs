//! The groups of duplicates among files that do not change.

use crate::classes::{classes, distinct_keys, lemma_distinct_keys_cover, lemma_distinct_keys_differ};
use crate::copies::{are_copies, copies_of};
use crate::duplicates::{
    all_duplicates, are_duplicates, are_hashed_duplicates, content_key, content_keys, crowded,
    crowded_buckets, duplicates_of, every_round_observed, hashed_duplicates_of,
    lemma_duplicates_are_crowded_copies,
};
use crate::reading::{observed, Outcome, PathIoError};
use crate::snapshot::{
    grouped_by_contents, holding, known, lemma_filed_is_holding, lemma_holding_has,
    lemma_holding_length,
    lemma_holding_members, lemma_holding_within, lemma_keyed_probes, lemma_keyed_reads,
    lemma_known_classes_sorted, lemma_known_values, lemma_observed_reads, probed_from, read_from,
    reads_unchanging, sorted_by_contents, whole,
};
use vstd::prelude::*;

verus! {

/// The groups are the paths of `files` among `paths` that share their
/// contents with another, sorted by contents: every group has two paths at
/// least, and no contents that two paths hold are left out.
pub open spec fn crowded_by_contents(
    files: Map<String, Seq<u8>>,
    paths: Seq<String>,
    groups: Seq<Seq<String>>,
    shared: Seq<Seq<u8>>,
) -> bool {
    &&& grouped_by_contents(files, paths, groups, shared)
    &&& forall|g: int| 0 <= g < groups.len() ==> (#[trigger] groups[g]).len() > 1
    &&& forall|i: int|
        0 <= i < paths.len() && files.contains_key(#[trigger] paths[i]) && holding(
            files,
            paths,
            whole(),
            files[paths[i]],
        ).len() > 1 ==> shared.contains(files[paths[i]])
}

/// The tags of the groups of more than one path, where `tags[g]` is the tag
/// of `groups[g]`.
pub open spec fn kept_tags<K>(groups: Seq<Seq<String>>, tags: Seq<K>) -> Seq<K>
    decreases groups.len(),
{
    if groups.len() == 0 || tags.len() != groups.len() {
        Seq::empty()
    } else {
        let before = kept_tags(groups.drop_last(), tags.drop_last());
        if groups.last().len() > 1 {
            before.push(tags.last())
        } else {
            before
        }
    }
}

/// The function that draws the content key from contents.
pub open spec fn keyed_contents() -> spec_fn(Seq<u8>) -> (u64, usize) {
    |contents: Seq<u8>| content_key(contents)
}

/// Crowded group `c` is group `g`, which has more than one path, and the
/// kept tag `c` is its tag.
pub open spec fn keeps<K>(groups: Seq<Seq<String>>, tags: Seq<K>, c: int, g: int) -> bool {
    &&& 0 <= c < crowded(groups).len()
    &&& 0 <= g < groups.len()
    &&& groups[g].len() > 1
    &&& crowded(groups)[c] == groups[g]
    &&& kept_tags(groups, tags)[c] == tags[g]
}

/// The crowded groups and the kept tags go together: each crowded group is
/// a group of more than one path with its tag, and each such group is kept.
pub proof fn lemma_kept_tags<K>(groups: Seq<Seq<String>>, tags: Seq<K>)
    requires
        tags.len() == groups.len(),
    ensures
        kept_tags(groups, tags).len() == crowded(groups).len(),
        forall|c: int|
            0 <= c < crowded(groups).len() ==> (#[trigger] crowded(groups)[c]).len() > 1 && exists|
                g: int,
            | #[trigger] keeps(groups, tags, c, g),
        forall|g: int|
            0 <= g < groups.len() && (#[trigger] groups[g]).len() > 1 ==> exists|c: int| #[trigger]
                keeps(groups, tags, c, g),
        tags.no_duplicates() ==> kept_tags(groups, tags).no_duplicates(),
    decreases groups.len(),
{
    if groups.len() == 0 {
        assert(crowded(groups).len() == 0);
    } else {
        let fewer = groups.drop_last();
        let earlier = tags.drop_last();
        let last = groups.len() - 1;
        lemma_kept_tags(fewer, earlier);
        let kept = kept_tags(groups, tags);
        let full = crowded(groups);
        assert forall|c: int| 0 <= c < full.len() implies (#[trigger] full[c]).len() > 1 && exists|
            g: int,
        | #[trigger] keeps(groups, tags, c, g) by {
            if c < crowded(fewer).len() {
                assert(crowded(fewer)[c] == full[c]);
                let g = choose|g: int| #[trigger] keeps(fewer, earlier, c, g);
                assert(keeps(groups, tags, c, g));
            } else {
                assert(keeps(groups, tags, c, last));
            }
        }
        assert forall|g: int|
            0 <= g < groups.len() && (#[trigger] groups[g]).len() > 1 implies exists|c: int|
            #[trigger] keeps(groups, tags, c, g) by {
            if g < last {
                assert(fewer[g].len() > 1);
                let c = choose|c: int| #[trigger] keeps(fewer, earlier, c, g);
                assert(keeps(groups, tags, c, g));
            } else {
                assert(keeps(groups, tags, full.len() - 1, g));
            }
        }
        if tags.no_duplicates() {
            assert(earlier.no_duplicates());
            if groups.last().len() > 1 {
                let before = kept_tags(fewer, earlier);
                assert forall|c: int| 0 <= c < before.len() implies before[c] != tags.last() by {
                    assert(crowded(fewer)[c].len() >= 0);
                    let g = choose|g: int| #[trigger] keeps(fewer, earlier, c, g);
                    assert(tags[g] == before[c]);
                }
            }
        }
    }
}

/// Of groups sorted by contents, those of more than one path are the paths
/// that share their contents with another, sorted by contents.
pub proof fn lemma_crowded_sorted(
    files: Map<String, Seq<u8>>,
    paths: Seq<String>,
    groups: Seq<Seq<String>>,
    shared: Seq<Seq<u8>>,
)
    requires
        sorted_by_contents(files, paths, groups, shared),
    ensures
        crowded_by_contents(files, paths, crowded(groups), kept_tags(groups, shared)),
{
    let kept = kept_tags(groups, shared);
    let full = crowded(groups);
    lemma_kept_tags(groups, shared);
    assert forall|c: int| 0 <= c < full.len() implies #[trigger] full[c] == holding(
        files,
        paths,
        whole(),
        kept[c],
    ) && full[c].len() > 1 by {
        assert(crowded(groups)[c] == full[c]);
        let g = choose|g: int| #[trigger] keeps(groups, shared, c, g);
        assert(groups[g] == holding(files, paths, whole(), shared[g]));
    }
    assert forall|i: int|
        0 <= i < paths.len() && files.contains_key(#[trigger] paths[i]) && holding(
            files,
            paths,
            whole(),
            files[paths[i]],
        ).len() > 1 implies kept.contains(files[paths[i]]) by {
        let contents = files[paths[i]];
        assert(shared.contains(contents));
        let g = choose|g: int| 0 <= g < shared.len() && shared[g] == contents;
        assert(groups[g].len() > 1);
        let c = choose|c: int| #[trigger] keeps(groups, shared, c, g);
        assert(kept[c] == contents);
    }
}

/// The duplicates among unchanging files are the paths that share their
/// contents with another, sorted by contents.
pub proof fn lemma_duplicates_sorted(
    files: Map<String, Seq<u8>>,
    paths: Seq<String>,
    outcomes: Seq<Outcome<Vec<u8>>>,
)
    requires
        read_from(files, paths, outcomes),
    ensures
        crowded_by_contents(
            files,
            paths,
            duplicates_of(paths, outcomes),
            kept_tags(
                classes(known(files, paths, whole())),
                distinct_keys(known(files, paths, whole())),
            ),
        ),
{
    lemma_keyed_reads(files, paths, outcomes);
    lemma_known_classes_sorted(files, paths);
    lemma_crowded_sorted(
        files,
        paths,
        classes(known(files, paths, whole())),
        distinct_keys(known(files, paths, whole())),
    );
}

/// Two sortings of the paths that share their contents with another differ
/// in the order of the groups at most.
pub proof fn lemma_crowdings_agree(
    files: Map<String, Seq<u8>>,
    paths: Seq<String>,
    ours: Seq<Seq<String>>,
    our_shared: Seq<Seq<u8>>,
    theirs: Seq<Seq<String>>,
    their_shared: Seq<Seq<u8>>,
)
    requires
        crowded_by_contents(files, paths, ours, our_shared),
        crowded_by_contents(files, paths, theirs, their_shared),
    ensures
        ours.len() == theirs.len(),
        forall|group: Seq<String>| ours.contains(group) <==> theirs.contains(group),
{
    lemma_crowded_within(files, paths, ours, our_shared, theirs, their_shared);
    lemma_crowded_within(files, paths, theirs, their_shared, ours, our_shared);
    assert(our_shared.to_set() =~= their_shared.to_set());
    our_shared.unique_seq_to_set();
    their_shared.unique_seq_to_set();
}

/// Every group of one such sorting is a group of the other.
proof fn lemma_crowded_within(
    files: Map<String, Seq<u8>>,
    paths: Seq<String>,
    ours: Seq<Seq<String>>,
    our_shared: Seq<Seq<u8>>,
    theirs: Seq<Seq<String>>,
    their_shared: Seq<Seq<u8>>,
)
    requires
        crowded_by_contents(files, paths, ours, our_shared),
        crowded_by_contents(files, paths, theirs, their_shared),
    ensures
        forall|contents: Seq<u8>| our_shared.contains(contents) ==> their_shared.contains(contents),
        forall|group: Seq<String>| ours.contains(group) ==> theirs.contains(group),
{
    assert forall|contents: Seq<u8>| our_shared.contains(contents) implies their_shared.contains(
        contents,
    ) by {
        let g = choose|g: int| 0 <= g < our_shared.len() && our_shared[g] == contents;
        assert(ours[g].len() > 1);
        lemma_holding_members(files, paths, whole(), contents, 0);
        let path = ours[g][0];
        let i = choose|i: int| 0 <= i < paths.len() && paths[i] == path;
        assert(files.contains_key(paths[i]));
        assert(whole()(files[paths[i]]) == contents);
    }
    assert forall|group: Seq<String>| ours.contains(group) implies theirs.contains(group) by {
        let g = choose|g: int| 0 <= g < ours.len() && ours[g] == group;
        assert(our_shared.contains(our_shared[g]));
        let h = choose|h: int| 0 <= h < their_shared.len() && their_shared[h] == our_shared[g];
        assert(theirs[h] == group);
    }
}

/// First reads of unchanging files give the content key of the known
/// contents.
pub proof fn lemma_content_keys_probed(
    files: Map<String, Seq<u8>>,
    paths: Seq<String>,
    firsts: Seq<Outcome<Vec<u8>>>,
)
    requires
        read_from(files, paths, firsts),
    ensures
        probed_from(files, keyed_contents(), paths, content_keys(firsts)),
{
    let probes = content_keys(firsts);
    assert forall|i: int| 0 <= i < paths.len() implies match #[trigger] probes[i] {
        Ok(found) => files.contains_key(paths[i]) && found == keyed_contents()(files[paths[i]]),
        Err(_) => !files.contains_key(paths[i]),
    } by {
        assert(match firsts[i] {
            Ok(contents) => files.contains_key(paths[i]) && files[paths[i]] == contents@,
            Err(_) => !files.contains_key(paths[i]),
        });
    }
}

/// The duplicates found in one candidate bucket are groups of the whole:
/// each holds all paths with its contents, and the contents go with the
/// bucket's key.
proof fn lemma_bucket_duplicates(
    files: Map<String, Seq<u8>>,
    key: spec_fn(Seq<u8>) -> (u64, usize),
    paths: Seq<String>,
    found: (u64, usize),
    round: Seq<Outcome<Vec<u8>>>,
) -> (shared: Seq<Seq<u8>>)
    requires
        read_from(files, holding(files, paths, key, found), round),
    ensures
        shared.len() == duplicates_of(holding(files, paths, key, found), round).len(),
        shared.no_duplicates(),
        forall|g: int|
            0 <= g < shared.len() ==> {
                &&& #[trigger] duplicates_of(holding(files, paths, key, found), round)[g]
                    == holding(files, paths, whole(), shared[g])
                &&& duplicates_of(holding(files, paths, key, found), round)[g].len() > 1
                &&& key(shared[g]) == found
            },
        forall|i: int|
            0 <= i < paths.len() && files.contains_key(#[trigger] paths[i]) && key(files[paths[i]])
                == found && holding(files, paths, whole(), files[paths[i]]).len() > 1
                ==> shared.contains(files[paths[i]]),
{
    let bucket = holding(files, paths, key, found);
    let groups = duplicates_of(bucket, round);
    let shared = kept_tags(
        classes(known(files, bucket, whole())),
        distinct_keys(known(files, bucket, whole())),
    );
    lemma_duplicates_sorted(files, bucket, round);
    assert(crowded_by_contents(files, bucket, groups, shared));
    assert forall|g: int| 0 <= g < shared.len() implies {
        &&& #[trigger] groups[g] == holding(files, paths, whole(), shared[g])
        &&& groups[g].len() > 1
        &&& key(shared[g]) == found
    } by {
        assert(groups[g] == holding(files, bucket, whole(), shared[g]) && groups[g].len() > 1);
        lemma_holding_members(files, bucket, whole(), shared[g], 0);
        let member = groups[g][0];
        let m = choose|m: int| 0 <= m < bucket.len() && bucket[m] == member;
        lemma_holding_members(files, paths, key, found, m);
        assert(whole()(files[member]) == shared[g]);
        assert forall|i: int|
            0 <= i < paths.len() && files.contains_key(#[trigger] paths[i]) && whole()(
                files[paths[i]],
            ) == shared[g] implies key(files[paths[i]]) == found by {}
        lemma_holding_within(files, paths, key, found, whole(), shared[g]);
    }
    assert forall|i: int|
        0 <= i < paths.len() && files.contains_key(#[trigger] paths[i]) && key(files[paths[i]])
            == found && holding(files, paths, whole(), files[paths[i]]).len()
            > 1 implies shared.contains(files[paths[i]]) by {
        let contents = files[paths[i]];
        lemma_holding_has(files, paths, key, found, i);
        let m = choose|m: int| 0 <= m < bucket.len() && bucket[m] == paths[i];
        assert forall|j: int|
            0 <= j < paths.len() && files.contains_key(#[trigger] paths[j]) && whole()(
                files[paths[j]],
            ) == contents implies key(files[paths[j]]) == found by {}
        lemma_holding_within(files, paths, key, found, whole(), contents);
        assert(files.contains_key(bucket[m]));
        assert(holding(files, bucket, whole(), files[bucket[m]]).len() > 1);
    }
    shared
}

/// The duplicates found in the first `count` candidate buckets are groups
/// of the whole, and none of the contents that go with these buckets' keys
/// and that two paths hold are left out.
proof fn lemma_all_duplicates_sorted(
    files: Map<String, Seq<u8>>,
    key: spec_fn(Seq<u8>) -> (u64, usize),
    paths: Seq<String>,
    buckets: Seq<Seq<String>>,
    found: Seq<(u64, usize)>,
    rounds: Seq<Seq<Outcome<Vec<u8>>>>,
    count: int,
) -> (shared: Seq<Seq<u8>>)
    requires
        0 <= count <= buckets.len(),
        found.len() == buckets.len(),
        rounds.len() == buckets.len(),
        found.no_duplicates(),
        forall|b: int|
            0 <= b < buckets.len() ==> #[trigger] buckets[b] == holding(
                files,
                paths,
                key,
                found[b],
            ),
        forall|b: int|
            0 <= b < buckets.len() ==> read_from(files, buckets[b], #[trigger] rounds[b]),
    ensures
        shared.len() == all_duplicates(buckets.take(count), rounds.take(count)).len(),
        shared.no_duplicates(),
        forall|g: int|
            0 <= g < shared.len() ==> {
                &&& #[trigger] all_duplicates(buckets.take(count), rounds.take(count))[g]
                    == holding(files, paths, whole(), shared[g])
                &&& all_duplicates(buckets.take(count), rounds.take(count))[g].len() > 1
                &&& found.take(count).contains(key(shared[g]))
            },
        forall|i: int|
            0 <= i < paths.len() && files.contains_key(#[trigger] paths[i]) && found.take(
                count,
            ).contains(key(files[paths[i]])) && holding(
                files,
                paths,
                whole(),
                files[paths[i]],
            ).len() > 1 ==> shared.contains(files[paths[i]]),
    decreases count,
{
    if count == 0 {
        Seq::empty()
    } else {
        let b = count - 1;
        let earlier = lemma_all_duplicates_sorted(files, key, paths, buckets, found, rounds, b);
        assert(buckets[b] == holding(files, paths, key, found[b]));
        assert(read_from(files, buckets[b], rounds[b]));
        let here = lemma_bucket_duplicates(files, key, paths, found[b], rounds[b]);
        let shared = earlier + here;
        let before = all_duplicates(buckets.take(b), rounds.take(b));
        let last = duplicates_of(buckets[b], rounds[b]);
        let groups = all_duplicates(buckets.take(count), rounds.take(count));
        assert(buckets.take(count).drop_last() =~= buckets.take(b));
        assert(rounds.take(count).drop_last() =~= rounds.take(b));
        assert(groups =~= before + last);
        assert forall|g: int, h: int|
            0 <= g < earlier.len() && 0 <= h < here.len() implies earlier[g] != here[h] by {
            assert(last[h].len() > 1);
            assert(before[g].len() > 1);
            let held = key(earlier[g]);
            let at = choose|at: int| 0 <= at < found.take(b).len() && found.take(b)[at] == held;
            assert(found[at] == held);
        }
        vstd::seq_lib::lemma_no_dup_in_concat(earlier, here);
        assert forall|g: int| 0 <= g < shared.len() implies {
            &&& #[trigger] groups[g] == holding(files, paths, whole(), shared[g])
            &&& groups[g].len() > 1
            &&& found.take(count).contains(key(shared[g]))
        } by {
            if g < earlier.len() {
                assert(groups[g] == before[g]);
                let held = key(shared[g]);
                let at = choose|at: int| 0 <= at < found.take(b).len() && found.take(b)[at] == held;
                assert(found.take(count)[at] == held);
            } else {
                assert(groups[g] == last[g - earlier.len()]);
                assert(found.take(count)[b] == found[b]);
            }
        }
        assert forall|i: int|
            0 <= i < paths.len() && files.contains_key(#[trigger] paths[i]) && found.take(
                count,
            ).contains(key(files[paths[i]])) && holding(
                files,
                paths,
                whole(),
                files[paths[i]],
            ).len() > 1 implies shared.contains(files[paths[i]]) by {
            let held = key(files[paths[i]]);
            let at = choose|at: int| 0 <= at < count && found.take(count)[at] == held;
            if at < b {
                assert(found.take(b)[at] == held);
                assert(earlier.contains(files[paths[i]]));
                let g = choose|g: int| 0 <= g < earlier.len() && earlier[g] == files[paths[i]];
                assert(shared[g] == files[paths[i]]);
            } else {
                assert(here.contains(files[paths[i]]));
                let h = choose|h: int| 0 <= h < here.len() && here[h] == files[paths[i]];
                assert(shared[earlier.len() + h] == files[paths[i]]);
            }
        }
        shared
    }
}

/// The duplicates that the two stages find among unchanging files are the
/// paths that share their contents with another, sorted by contents.
pub proof fn lemma_hashed_duplicates_sorted(
    files: Map<String, Seq<u8>>,
    paths: Seq<String>,
    firsts: Seq<Outcome<Vec<u8>>>,
    rounds: Seq<Seq<Outcome<Vec<u8>>>>,
) -> (shared: Seq<Seq<u8>>)
    requires
        read_from(files, paths, firsts),
        rounds.len() == crowded_buckets(paths, firsts).len(),
        forall|b: int|
            0 <= b < rounds.len() ==> read_from(
                files,
                crowded_buckets(paths, firsts)[b],
                #[trigger] rounds[b],
            ),
    ensures
        crowded_by_contents(files, paths, hashed_duplicates_of(paths, firsts, rounds), shared),
{
    let key = keyed_contents();
    lemma_content_keys_probed(files, paths, firsts);
    lemma_keyed_probes(files, key, paths, content_keys(firsts));
    let items = known(files, paths, key);
    let keys = distinct_keys(items);
    let sorted = classes(items);
    let buckets = crowded(sorted);
    let found = kept_tags(sorted, keys);
    lemma_distinct_keys_differ(items);
    lemma_kept_tags(sorted, keys);
    assert forall|b: int| 0 <= b < buckets.len() implies #[trigger] buckets[b] == holding(
        files,
        paths,
        key,
        found[b],
    ) by {
        assert(crowded(sorted)[b].len() > 1);
        let g = choose|g: int| #[trigger] keeps(sorted, keys, b, g);
        lemma_filed_is_holding(files, paths, key, keys[g]);
    }
    let count = buckets.len() as int;
    let shared = lemma_all_duplicates_sorted(files, key, paths, buckets, found, rounds, count);
    assert(buckets.take(count) =~= buckets);
    assert(rounds.take(count) =~= rounds);
    assert(found.take(count) =~= found);
    assert forall|i: int|
        0 <= i < paths.len() && files.contains_key(#[trigger] paths[i]) && holding(
            files,
            paths,
            whole(),
            files[paths[i]],
        ).len() > 1 implies shared.contains(files[paths[i]]) by {
        let contents = files[paths[i]];
        let held = key(contents);
        lemma_known_values(files, paths, key, held);
        lemma_distinct_keys_cover(items, held);
        let g = choose|g: int| 0 <= g < keys.len() && keys[g] == held;
        lemma_filed_is_holding(files, paths, key, held);
        assert forall|j: int|
            0 <= j < paths.len() && files.contains_key(#[trigger] paths[j]) && whole()(
                files[paths[j]],
            ) == contents implies key(files[paths[j]]) == held by {}
        lemma_holding_within(files, paths, key, held, whole(), contents);
        lemma_holding_length(files, holding(files, paths, key, held), whole(), contents);
        assert(sorted[g].len() > 1);
        let c = choose|c: int| #[trigger] keeps(sorted, keys, c, g);
        assert(found[c] == held);
        assert(found.contains(key(files[paths[i]])));
    }
    shared
}

/// Consistency: among unchanging files the two stages find the duplicates
/// that reading every file once finds, in another order at most.
pub proof fn lemma_duplicate_variants_agree(
    files: Map<String, Seq<u8>>,
    paths: Seq<String>,
    outcomes: Seq<Outcome<Vec<u8>>>,
    firsts: Seq<Outcome<Vec<u8>>>,
    rounds: Seq<Seq<Outcome<Vec<u8>>>>,
)
    requires
        read_from(files, paths, outcomes),
        read_from(files, paths, firsts),
        rounds.len() == crowded_buckets(paths, firsts).len(),
        forall|b: int|
            0 <= b < rounds.len() ==> read_from(
                files,
                crowded_buckets(paths, firsts)[b],
                #[trigger] rounds[b],
            ),
    ensures
        hashed_duplicates_of(paths, firsts, rounds).len() == duplicates_of(paths, outcomes).len(),
        forall|group: Seq<String>|
            hashed_duplicates_of(paths, firsts, rounds).contains(group) <==> duplicates_of(
                paths,
                outcomes,
            ).contains(group),
{
    let shared = lemma_hashed_duplicates_sorted(files, paths, firsts, rounds);
    lemma_duplicates_sorted(files, paths, outcomes);
    lemma_crowdings_agree(
        files,
        paths,
        hashed_duplicates_of(paths, firsts, rounds),
        shared,
        duplicates_of(paths, outcomes),
        kept_tags(
            classes(known(files, paths, whole())),
            distinct_keys(known(files, paths, whole())),
        ),
    );
}

/// Reading unchanging files once more gives the same duplicates.
pub proof fn lemma_duplicates_repeatable(
    files: Map<String, Seq<u8>>,
    paths: Seq<String>,
    first: Seq<Outcome<Vec<u8>>>,
    second: Seq<Outcome<Vec<u8>>>,
)
    requires
        read_from(files, paths, first),
        read_from(files, paths, second),
    ensures
        duplicates_of(paths, first) == duplicates_of(paths, second),
{
    lemma_keyed_reads(files, paths, first);
    lemma_keyed_reads(files, paths, second);
}

/// Resolving the same buckets of unchanging files once more gives the same
/// duplicates.
proof fn lemma_all_duplicates_repeatable(
    files: Map<String, Seq<u8>>,
    buckets: Seq<Seq<String>>,
    first: Seq<Seq<Outcome<Vec<u8>>>>,
    second: Seq<Seq<Outcome<Vec<u8>>>>,
)
    requires
        first.len() == buckets.len(),
        second.len() == buckets.len(),
        forall|b: int|
            0 <= b < buckets.len() ==> read_from(files, buckets[b], #[trigger] first[b]),
        forall|b: int|
            0 <= b < buckets.len() ==> read_from(files, buckets[b], #[trigger] second[b]),
    ensures
        all_duplicates(buckets, first) == all_duplicates(buckets, second),
    decreases buckets.len(),
{
    if buckets.len() > 0 {
        let last = buckets.len() - 1;
        assert forall|b: int| 0 <= b < buckets.drop_last().len() implies read_from(
            files,
            buckets.drop_last()[b],
            #[trigger] first.drop_last()[b],
        ) by {
            assert(first.drop_last()[b] == first[b]);
        }
        assert forall|b: int| 0 <= b < buckets.drop_last().len() implies read_from(
            files,
            buckets.drop_last()[b],
            #[trigger] second.drop_last()[b],
        ) by {
            assert(second.drop_last()[b] == second[b]);
        }
        lemma_all_duplicates_repeatable(
            files,
            buckets.drop_last(),
            first.drop_last(),
            second.drop_last(),
        );
        assert(first.last() == first[last]);
        assert(second.last() == second[last]);
        lemma_duplicates_repeatable(files, buckets.last(), first.last(), second.last());
    }
}

/// Reading unchanging files in two stages once more gives the same
/// duplicates.
pub proof fn lemma_hashed_duplicates_repeatable(
    files: Map<String, Seq<u8>>,
    paths: Seq<String>,
    first: Seq<Outcome<Vec<u8>>>,
    first_rounds: Seq<Seq<Outcome<Vec<u8>>>>,
    second: Seq<Outcome<Vec<u8>>>,
    second_rounds: Seq<Seq<Outcome<Vec<u8>>>>,
)
    requires
        read_from(files, paths, first),
        read_from(files, paths, second),
        first_rounds.len() == crowded_buckets(paths, first).len(),
        second_rounds.len() == crowded_buckets(paths, second).len(),
        forall|b: int|
            0 <= b < first_rounds.len() ==> read_from(
                files,
                crowded_buckets(paths, first)[b],
                #[trigger] first_rounds[b],
            ),
        forall|b: int|
            0 <= b < second_rounds.len() ==> read_from(
                files,
                crowded_buckets(paths, second)[b],
                #[trigger] second_rounds[b],
            ),
    ensures
        hashed_duplicates_of(paths, first, first_rounds) == hashed_duplicates_of(
            paths,
            second,
            second_rounds,
        ),
{
    let key = keyed_contents();
    lemma_content_keys_probed(files, paths, first);
    lemma_content_keys_probed(files, paths, second);
    lemma_keyed_probes(files, key, paths, content_keys(first));
    lemma_keyed_probes(files, key, paths, content_keys(second));
    lemma_all_duplicates_repeatable(
        files,
        crowded(classes(known(files, paths, key))),
        first_rounds,
        second_rounds,
    );
}

/// What `get_duplicates` returns for unchanging files are the paths that
/// share their contents with another, sorted by contents: the paths of a
/// group hold the same contents, paths of different groups hold different
/// contents, and no path that has a copy is left out.
pub proof fn lemma_get_duplicates_sorted<R: Fn(&String) -> Outcome<Vec<u8>>>(
    read: R,
    files: Map<String, Seq<u8>>,
    paths: Seq<String>,
    groups: Seq<Seq<String>>,
) -> (shared: Seq<Seq<u8>>)
    requires
        reads_unchanging(read, files),
        are_duplicates(read, paths, groups),
    ensures
        crowded_by_contents(files, paths, groups, shared),
{
    let outcomes = choose|outcomes: Seq<Outcome<Vec<u8>>>|
        {
            &&& observed(read, paths, outcomes)
            &&& groups == #[trigger] duplicates_of(paths, outcomes)
        };
    lemma_observed_reads(read, files, paths, outcomes);
    lemma_duplicates_sorted(files, paths, outcomes);
    kept_tags(classes(known(files, paths, whole())), distinct_keys(known(files, paths, whole())))
}

/// What the reads of `get_duplicates_hashed` gave, where they were of
/// unchanging files.
proof fn lemma_hashed_duplicates_observed<R: Fn(&String) -> Outcome<Vec<u8>>>(
    read: R,
    files: Map<String, Seq<u8>>,
    paths: Seq<String>,
    groups: Seq<Seq<String>>,
) -> (seen: (
    Seq<Outcome<Vec<u8>>>,
    Seq<Seq<Outcome<Vec<u8>>>>,
))
    requires
        reads_unchanging(read, files),
        are_hashed_duplicates(read, paths, groups),
    ensures
        groups == hashed_duplicates_of(paths, seen.0, seen.1),
        read_from(files, paths, seen.0),
        seen.1.len() == crowded_buckets(paths, seen.0).len(),
        forall|b: int|
            0 <= b < seen.1.len() ==> read_from(
                files,
                crowded_buckets(paths, seen.0)[b],
                #[trigger] seen.1[b],
            ),
{
    let (firsts, rounds) = choose|
        firsts: Seq<Outcome<Vec<u8>>>,
        rounds: Seq<Seq<Outcome<Vec<u8>>>>,
    |
        {
            &&& observed(read, paths, firsts)
            &&& every_round_observed(read, crowded_buckets(paths, firsts), rounds)
            &&& groups == #[trigger] hashed_duplicates_of(paths, firsts, rounds)
        };
    lemma_observed_reads(read, files, paths, firsts);
    let buckets = crowded_buckets(paths, firsts);
    assert forall|b: int| 0 <= b < rounds.len() implies read_from(
        files,
        buckets[b],
        #[trigger] rounds[b],
    ) by {
        lemma_observed_reads(read, files, buckets[b], rounds[b]);
    }
    (firsts, rounds)
}

/// What `get_duplicates_hashed` returns for unchanging files are the paths
/// that share their contents with another, sorted by contents.
pub proof fn lemma_get_duplicates_hashed_sorted<
    R: Fn(&String) -> Outcome<Vec<u8>>,
>(read: R, files: Map<String, Seq<u8>>, paths: Seq<String>, groups: Seq<Seq<String>>) -> (shared:
    Seq<Seq<u8>>)
    requires
        reads_unchanging(read, files),
        are_hashed_duplicates(read, paths, groups),
    ensures
        crowded_by_contents(files, paths, groups, shared),
{
    let (firsts, rounds) = lemma_hashed_duplicates_observed(read, files, paths, groups);
    lemma_hashed_duplicates_sorted(files, paths, firsts, rounds)
}

/// Consistency: for unchanging files `get_duplicates_hashed` returns the
/// groups that `get_duplicates` returns, in another order at most.
pub proof fn lemma_get_duplicates_agree<R: Fn(&String) -> Outcome<Vec<u8>>>(
    read: R,
    files: Map<String, Seq<u8>>,
    paths: Seq<String>,
    plain: Seq<Seq<String>>,
    hashed: Seq<Seq<String>>,
)
    requires
        reads_unchanging(read, files),
        are_duplicates(read, paths, plain),
        are_hashed_duplicates(read, paths, hashed),
    ensures
        hashed.len() == plain.len(),
        forall|group: Seq<String>| hashed.contains(group) <==> plain.contains(group),
{
    let ours = lemma_get_duplicates_hashed_sorted(read, files, paths, hashed);
    let theirs = lemma_get_duplicates_sorted(read, files, paths, plain);
    lemma_crowdings_agree(files, paths, hashed, ours, plain, theirs);
}

/// Idempotence: for unchanging files a second run of `get_duplicates`
/// returns the groups of the first.
pub proof fn lemma_get_duplicates_idempotent<R: Fn(&String) -> Outcome<Vec<u8>>>(
    read: R,
    files: Map<String, Seq<u8>>,
    paths: Seq<String>,
    first: Seq<Seq<String>>,
    second: Seq<Seq<String>>,
)
    requires
        reads_unchanging(read, files),
        are_duplicates(read, paths, first),
        are_duplicates(read, paths, second),
    ensures
        first == second,
{
    let once = choose|outcomes: Seq<Outcome<Vec<u8>>>|
        {
            &&& observed(read, paths, outcomes)
            &&& first == #[trigger] duplicates_of(paths, outcomes)
        };
    let again = choose|outcomes: Seq<Outcome<Vec<u8>>>|
        {
            &&& observed(read, paths, outcomes)
            &&& second == #[trigger] duplicates_of(paths, outcomes)
        };
    lemma_observed_reads(read, files, paths, once);
    lemma_observed_reads(read, files, paths, again);
    lemma_duplicates_repeatable(files, paths, once, again);
}

/// Idempotence: for unchanging files a second run of
/// `get_duplicates_hashed` returns the groups of the first.
pub proof fn lemma_get_duplicates_hashed_idempotent<
    R: Fn(&String) -> Outcome<Vec<u8>>,
>(
    read: R,
    files: Map<String, Seq<u8>>,
    paths: Seq<String>,
    first: Seq<Seq<String>>,
    second: Seq<Seq<String>>,
)
    requires
        reads_unchanging(read, files),
        are_hashed_duplicates(read, paths, first),
        are_hashed_duplicates(read, paths, second),
    ensures
        first == second,
{
    let once = lemma_hashed_duplicates_observed(read, files, paths, first);
    let again = lemma_hashed_duplicates_observed(read, files, paths, second);
    lemma_hashed_duplicates_repeatable(files, paths, once.0, once.1, again.0, again.1);
}

/// For unchanging files the groups that `get_duplicates` returns are the
/// groups of more than one path that `get_copies` returns, in their order.
pub proof fn lemma_get_duplicates_are_crowded_copies<
    R: Fn(&String) -> Outcome<Vec<u8>>,
>(
    read: R,
    files: Map<String, Seq<u8>>,
    paths: Seq<String>,
    duplicates: Seq<Seq<String>>,
    copies: Seq<Seq<String>>,
    errors: Seq<PathIoError>,
)
    requires
        reads_unchanging(read, files),
        are_duplicates(read, paths, duplicates),
        are_copies(read, paths, copies, errors),
    ensures
        duplicates == crowded(copies),
{
    let once = choose|outcomes: Seq<Outcome<Vec<u8>>>|
        {
            &&& observed(read, paths, outcomes)
            &&& duplicates == #[trigger] duplicates_of(paths, outcomes)
        };
    let again = choose|outcomes: Seq<Outcome<Vec<u8>>>|
        {
            &&& paths.len() != 1 ==> observed(read, paths, outcomes)
            &&& (copies, errors) == #[trigger] copies_of(paths, outcomes)
        };
    lemma_duplicates_are_crowded_copies(paths, once);
    if paths.len() != 1 {
        lemma_observed_reads(read, files, paths, once);
        lemma_observed_reads(read, files, paths, again);
        lemma_duplicates_repeatable(files, paths, once, again);
        lemma_duplicates_are_crowded_copies(paths, again);
    }
}

} // verus!
