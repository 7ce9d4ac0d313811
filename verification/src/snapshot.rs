//! What holds of the groups when the files do not change while they are
//! read: every read of a path then gives the same.

use crate::classes::{
    classes, distinct_keys, filed_under, lemma_distinct_keys_cover, lemma_distinct_keys_differ,
};
use crate::reading::{keyed, observed, Outcome};
use vstd::prelude::*;

pub mod copies;
pub mod duplicates;

verus! {

/// The function that hands contents back as they are.
pub open spec fn whole() -> spec_fn(Seq<u8>) -> Seq<u8> {
    |contents: Seq<u8>| contents
}

/// `outcomes` is what reading `paths` gives when every path of `files` can
/// be read and holds the contents that `files` has for it, and no other path
/// can be read.
pub open spec fn read_from(
    files: Map<String, Seq<u8>>,
    paths: Seq<String>,
    outcomes: Seq<Outcome<Vec<u8>>>,
) -> bool {
    &&& outcomes.len() == paths.len()
    &&& forall|i: int|
        0 <= i < paths.len() ==> match #[trigger] outcomes[i] {
            Ok(contents) => files.contains_key(paths[i]) && files[paths[i]] == contents@,
            Err(_) => !files.contains_key(paths[i]),
        }
}

/// `probes` is what probing `paths` gives when the probe of a path of
/// `files` hands back `key` of its contents, and fails for any other path.
pub open spec fn probed_from(
    files: Map<String, Seq<u8>>,
    key: spec_fn(Seq<u8>) -> (u64, usize),
    paths: Seq<String>,
    probes: Seq<Outcome<(u64, usize)>>,
) -> bool {
    &&& probes.len() == paths.len()
    &&& forall|i: int|
        0 <= i < paths.len() ==> match #[trigger] probes[i] {
            Ok(found) => files.contains_key(paths[i]) && found == key(files[paths[i]]),
            Err(_) => !files.contains_key(paths[i]),
        }
}

/// Whatever `read` returns is what `files` holds: the contents of a path
/// of `files`, and a failure for any other path.
pub open spec fn reads_unchanging<R: Fn(&String) -> Outcome<Vec<u8>>>(
    read: R,
    files: Map<String, Seq<u8>>,
) -> bool {
    forall|path: String, outcome: Outcome<Vec<u8>>| #[trigger]
        call_ensures(read, (&path,), outcome) ==> match outcome {
            Ok(contents) => files.contains_key(path) && files[path] == contents@,
            Err(_) => !files.contains_key(path),
        }
}

/// Whatever `probe` returns is drawn from what `files` holds: `key` of the
/// contents of a path of `files`, and a failure for any other path.
pub open spec fn probes_unchanging<P: Fn(&String) -> Outcome<(u64, usize)>>(
    probe: P,
    files: Map<String, Seq<u8>>,
    key: spec_fn(Seq<u8>) -> (u64, usize),
) -> bool {
    forall|path: String, outcome: Outcome<(u64, usize)>| #[trigger]
        call_ensures(probe, (&path,), outcome) ==> match outcome {
            Ok(found) => files.contains_key(path) && found == key(files[path]),
            Err(_) => !files.contains_key(path),
        }
}

/// What was observed of reads of unchanging files is read from the files.
pub proof fn lemma_observed_reads<R: Fn(&String) -> Outcome<Vec<u8>>>(
    read: R,
    files: Map<String, Seq<u8>>,
    paths: Seq<String>,
    outcomes: Seq<Outcome<Vec<u8>>>,
)
    requires
        reads_unchanging(read, files),
        observed(read, paths, outcomes),
    ensures
        read_from(files, paths, outcomes),
{
    assert forall|i: int| 0 <= i < paths.len() implies match #[trigger] outcomes[i] {
        Ok(contents) => files.contains_key(paths[i]) && files[paths[i]] == contents@,
        Err(_) => !files.contains_key(paths[i]),
    } by {
        assert(call_ensures(read, (&paths[i],), outcomes[i]));
    }
}

/// What was observed of probes of unchanging files is probed from the
/// files.
pub proof fn lemma_observed_probes<P: Fn(&String) -> Outcome<(u64, usize)>>(
    probe: P,
    files: Map<String, Seq<u8>>,
    key: spec_fn(Seq<u8>) -> (u64, usize),
    paths: Seq<String>,
    probes: Seq<Outcome<(u64, usize)>>,
)
    requires
        probes_unchanging(probe, files, key),
        observed(probe, paths, probes),
    ensures
        probed_from(files, key, paths, probes),
{
    assert forall|i: int| 0 <= i < paths.len() implies match #[trigger] probes[i] {
        Ok(found) => files.contains_key(paths[i]) && found == key(files[paths[i]]),
        Err(_) => !files.contains_key(paths[i]),
    } by {
        assert(call_ensures(probe, (&paths[i],), probes[i]));
    }
}

/// The paths of `paths` that are in `files`, each with `of` of its contents.
pub open spec fn known<K>(
    files: Map<String, Seq<u8>>,
    paths: Seq<String>,
    of: spec_fn(Seq<u8>) -> K,
) -> Seq<(String, K)>
    decreases paths.len(),
{
    if paths.len() == 0 {
        Seq::empty()
    } else {
        let before = known(files, paths.drop_last(), of);
        if files.contains_key(paths.last()) {
            before.push((paths.last(), of(files[paths.last()])))
        } else {
            before
        }
    }
}

/// The paths of `paths` that are in `files` and for whose contents `of`
/// gives `value`, in order.
pub open spec fn holding<K>(
    files: Map<String, Seq<u8>>,
    paths: Seq<String>,
    of: spec_fn(Seq<u8>) -> K,
    value: K,
) -> Seq<String>
    decreases paths.len(),
{
    if paths.len() == 0 {
        Seq::empty()
    } else {
        let before = holding(files, paths.drop_last(), of, value);
        if files.contains_key(paths.last()) && of(files[paths.last()]) == value {
            before.push(paths.last())
        } else {
            before
        }
    }
}

/// The groups are sorted by contents: group `g` holds the paths of `files`
/// among `paths` with the contents `shared[g]`, there is at least one, and
/// no contents stand twice.
pub open spec fn grouped_by_contents(
    files: Map<String, Seq<u8>>,
    paths: Seq<String>,
    groups: Seq<Seq<String>>,
    shared: Seq<Seq<u8>>,
) -> bool {
    &&& shared.len() == groups.len()
    &&& shared.no_duplicates()
    &&& forall|g: int|
        0 <= g < groups.len() ==> #[trigger] groups[g] == holding(files, paths, whole(), shared[g])
            && groups[g].len() > 0
}

/// The groups are the paths of `files` among `paths`, sorted by contents,
/// and none are left out.
pub open spec fn sorted_by_contents(
    files: Map<String, Seq<u8>>,
    paths: Seq<String>,
    groups: Seq<Seq<String>>,
    shared: Seq<Seq<u8>>,
) -> bool {
    &&& grouped_by_contents(files, paths, groups, shared)
    &&& forall|i: int|
        0 <= i < paths.len() && files.contains_key(#[trigger] paths[i]) ==> shared.contains(
            files[paths[i]],
        )
}

/// Reads of unchanging files give the known contents.
pub proof fn lemma_keyed_reads(
    files: Map<String, Seq<u8>>,
    paths: Seq<String>,
    outcomes: Seq<Outcome<Vec<u8>>>,
)
    requires
        read_from(files, paths, outcomes),
    ensures
        keyed(paths, outcomes) == known(files, paths, whole()),
    decreases paths.len(),
{
    if paths.len() > 0 {
        let last = paths.len() - 1;
        assert(read_from(files, paths.drop_last(), outcomes.drop_last())) by {
            let earlier = outcomes.drop_last();
            assert forall|i: int| 0 <= i < paths.len() - 1 implies match #[trigger] earlier[i] {
                Ok(contents) => files.contains_key(paths.drop_last()[i])
                    && files[paths.drop_last()[i]] == contents@,
                Err(_) => !files.contains_key(paths.drop_last()[i]),
            } by {
                assert(outcomes.drop_last()[i] == outcomes[i]);
            }
        }
        lemma_keyed_reads(files, paths.drop_last(), outcomes.drop_last());
        assert(outcomes.last() == outcomes[last]);
    }
}

/// Probes of unchanging files give the key of the known contents.
pub proof fn lemma_keyed_probes(
    files: Map<String, Seq<u8>>,
    key: spec_fn(Seq<u8>) -> (u64, usize),
    paths: Seq<String>,
    probes: Seq<Outcome<(u64, usize)>>,
)
    requires
        probed_from(files, key, paths, probes),
    ensures
        keyed(paths, probes) == known(files, paths, key),
    decreases paths.len(),
{
    if paths.len() > 0 {
        let last = paths.len() - 1;
        assert(probed_from(files, key, paths.drop_last(), probes.drop_last())) by {
            let earlier = probes.drop_last();
            assert forall|i: int| 0 <= i < paths.len() - 1 implies match #[trigger] earlier[i] {
                Ok(found) => files.contains_key(paths.drop_last()[i]) && found == key(
                    files[paths.drop_last()[i]],
                ),
                Err(_) => !files.contains_key(paths.drop_last()[i]),
            } by {
                assert(probes.drop_last()[i] == probes[i]);
            }
        }
        lemma_keyed_probes(files, key, paths.drop_last(), probes.drop_last());
        assert(probes.last() == probes[last]);
    }
}

/// What is filed under a value among the known paths are the paths that
/// hold it.
pub proof fn lemma_filed_is_holding<K>(
    files: Map<String, Seq<u8>>,
    paths: Seq<String>,
    of: spec_fn(Seq<u8>) -> K,
    value: K,
)
    ensures
        filed_under(known(files, paths, of), value) == holding(files, paths, of, value),
    decreases paths.len(),
{
    if paths.len() > 0 {
        lemma_filed_is_holding(files, paths.drop_last(), of, value);
        let before = known(files, paths.drop_last(), of);
        if files.contains_key(paths.last()) {
            let item = (paths.last(), of(files[paths.last()]));
            assert(before.push(item).drop_last() =~= before);
        }
    }
}

/// The paths that hold a value are paths of `paths`, are in `files`, and
/// hold the value.
pub proof fn lemma_holding_members<K>(
    files: Map<String, Seq<u8>>,
    paths: Seq<String>,
    of: spec_fn(Seq<u8>) -> K,
    value: K,
    m: int,
)
    requires
        0 <= m < holding(files, paths, of, value).len(),
    ensures
        paths.contains(holding(files, paths, of, value)[m]),
        files.contains_key(holding(files, paths, of, value)[m]),
        of(files[holding(files, paths, of, value)[m]]) == value,
    decreases paths.len(),
{
    if paths.len() > 0 {
        let before = holding(files, paths.drop_last(), of, value);
        if m < before.len() {
            lemma_holding_members(files, paths.drop_last(), of, value, m);
            let i = choose|i: int|
                0 <= i < paths.drop_last().len() && paths.drop_last()[i] == before[m];
            assert(paths[i] == before[m]);
        } else {
            assert(paths[paths.len() - 1] == paths.last());
        }
    }
}

/// No more paths hold a value than there are paths.
pub proof fn lemma_holding_length<K>(
    files: Map<String, Seq<u8>>,
    paths: Seq<String>,
    of: spec_fn(Seq<u8>) -> K,
    value: K,
)
    ensures
        holding(files, paths, of, value).len() <= paths.len(),
    decreases paths.len(),
{
    if paths.len() > 0 {
        lemma_holding_length(files, paths.drop_last(), of, value);
    }
}

/// A path of `files` that holds a value is among the paths that hold it.
pub proof fn lemma_holding_has<K>(
    files: Map<String, Seq<u8>>,
    paths: Seq<String>,
    of: spec_fn(Seq<u8>) -> K,
    value: K,
    i: int,
)
    requires
        0 <= i < paths.len(),
        files.contains_key(paths[i]),
        of(files[paths[i]]) == value,
    ensures
        holding(files, paths, of, value).contains(paths[i]),
        holding(files, paths, of, value).len() > 0,
    decreases paths.len(),
{
    let all = holding(files, paths, of, value);
    if i == paths.len() - 1 {
        assert(all[all.len() - 1] == paths[i]);
    } else {
        let before = holding(files, paths.drop_last(), of, value);
        lemma_holding_has(files, paths.drop_last(), of, value, i);
        let m = choose|m: int| 0 <= m < before.len() && before[m] == paths.drop_last()[i];
        assert(all[m] == paths[i]);
    }
}

/// A known pair stands for a path of `files`, and the other way round.
pub proof fn lemma_known_values<K>(
    files: Map<String, Seq<u8>>,
    paths: Seq<String>,
    of: spec_fn(Seq<u8>) -> K,
    value: K,
)
    ensures
        (exists|j: int|
            0 <= j < known(files, paths, of).len() && (#[trigger] known(files, paths, of)[j]).1
                == value) <==> (exists|i: int|
            0 <= i < paths.len() && files.contains_key(#[trigger] paths[i]) && of(files[paths[i]])
                == value),
    decreases paths.len(),
{
    if paths.len() > 0 {
        let shorter = paths.drop_last();
        let before = known(files, shorter, of);
        let all = known(files, paths, of);
        lemma_known_values(files, shorter, of, value);
        let last = paths.len() - 1;
        if exists|j: int| 0 <= j < all.len() && (#[trigger] all[j]).1 == value {
            let j = choose|j: int| 0 <= j < all.len() && (#[trigger] all[j]).1 == value;
            if j < before.len() {
                assert(before[j].1 == value);
                let i = choose|i: int|
                    0 <= i < shorter.len() && files.contains_key(#[trigger] shorter[i]) && of(
                        files[shorter[i]],
                    ) == value;
                assert(files.contains_key(paths[i]) && of(files[paths[i]]) == value);
            } else {
                assert(files.contains_key(paths[last]) && of(files[paths[last]]) == value);
            }
        }
        if exists|i: int|
            0 <= i < paths.len() && files.contains_key(#[trigger] paths[i]) && of(files[paths[i]])
                == value {
            let i = choose|i: int|
                0 <= i < paths.len() && files.contains_key(#[trigger] paths[i]) && of(
                    files[paths[i]],
                ) == value;
            if i < last {
                assert(files.contains_key(shorter[i]) && of(files[shorter[i]]) == value);
                let j = choose|j: int| 0 <= j < before.len() && (#[trigger] before[j]).1 == value;
                assert(all[j].1 == value);
            } else {
                assert(all[all.len() - 1].1 == value);
            }
        }
    }
}

/// The classes of the known paths, by contents, are sorted by contents.
pub proof fn lemma_known_classes_sorted(files: Map<String, Seq<u8>>, paths: Seq<String>)
    ensures
        sorted_by_contents(
            files,
            paths,
            classes(known(files, paths, whole())),
            distinct_keys(known(files, paths, whole())),
        ),
{
    let items = known(files, paths, whole());
    let shared = distinct_keys(items);
    let groups = classes(items);
    lemma_distinct_keys_differ(items);
    assert forall|g: int| 0 <= g < groups.len() implies #[trigger] groups[g] == holding(
        files,
        paths,
        whole(),
        shared[g],
    ) && groups[g].len() > 0 by {
        lemma_filed_is_holding(files, paths, whole(), shared[g]);
        lemma_distinct_keys_cover(items, shared[g]);
        lemma_known_values(files, paths, whole(), shared[g]);
        let i = choose|i: int|
            0 <= i < paths.len() && files.contains_key(#[trigger] paths[i]) && whole()(
                files[paths[i]],
            ) == shared[g];
        lemma_holding_has(files, paths, whole(), shared[g], i);
    }
    assert forall|i: int|
        0 <= i < paths.len() && files.contains_key(#[trigger] paths[i]) implies shared.contains(
        files[paths[i]],
    ) by {
        let value = files[paths[i]];
        assert(whole()(files[paths[i]]) == value);
        lemma_known_values(files, paths, whole(), value);
        lemma_distinct_keys_cover(items, value);
    }
}

/// To pick the paths that hold one value among those that hold another is
/// to pick them among all, where the first value goes with the second.
pub proof fn lemma_holding_within<J, K>(
    files: Map<String, Seq<u8>>,
    paths: Seq<String>,
    outer: spec_fn(Seq<u8>) -> J,
    wide: J,
    inner: spec_fn(Seq<u8>) -> K,
    narrow: K,
)
    requires
        forall|i: int|
            0 <= i < paths.len() && files.contains_key(#[trigger] paths[i]) && inner(
                files[paths[i]],
            ) == narrow ==> outer(files[paths[i]]) == wide,
    ensures
        holding(files, holding(files, paths, outer, wide), inner, narrow) == holding(
            files,
            paths,
            inner,
            narrow,
        ),
    decreases paths.len(),
{
    if paths.len() > 0 {
        let shorter = paths.drop_last();
        let last = paths.len() - 1;
        assert forall|i: int|
            0 <= i < shorter.len() && files.contains_key(#[trigger] shorter[i]) && inner(
                files[shorter[i]],
            ) == narrow implies outer(files[shorter[i]]) == wide by {
            assert(shorter[i] == paths[i]);
        }
        lemma_holding_within(files, shorter, outer, wide, inner, narrow);
        let picked = holding(files, shorter, outer, wide);
        assert(paths.last() == paths[last]);
        if files.contains_key(paths.last()) && outer(files[paths.last()]) == wide {
            assert(picked.push(paths.last()).drop_last() =~= picked);
        }
    }
}

/// Equivalence, first half: the paths of one group hold the same contents.
pub proof fn lemma_same_group_same_contents(
    files: Map<String, Seq<u8>>,
    paths: Seq<String>,
    groups: Seq<Seq<String>>,
    shared: Seq<Seq<u8>>,
)
    requires
        grouped_by_contents(files, paths, groups, shared),
    ensures
        forall|g: int, m: int, n: int|
            0 <= g < groups.len() && 0 <= m < groups[g].len() && 0 <= n < groups[g].len() ==> {
                &&& files.contains_key(#[trigger] groups[g][m])
                &&& files.contains_key(#[trigger] groups[g][n])
                &&& files[groups[g][m]] == files[groups[g][n]]
            },
{
    assert forall|g: int, m: int, n: int|
        0 <= g < groups.len() && 0 <= m < groups[g].len() && 0 <= n < groups[g].len() implies {
        &&& files.contains_key(#[trigger] groups[g][m])
        &&& files.contains_key(#[trigger] groups[g][n])
        &&& files[groups[g][m]] == files[groups[g][n]]
    } by {
        lemma_holding_members(files, paths, whole(), shared[g], m);
        lemma_holding_members(files, paths, whole(), shared[g], n);
    }
}

/// Equivalence, second half: paths of different groups hold different
/// contents.
pub proof fn lemma_other_group_other_contents(
    files: Map<String, Seq<u8>>,
    paths: Seq<String>,
    groups: Seq<Seq<String>>,
    shared: Seq<Seq<u8>>,
)
    requires
        grouped_by_contents(files, paths, groups, shared),
    ensures
        forall|g: int, h: int, m: int, n: int|
            0 <= g < groups.len() && 0 <= h < groups.len() && g != h && 0 <= m < groups[g].len()
                && 0 <= n < groups[h].len() ==> {
                &&& #[trigger] groups[g][m] != #[trigger] groups[h][n]
                &&& files[groups[g][m]] != files[groups[h][n]]
            },
{
    assert forall|g: int, h: int, m: int, n: int|
        0 <= g < groups.len() && 0 <= h < groups.len() && g != h && 0 <= m < groups[g].len() && 0
            <= n < groups[h].len() implies {
        &&& #[trigger] groups[g][m] != #[trigger] groups[h][n]
        &&& files[groups[g][m]] != files[groups[h][n]]
    } by {
        lemma_holding_members(files, paths, whole(), shared[g], m);
        lemma_holding_members(files, paths, whole(), shared[h], n);
        assert(shared[g] != shared[h]);
    }
}

/// Paths that hold the same contents stand in one group.
pub proof fn lemma_same_contents_same_group(
    files: Map<String, Seq<u8>>,
    paths: Seq<String>,
    groups: Seq<Seq<String>>,
    shared: Seq<Seq<u8>>,
    i: int,
    j: int,
)
    requires
        sorted_by_contents(files, paths, groups, shared),
        0 <= i < paths.len(),
        0 <= j < paths.len(),
        files.contains_key(paths[i]),
        files.contains_key(paths[j]),
        files[paths[i]] == files[paths[j]],
    ensures
        exists|g: int|
            0 <= g < groups.len() && (#[trigger] groups[g]).contains(paths[i])
                && groups[g].contains(paths[j]),
{
    let contents = files[paths[i]];
    assert(shared.contains(contents));
    let g = choose|g: int| 0 <= g < shared.len() && shared[g] == contents;
    lemma_holding_has(files, paths, whole(), contents, i);
    lemma_holding_has(files, paths, whole(), contents, j);
    assert(groups[g].contains(paths[i]) && groups[g].contains(paths[j]));
}

/// Two sortings by contents of the same paths differ in the order of the
/// groups at most.
pub proof fn lemma_sortings_agree(
    files: Map<String, Seq<u8>>,
    paths: Seq<String>,
    ours: Seq<Seq<String>>,
    our_shared: Seq<Seq<u8>>,
    theirs: Seq<Seq<String>>,
    their_shared: Seq<Seq<u8>>,
)
    requires
        sorted_by_contents(files, paths, ours, our_shared),
        sorted_by_contents(files, paths, theirs, their_shared),
    ensures
        ours.len() == theirs.len(),
        forall|group: Seq<String>| ours.contains(group) <==> theirs.contains(group),
{
    lemma_sorted_within(files, paths, ours, our_shared, theirs, their_shared);
    lemma_sorted_within(files, paths, theirs, their_shared, ours, our_shared);
    assert(our_shared.to_set() =~= their_shared.to_set());
    our_shared.unique_seq_to_set();
    their_shared.unique_seq_to_set();
}

/// Every group of one sorting by contents is a group of the other.
proof fn lemma_sorted_within(
    files: Map<String, Seq<u8>>,
    paths: Seq<String>,
    ours: Seq<Seq<String>>,
    our_shared: Seq<Seq<u8>>,
    theirs: Seq<Seq<String>>,
    their_shared: Seq<Seq<u8>>,
)
    requires
        sorted_by_contents(files, paths, ours, our_shared),
        sorted_by_contents(files, paths, theirs, their_shared),
    ensures
        forall|contents: Seq<u8>| our_shared.contains(contents) ==> their_shared.contains(contents),
        forall|group: Seq<String>| ours.contains(group) ==> theirs.contains(group),
{
    assert forall|contents: Seq<u8>| our_shared.contains(contents) implies their_shared.contains(
        contents,
    ) by {
        let g = choose|g: int| 0 <= g < our_shared.len() && our_shared[g] == contents;
        assert(ours[g].len() > 0);
        lemma_holding_members(files, paths, whole(), contents, 0);
        let path = ours[g][0];
        let i = choose|i: int| 0 <= i < paths.len() && paths[i] == path;
        assert(files.contains_key(paths[i]));
    }
    assert forall|group: Seq<String>| ours.contains(group) implies theirs.contains(group) by {
        let g = choose|g: int| 0 <= g < ours.len() && ours[g] == group;
        assert(our_shared.contains(our_shared[g]));
        let h = choose|h: int| 0 <= h < their_shared.len() && their_shared[h] == our_shared[g];
        assert(theirs[h] == group);
    }
}

/// All empty files stand in one group.
pub proof fn lemma_empty_files_share_group(
    files: Map<String, Seq<u8>>,
    paths: Seq<String>,
    groups: Seq<Seq<String>>,
    shared: Seq<Seq<u8>>,
    i: int,
    j: int,
)
    requires
        sorted_by_contents(files, paths, groups, shared),
        0 <= i < paths.len(),
        0 <= j < paths.len(),
        files.contains_key(paths[i]),
        files.contains_key(paths[j]),
        files[paths[i]].len() == 0,
        files[paths[j]].len() == 0,
    ensures
        exists|g: int|
            0 <= g < groups.len() && (#[trigger] groups[g]).contains(paths[i])
                && groups[g].contains(paths[j]),
{
    assert(files[paths[i]] =~= files[paths[j]]);
    lemma_same_contents_same_group(files, paths, groups, shared, i, j);
}

} // verus!
