//! What a set of paths has in common, and how deep a walk may go.
//!
//! A path is taken as the list of its components, outermost first.

use vstd::prelude::*;

verus! {

/// The text of each component of `path`.
pub open spec fn component_views(path: Seq<String>) -> Seq<Seq<char>> {
    Seq::new(path.len(), |i: int| path[i]@)
}

/// Whether every path of `paths` starts with the components `prefix`.
pub open spec fn starts_all(prefix: Seq<Seq<char>>, paths: Seq<Vec<String>>) -> bool {
    forall|i: int|
        0 <= i < paths.len() ==> prefix.is_prefix_of(#[trigger] component_views(paths[i]@))
}

/// Whether `prefix` is the longest run of components with which every path
/// of `paths` starts. For no paths at all it is the empty run.
pub open spec fn is_common_prefix(prefix: Seq<Seq<char>>, paths: Seq<Vec<String>>) -> bool {
    if paths.len() == 0 {
        prefix.len() == 0
    } else {
        &&& starts_all(prefix, paths)
        &&& forall|other: Seq<Seq<char>>| #[trigger]
            starts_all(other, paths) ==> other.len() <= prefix.len()
    }
}

/// The number of leading components, `limit` at most, that `ours` and
/// `theirs` share.
fn shared_length(ours: &Vec<String>, theirs: &Vec<String>, limit: usize) -> (shared: usize)
    requires
        limit <= ours.len(),
    ensures
        shared <= limit,
        shared <= theirs.len(),
        forall|k: int| 0 <= k < shared ==> ours[k]@ == theirs[k]@,
        shared < limit && shared < theirs.len() ==> ours[shared as int]@ != theirs[shared as int]@,
{
    let mut shared: usize = 0;
    while shared < limit && shared < theirs.len() && ours[shared] == theirs[shared]
        invariant
            shared <= limit <= ours.len(),
            shared <= theirs.len(),
            forall|k: int| 0 <= k < shared ==> ours[k]@ == theirs[k]@,
        decreases limit - shared,
    {
        shared += 1;
    }
    shared
}

/// The longest run of leading components that all of `paths` share: empty
/// when they share none, and when there are no paths.
pub fn get_common_prefix(paths: &[Vec<String>]) -> (prefix: Vec<String>)
    ensures
        is_common_prefix(component_views(prefix@), paths@),
        paths.len() > 0 ==> prefix@.len() <= paths[0].len() && forall|k: int|
            0 <= k < prefix@.len() ==> prefix[k] == paths[0][k],
{
    let mut prefix: Vec<String> = Vec::new();
    if paths.len() == 0 {
        return prefix;
    }
    let base = &paths[0];
    let mut shared: usize = base.len();
    let mut i: usize = 1;
    proof {
        let first = paths@.take(1);
        assert(component_views(base@).take(shared as int) =~= component_views(first[0]@));
        assert forall|other: Seq<Seq<char>>| #[trigger]
            starts_all(other, first) implies other.len() <= shared by {
            assert(other.is_prefix_of(component_views(first[0]@)));
        }
    }
    while i < paths.len()
        invariant
            1 <= i <= paths.len(),
            base == &paths[0],
            shared <= base.len(),
            starts_all(component_views(base@).take(shared as int), paths@.take(i as int)),
            forall|other: Seq<Seq<char>>| #[trigger]
                starts_all(other, paths@.take(i as int)) ==> other.len() <= shared,
        decreases paths.len() - i,
    {
        let ghost before = shared;
        shared = shared_length(base, &paths[i], shared);
        proof {
            let seen = paths@.take(i + 1);
            let kept = component_views(base@).take(shared as int);
            assert forall|j: int| 0 <= j < seen.len() implies kept.is_prefix_of(
                #[trigger] component_views(seen[j]@),
            ) by {
                if j < i {
                    let longer = component_views(base@).take(before as int);
                    assert(paths@.take(i as int)[j] == seen[j]);
                    assert(longer.is_prefix_of(component_views(seen[j]@)));
                    assert(kept =~= longer.take(shared as int));
                    assert(kept =~= component_views(seen[j]@).take(shared as int));
                } else {
                    assert(kept =~= component_views(seen[j]@).take(shared as int));
                }
            }
            assert forall|other: Seq<Seq<char>>| #[trigger]
                starts_all(other, seen) implies other.len() <= shared by {
                assert forall|j: int| 0 <= j < i implies other.is_prefix_of(
                    #[trigger] component_views(paths@.take(i as int)[j]@),
                ) by {
                    assert(seen[j] == paths@.take(i as int)[j]);
                }
                assert(starts_all(other, paths@.take(i as int)));
                assert(other.is_prefix_of(component_views(seen[0]@)));
                assert(other.is_prefix_of(component_views(seen[i as int]@)));
                if other.len() > shared {
                    assert(other[shared as int] == component_views(base@)[shared as int]);
                    let theirs = component_views(paths[i as int]@);
                    assert(other[shared as int] == theirs[shared as int]);
                }
            }
        }
        i += 1;
    }
    proof {
        assert(paths@.take(i as int) =~= paths@);
    }
    let mut k: usize = 0;
    while k < shared
        invariant
            k <= shared <= base.len(),
            prefix@.len() == k,
            forall|j: int| 0 <= j < k ==> prefix[j] == base[j],
        decreases shared - k,
    {
        prefix.push(base[k].clone());
        k += 1;
    }
    proof {
        assert(component_views(prefix@) =~= component_views(base@).take(shared as int));
    }
    prefix
}

/// How a walk goes on from a path that it has reached with the limit
/// `max_depth`: `None` where the limit is used up and the path is left out
/// with all below it, else the limit for what lies directly below. Without a
/// limit the walk goes on without one.
pub open spec fn depth_below_spec(max_depth: Option<usize>) -> Option<Option<usize>> {
    match max_depth {
        None => Some(None),
        Some(depth) => if depth == 0 {
            None
        } else {
            Some(Some((depth - 1) as usize))
        },
    }
}

/// Decides whether a walk takes up a path reached with the limit
/// `max_depth`, and with which limit it goes on below it.
#[verifier::when_used_as_spec(depth_below_spec)]
pub fn depth_below(max_depth: Option<usize>) -> (below: Option<Option<usize>>)
    ensures
        below == depth_below_spec(max_depth),
{
    match max_depth {
        None => Some(None),
        Some(depth) => if depth == 0 {
            None
        } else {
            Some(Some(depth - 1))
        },
    }
}

} // verus!
