//! What the caller's functions returned: contents or a number for a path, or
//! the failure of the read.

use crate::classes::{classes, group_views, Sorter};
use crate::keys::Key;
use vstd::prelude::*;
use vstd::string::StringExecFns;

verus! {

/// `std::io::Error`, the failure that a read reports. Nothing is claimed of
/// what it holds: the library only carries it from a read to the caller.
#[verifier::external_type_specification]
#[verifier::external_body]
pub struct ExIoError(std::io::Error);

/// What a read hands back: a value, or the failure.
pub type Outcome<T> = Result<T, std::io::Error>;

/// The failure of a read, with the path that was being read.
pub struct PathIoError {
    /// What the read reported.
    pub error: std::io::Error,
    /// The path that could not be read.
    pub path: String,
}

impl PathIoError {
    /// Whether `text` is the path, a colon and a space, and then what the
    /// failure says of itself.
    pub open spec fn is_text(&self, text: Seq<char>) -> bool {
        exists|said: String|
            {
                &&& #[trigger] vstd::string::to_string_from_display_ensures::<std::io::Error>(
                    &self.error,
                    said,
                )
                &&& text == self.path@ + ": "@ + said@
            }
    }

    /// The failure in words: the path, then what went wrong.
    pub fn to_string(&self) -> (text: String)
        ensures
            self.is_text(text@),
    {
        let said = self.error.to_string();
        let mut text = self.path.clone();
        text.append(": ");
        text.append(said.as_str());
        text
    }
}

/// `outcomes` is what `f` returned for each path of `paths`, in order.
pub open spec fn observed<T, F: Fn(&String) -> Outcome<T>>(
    f: F,
    paths: Seq<String>,
    outcomes: Seq<Outcome<T>>,
) -> bool {
    &&& outcomes.len() == paths.len()
    &&& forall|i: int|
        0 <= i < paths.len() ==> call_ensures(f, (&paths[i],), #[trigger] outcomes[i])
}

/// The paths for which a value came back, each with the view of its value,
/// in the order of `paths`.
pub open spec fn keyed<T: View>(
    paths: Seq<String>,
    outcomes: Seq<Outcome<T>>,
) -> Seq<(String, T::V)>
    decreases paths.len(),
{
    if paths.len() == 0 || outcomes.len() != paths.len() {
        Seq::empty()
    } else {
        let before = keyed(paths.drop_last(), outcomes.drop_last());
        match outcomes.last() {
            Ok(value) => before.push((paths.last(), value@)),
            Err(_) => before,
        }
    }
}

/// The failures among `outcomes`, each with its path, in the order of
/// `paths`.
pub open spec fn failures<T>(
    paths: Seq<String>,
    outcomes: Seq<Outcome<T>>,
) -> Seq<PathIoError>
    decreases paths.len(),
{
    if paths.len() == 0 || outcomes.len() != paths.len() {
        Seq::empty()
    } else {
        let before = failures(paths.drop_last(), outcomes.drop_last());
        match outcomes.last() {
            Ok(_) => before,
            Err(error) => before.push(PathIoError { error, path: paths.last() }),
        }
    }
}

/// Every keyed pair stands for a path whose outcome was that value.
pub proof fn lemma_keyed_from_paths<T: View>(
    paths: Seq<String>,
    outcomes: Seq<Outcome<T>>,
    j: int,
)
    requires
        0 <= j < keyed(paths, outcomes).len(),
    ensures
        outcomes.len() == paths.len(),
        exists|i: int|
            0 <= i < paths.len() && #[trigger] paths[i] == keyed(paths, outcomes)[j].0
                && outcomes[i] is Ok && outcomes[i]->Ok_0@ == keyed(paths, outcomes)[j].1,
    decreases paths.len(),
{
    if paths.len() > 0 && outcomes.len() == paths.len() {
        let before = keyed(paths.drop_last(), outcomes.drop_last());
        if outcomes.last() is Ok && j == before.len() {
            let i = paths.len() - 1;
            assert(paths[i] == keyed(paths, outcomes)[j].0);
        } else {
            lemma_keyed_from_paths(paths.drop_last(), outcomes.drop_last(), j);
            let i = choose|i: int|
                0 <= i < paths.len() - 1 && #[trigger] paths.drop_last()[i] == before[j].0
                    && outcomes.drop_last()[i] is Ok && outcomes.drop_last()[i]->Ok_0@
                    == before[j].1;
            assert(paths[i] == keyed(paths, outcomes)[j].0);
        }
    }
}

/// Every member of a class of the keyed paths is one of the paths.
pub proof fn lemma_class_members_are_paths<T: View>(
    paths: Seq<String>,
    outcomes: Seq<Outcome<T>>,
    c: int,
    m: int,
)
    requires
        0 <= c < classes(keyed(paths, outcomes)).len(),
        0 <= m < classes(keyed(paths, outcomes))[c].len(),
    ensures
        exists|i: int|
            0 <= i < paths.len() && #[trigger] paths[i] == classes(keyed(paths, outcomes))[c][m],
{
    let items = keyed(paths, outcomes);
    let key = crate::classes::distinct_keys(items)[c];
    crate::classes::lemma_filed_from_items(items, key, m);
    let j = choose|j: int|
        0 <= j < items.len() && #[trigger] items[j] == (
            crate::classes::filed_under(items, key)[m],
            key,
        );
    lemma_keyed_from_paths(paths, outcomes, j);
}

/// Calls `f` once for each path, in order, and sorts the paths by what came
/// back: those with a value into classes by that value, the failures into a
/// list of their own.
pub(crate) fn sort_by<T: Key, F: Fn(&String) -> Outcome<T>>(
    paths: &[String],
    f: &F,
) -> (out: (Vec<Vec<String>>, Vec<PathIoError>, Ghost<Seq<Outcome<T>>>))
    requires
        forall|i: int| 0 <= i < paths.len() ==> call_requires(*f, (&#[trigger] paths[i],)),
    ensures
        observed(*f, paths@, out.2@),
        group_views(out.0@) == classes(keyed(paths@, out.2@)),
        out.1@ == failures(paths@, out.2@),
{
    let mut sorter: Sorter<T> = Sorter::new();
    let mut errors: Vec<PathIoError> = Vec::new();
    let ghost mut outcomes = Seq::<Outcome<T>>::empty();
    let mut i: usize = 0;
    while i < paths.len()
        invariant
            i <= paths.len(),
            forall|k: int| 0 <= k < paths.len() ==> call_requires(*f, (&#[trigger] paths[k],)),
            observed(*f, paths@.take(i as int), outcomes),
            sorter.well_formed(),
            sorter.seen() == keyed(paths@.take(i as int), outcomes),
            errors@ == failures(paths@.take(i as int), outcomes),
        decreases paths.len() - i,
    {
        let outcome = f(&paths[i]);
        proof {
            let longer = paths@.take(i + 1);
            assert(longer.drop_last() =~= paths@.take(i as int));
            assert(outcomes.push(outcome).drop_last() =~= outcomes);
            outcomes = outcomes.push(outcome);
        }
        match outcome {
            Ok(value) => {
                sorter.add(paths[i].clone(), value);
            },
            Err(error) => {
                errors.push(PathIoError { error, path: paths[i].clone() });
            },
        }
        i += 1;
    }
    let groups = sorter.finish();
    proof {
        assert(paths@.take(i as int) =~= paths@);
    }
    (groups, errors, Ghost(outcomes))
}

} // verus!
