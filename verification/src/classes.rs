//! Sorting paths into classes by a key.
//!
//! The classes of a list of `(path, key)` pairs are the lists of paths that
//! share a key. The classes stand in the order in which their keys first
//! came, and the paths of a class in the order in which they came.

use crate::keys::Key;
use std::collections::HashMap;
use vstd::prelude::*;

verus! {

/// The paths of `items` that are filed under `key`, in the order in which
/// they came.
pub open spec fn filed_under<P, K>(items: Seq<(P, K)>, key: K) -> Seq<P>
    decreases items.len(),
{
    if items.len() == 0 {
        Seq::empty()
    } else {
        let before = filed_under(items.drop_last(), key);
        if items.last().1 == key {
            before.push(items.last().0)
        } else {
            before
        }
    }
}

/// The keys of `items` without repetition, each at the place where it first
/// came.
pub open spec fn distinct_keys<P, K>(items: Seq<(P, K)>) -> Seq<K>
    decreases items.len(),
{
    if items.len() == 0 {
        Seq::empty()
    } else {
        let before = distinct_keys(items.drop_last());
        if before.contains(items.last().1) {
            before
        } else {
            before.push(items.last().1)
        }
    }
}

/// The classes of `items`: for each distinct key, the paths filed under it.
pub open spec fn classes<P, K>(items: Seq<(P, K)>) -> Seq<Seq<P>> {
    Seq::new(distinct_keys(items).len(), |c: int| filed_under(items, distinct_keys(items)[c]))
}

/// The contents of each group of `groups`.
pub open spec fn group_views<P>(groups: Seq<Vec<P>>) -> Seq<Seq<P>> {
    Seq::new(groups.len(), |g: int| groups[g]@)
}

/// The view of each key of `keys`.
pub open spec fn key_views<K: View>(keys: Seq<K>) -> Seq<K::V> {
    Seq::new(keys.len(), |i: int| keys[i]@)
}

/// No key stands twice among the distinct keys.
pub proof fn lemma_distinct_keys_differ<P, K>(items: Seq<(P, K)>)
    ensures
        distinct_keys(items).no_duplicates(),
    decreases items.len(),
{
    if items.len() > 0 {
        lemma_distinct_keys_differ(items.drop_last());
    }
}

/// The distinct keys are exactly the keys that some item has.
pub proof fn lemma_distinct_keys_cover<P, K>(items: Seq<(P, K)>, key: K)
    ensures
        distinct_keys(items).contains(key) <==> exists|i: int|
            0 <= i < items.len() && (#[trigger] items[i]).1 == key,
    decreases items.len(),
{
    if items.len() > 0 {
        let before = items.drop_last();
        lemma_distinct_keys_cover(before, key);
        if distinct_keys(items).contains(key) {
            if distinct_keys(before).contains(key) {
                let i = choose|i: int| 0 <= i < before.len() && (#[trigger] before[i]).1 == key;
                assert(items[i].1 == key);
            } else {
                let d = distinct_keys(items);
                let j = choose|j: int| 0 <= j < d.len() && d[j] == key;
                assert(j == d.len() - 1);
                assert(items[items.len() - 1].1 == key);
            }
        }
        if exists|i: int| 0 <= i < items.len() && (#[trigger] items[i]).1 == key {
            let i = choose|i: int| 0 <= i < items.len() && (#[trigger] items[i]).1 == key;
            if i < items.len() - 1 {
                assert(before[i].1 == key);
                let d = distinct_keys(before);
                let j = choose|j: int| 0 <= j < d.len() && d[j] == key;
                if !d.contains(items.last().1) {
                    assert(d.push(items.last().1)[j] == key);
                }
            } else {
                let d = distinct_keys(before);
                if !d.contains(key) {
                    assert(d.push(key)[d.len() as int] == key);
                }
            }
        }
    }
}

/// Under a key that no item has, nothing is filed.
pub proof fn lemma_nothing_filed<P, K>(items: Seq<(P, K)>, key: K)
    requires
        forall|i: int| 0 <= i < items.len() ==> (#[trigger] items[i]).1 != key,
    ensures
        filed_under(items, key) == Seq::<P>::empty(),
    decreases items.len(),
{
    if items.len() > 0 {
        lemma_nothing_filed(items.drop_last(), key);
    }
}

/// Whatever is filed under a key came as an item with that key.
pub proof fn lemma_filed_from_items<P, K>(items: Seq<(P, K)>, key: K, m: int)
    requires
        0 <= m < filed_under(items, key).len(),
    ensures
        exists|i: int|
            0 <= i < items.len() && #[trigger] items[i] == (filed_under(items, key)[m], key),
    decreases items.len(),
{
    if items.len() > 0 {
        let before = items.drop_last();
        if items.last().1 == key && m == filed_under(before, key).len() {
            assert(items[items.len() - 1] == (filed_under(items, key)[m], key));
        } else {
            lemma_filed_from_items(before, key, m);
            let i = choose|i: int|
                0 <= i < before.len() && #[trigger] before[i] == (filed_under(before, key)[m], key);
            assert(items[i] == (filed_under(items, key)[m], key));
        }
    }
}

/// One more item goes to the class of its key, which is opened at the end if
/// the key is new; every other class stays as it was.
pub proof fn lemma_classes_step<P, K>(items: Seq<(P, K)>, path: P, key: K)
    ensures
        distinct_keys(items).contains(key) ==> {
            let c = distinct_keys(items).index_of(key);
            classes(items.push((path, key))) == classes(items).update(
                c,
                classes(items)[c].push(path),
            )
        },
        !distinct_keys(items).contains(key) ==> classes(items.push((path, key))) == classes(
            items,
        ).push(seq![path]),
{
    let more = items.push((path, key));
    assert(more.drop_last() =~= items);
    let keys = distinct_keys(items);
    lemma_distinct_keys_differ(items);
    if keys.contains(key) {
        let c = keys.index_of(key);
        assert(classes(more) =~= classes(items).update(c, classes(items)[c].push(path)));
    } else {
        assert forall|i: int| 0 <= i < items.len() implies (#[trigger] items[i]).1 != key by {
            lemma_distinct_keys_cover(items, key);
        }
        lemma_nothing_filed(items, key);
        assert(filed_under(more, key) =~= seq![path]);
        assert(classes(more) =~= classes(items).push(seq![path]));
    }
}

/// The paths of `items`, in order.
pub open spec fn paths_of<P, K>(items: Seq<(P, K)>) -> Seq<P> {
    Seq::new(items.len(), |i: int| items[i].0)
}

/// Adding a path to one group adds it once to the paths of all groups.
pub proof fn lemma_flatten_grown_group<P>(groups: Seq<Seq<P>>, c: int, path: P)
    requires
        0 <= c < groups.len(),
    ensures
        groups.update(c, groups[c].push(path)).flatten().to_multiset()
            == groups.flatten().to_multiset().insert(path),
    decreases groups.len(),
{
    broadcast use vstd::seq_lib::to_multiset_build;

    let grown = groups.update(c, groups[c].push(path));
    let before = groups.drop_last();
    grown.lemma_flatten_and_flatten_alt_are_equivalent();
    groups.lemma_flatten_and_flatten_alt_are_equivalent();
    before.lemma_flatten_and_flatten_alt_are_equivalent();
    if c == groups.len() - 1 {
        assert(grown.drop_last() =~= before);
        assert(grown.flatten() =~= groups.flatten().push(path));
    } else {
        let grown_before = before.update(c, before[c].push(path));
        assert(grown.drop_last() =~= grown_before);
        grown_before.lemma_flatten_and_flatten_alt_are_equivalent();
        lemma_flatten_grown_group(before, c, path);
        vstd::seq_lib::lemma_multiset_commutative(grown_before.flatten(), groups.last());
        vstd::seq_lib::lemma_multiset_commutative(before.flatten(), groups.last());
        assert(grown.flatten().to_multiset() =~= groups.flatten().to_multiset().insert(path));
    }
}

/// The classes hold every path of `items` as often as it came, and nothing
/// else.
pub proof fn lemma_classes_partition<P, K>(items: Seq<(P, K)>)
    ensures
        classes(items).flatten().to_multiset() == paths_of(items).to_multiset(),
    decreases items.len(),
{
    broadcast use vstd::seq_lib::to_multiset_build;

    if items.len() == 0 {
        assert(classes(items) =~= Seq::<Seq<P>>::empty());
        assert(paths_of(items) =~= Seq::<P>::empty());
    } else {
        let before = items.drop_last();
        let (path, key) = items.last();
        assert(before.push((path, key)) =~= items);
        lemma_classes_partition(before);
        lemma_classes_step(before, path, key);
        assert(paths_of(items) =~= paths_of(before).push(path));
        if distinct_keys(before).contains(key) {
            let c = distinct_keys(before).index_of(key);
            distinct_keys(before).index_of_first_ensures(key);
            lemma_flatten_grown_group(classes(before), c, path);
        } else {
            classes(before).lemma_flatten_push(seq![path]);
            assert(classes(items).flatten() =~= classes(before).flatten().push(path));
        }
    }
}

/// Paths sorted so far, and the keys they were sorted by.
///
/// The classes are kept in the order in which they were opened. An index
/// from the number of a key to the classes whose keys have that number
/// finds the class of a key without looking at every class.
pub struct Sorter<K: Key> {
    keys: Vec<K>,
    groups: Vec<Vec<String>>,
    index: HashMap<u64, Vec<usize>>,
    seen: Ghost<Seq<(String, K::V)>>,
}

impl<K: Key> Sorter<K> {
    /// The pairs added so far, in order.
    pub closed spec fn seen(&self) -> Seq<(String, K::V)> {
        self.seen@
    }

    /// The groups hold the classes of what was added, and the index leads to
    /// every class from the number of its key.
    pub closed spec fn well_formed(&self) -> bool {
        &&& key_views(self.keys@) == distinct_keys(self.seen@)
        &&& group_views(self.groups@) == classes(self.seen@)
        &&& forall|c: int|
            0 <= c < self.keys.len() ==> self.index@.contains_key(
                K::digest_of(#[trigger] self.keys[c]@),
            ) && self.index@[K::digest_of(self.keys[c]@)]@.contains(c as usize)
        &&& forall|digest: u64, at: int|
            self.index@.contains_key(digest) && 0 <= at < self.index@[digest].len()
                ==> #[trigger] self.index@[digest][at] < self.keys.len()
    }

    /// A sorter to which nothing was added.
    pub fn new() -> (sorter: Self)
        ensures
            sorter.well_formed(),
            sorter.seen() == Seq::<(String, K::V)>::empty(),
    {
        let sorter = Sorter {
            keys: Vec::new(),
            groups: Vec::new(),
            index: HashMap::new(),
            seen: Ghost(Seq::empty()),
        };
        assert(key_views(sorter.keys@) =~= distinct_keys(sorter.seen@));
        assert(group_views(sorter.groups@) =~= classes(sorter.seen@));
        sorter
    }

    /// The place of the key that is the same as `key`, if there is one.
    fn find(&self, key: &K, digest: u64) -> (place: Option<usize>)
        requires
            self.well_formed(),
            digest == K::digest_of(key@),
        ensures
            match place {
                Some(c) => distinct_keys(self.seen@).contains(key@) && c == distinct_keys(
                    self.seen@,
                ).index_of(key@),
                None => !distinct_keys(self.seen@).contains(key@),
            },
    {
        broadcast use vstd::std_specs::hash::group_hash_axioms;

        let ghost keys = distinct_keys(self.seen@);
        match self.index.get(&digest) {
            None => {
                proof {
                    assert forall|c: int| 0 <= c < keys.len() implies keys[c] != key@ by {
                        assert(keys[c] == self.keys[c]@);
                    }
                }
                None
            },
            Some(places) => {
                let mut at: usize = 0;
                while at < places.len()
                    invariant
                        at <= places.len(),
                        self.well_formed(),
                        keys == distinct_keys(self.seen@),
                        self.index@.contains_key(digest),
                        self.index@[digest] == *places,
                        forall|i: int| 0 <= i < at ==> self.keys[places[i] as int]@ != key@,
                    decreases places.len() - at,
                {
                    let c = places[at];
                    assert(c < self.keys.len()) by {
                        assert(self.index@[digest][at as int] < self.keys.len());
                    }
                    if self.keys[c].same(key) {
                        proof {
                            assert(keys[c as int] == self.keys[c as int]@);
                            lemma_distinct_keys_differ(self.seen@);
                            keys.index_of_first_ensures(key@);
                        }
                        return Some(c);
                    }
                    at += 1;
                }
                proof {
                    assert forall|c: int| 0 <= c < keys.len() implies keys[c] != key@ by {
                        assert(keys[c] == self.keys[c]@);
                        if keys[c] == key@ {
                            let i = choose|i: int|
                                0 <= i < places@.len() && places@[i] == c as usize;
                            assert(self.keys[places[i] as int]@ != key@);
                        }
                    }
                }
                None
            },
        }
    }

    /// Enters the class at the end into the index, under `digest`.
    fn enter(&mut self, digest: u64)
        requires
            old(self).keys.len() > 0,
            digest == K::digest_of(old(self).keys[old(self).keys.len() - 1]@),
            forall|c: int|
                0 <= c < old(self).keys.len() - 1 ==> old(self).index@.contains_key(
                    K::digest_of(#[trigger] old(self).keys[c]@),
                ) && old(self).index@[K::digest_of(old(self).keys[c]@)]@.contains(c as usize),
            forall|digest: u64, at: int|
                old(self).index@.contains_key(digest) && 0 <= at < old(self).index@[digest].len()
                    ==> #[trigger] old(self).index@[digest][at] < old(self).keys.len() - 1,
        ensures
            final(self).keys == old(self).keys,
            final(self).groups == old(self).groups,
            final(self).seen == old(self).seen,
            forall|c: int|
                0 <= c < final(self).keys.len() ==> final(self).index@.contains_key(
                    K::digest_of(#[trigger] final(self).keys[c]@),
                ) && final(self).index@[K::digest_of(final(self).keys[c]@)]@.contains(c as usize),
            forall|digest: u64, at: int|
                final(self).index@.contains_key(digest)
                    && 0 <= at < final(self).index@[digest].len()
                    ==> #[trigger] final(self).index@[digest][at] < final(self).keys.len(),
    {
        broadcast use vstd::std_specs::hash::group_hash_axioms;

        let place = self.keys.len() - 1;
        let ghost before = self.index@;
        let mut places = match self.index.remove(&digest) {
            Some(places) => places,
            None => Vec::new(),
        };
        let ghost earlier = places@;
        places.push(place);
        self.index.insert(digest, places);
        proof {
            assert forall|c: int| 0 <= c < self.keys.len() implies self.index@.contains_key(
                K::digest_of(#[trigger] self.keys[c]@),
            ) && self.index@[K::digest_of(self.keys[c]@)]@.contains(c as usize) by {
                let own = K::digest_of(self.keys[c]@);
                if c == place {
                    assert(places@[earlier.len() as int] == place);
                } else if own == digest {
                    let i = choose|i: int| 0 <= i < earlier.len() && earlier[i] == c as usize;
                    assert(places@[i] == c as usize);
                }
            }
            assert forall|other: u64, at: int|
                self.index@.contains_key(other) && 0 <= at < self.index@[other].len() implies (
            #[trigger] self.index@[other][at]) < self.keys.len() by {
                if other == digest {
                    if at < earlier.len() {
                        assert(before[digest][at] < self.keys.len() - 1);
                    }
                } else {
                    assert(before[other][at] < self.keys.len() - 1);
                }
            }
        }
    }

    /// Files `path` under `key`.
    pub fn add(&mut self, path: String, key: K)
        requires
            old(self).well_formed(),
        ensures
            final(self).well_formed(),
            final(self).seen() == old(self).seen().push((path, key@)),
    {
        let digest = key.digest();
        let place = self.find(&key, digest);
        proof {
            lemma_classes_step(self.seen@, path, key@);
            assert(self.seen@.push((path, key@)).drop_last() =~= self.seen@);
        }
        match place {
            Some(c) => {
                assert(c < self.groups.len()) by {
                    assert(group_views(self.groups@).len() == self.groups.len());
                }
                self.groups[c].push(path);
                proof {
                    self.seen@ = self.seen@.push((path, key@));
                }
                assert(group_views(self.groups@) =~= classes(self.seen@));
            },
            None => {
                let mut group: Vec<String> = Vec::new();
                group.push(path);
                self.groups.push(group);
                self.keys.push(key);
                proof {
                    self.seen@ = self.seen@.push((path, key@));
                }
                assert(key_views(self.keys@) =~= distinct_keys(self.seen@));
                assert(group_views(self.groups@) =~= classes(self.seen@));
                self.enter(digest);
            },
        }
    }

    /// The groups: the classes of what was added.
    pub fn finish(self) -> (groups: Vec<Vec<String>>)
        requires
            self.well_formed(),
        ensures
            group_views(groups@) == classes(self.seen()),
    {
        self.groups
    }
}

} // verus!
