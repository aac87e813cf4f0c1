//! A map from paths to small values that keeps the paths in order.
use crate::path::{
    lemma_path_irreflexive, lemma_path_transitive, path_below, path_less, Order, PathModel,
    WatchPath,
};
use vstd::prelude::*;

verus! {

/// The paths increase.
pub open spec fn keys_increasing(keys: Seq<PathModel>) -> bool {
    forall|i: int, j: int|
        0 <= i < j < keys.len() ==> path_less(#[trigger] keys[i], #[trigger] keys[j])
}

/// A path with its value.
struct PathEntry<V> {
    path: WatchPath,
    value: V,
}

/// A map from paths to values, in the order of the paths.
pub struct PathMap<V> {
    entries: Vec<PathEntry<V>>,
}

impl<V> View for PathMap<V> {
    type V = Map<PathModel, V>;

    closed spec fn view(&self) -> Map<PathModel, V> {
        Map::new(
            |path: PathModel| self.keys().contains(path),
            |path: PathModel| self.entries@[self.keys().index_of(path)].value,
        )
    }
}

impl<V> PathMap<V> {
    /// The paths that the map holds, in the order in which it holds them.
    pub closed spec fn keys(&self) -> Seq<PathModel> {
        self.entries@.map_values(|entry: PathEntry<V>| entry.path@)
    }

    /// The paths increase, so none occurs twice.
    pub open spec fn well_formed(&self) -> bool {
        keys_increasing(self.keys())
    }

    proof fn lemma_entry(&self, i: int)
        requires
            self.well_formed(),
            0 <= i < self.entries@.len(),
        ensures
            self@.contains_key(self.entries@[i].path@),
            self@[self.entries@[i].path@] == self.entries@[i].value,
    {
        let path = self.entries@[i].path@;
        assert(self.keys()[i] == path);
        let j = self.keys().index_of(path);
        lemma_path_irreflexive(path);
        if i < j {
            assert(path_less(self.keys()[i], self.keys()[j]));
        } else if j < i {
            assert(path_less(self.keys()[j], self.keys()[i]));
        }
    }

    proof fn lemma_key(&self, path: PathModel) -> (i: int)
        requires
            self@.contains_key(path),
        ensures
            0 <= i < self.entries@.len(),
            self.entries@[i].path@ == path,
            self@[path] == self.entries@[i].value,
    {
        let i = self.keys().index_of(path);
        assert(self.keys()[i] == path);
        i
    }

    /// The keys are the domain of the map.
    pub proof fn lemma_keys(&self)
        ensures
            forall|path: PathModel| #[trigger]
                self@.contains_key(path) <==> self.keys().contains(path),
    {
    }

    /// A map that holds nothing.
    pub fn new() -> (map: Self)
        ensures
            map.well_formed(),
            map@ == Map::<PathModel, V>::empty(),
    {
        let map = PathMap { entries: Vec::new() };
        assert(map@ =~= Map::<PathModel, V>::empty());
        map
    }

    /// Whether `path` is in the map, and the place where it is or belongs.
    fn find(&self, path: &WatchPath) -> (found: (bool, usize))
        requires
            self.well_formed(),
        ensures
            found.1 <= self.entries@.len(),
            forall|i: int|
                0 <= i < found.1 ==> path_less((#[trigger] self.entries@[i]).path@, path@),
            found.0 ==> found.1 < self.entries@.len() && self.entries@[found.1 as int].path@
                == path@,
            !found.0 ==> forall|i: int|
                found.1 <= i < self.entries@.len() ==> path_less(
                    path@,
                    (#[trigger] self.entries@[i]).path@,
                ),
            found.0 == self@.contains_key(path@),
    {
        let ghost keys = self.keys();
        let mut low: usize = 0;
        let mut high: usize = self.entries.len();
        while low < high
            invariant
                self.well_formed(),
                keys == self.keys(),
                low <= high <= self.entries@.len(),
                forall|i: int|
                    0 <= i < low ==> path_less((#[trigger] self.entries@[i]).path@, path@),
                forall|i: int|
                    high <= i < self.entries@.len() ==> path_less(
                        path@,
                        (#[trigger] self.entries@[i]).path@,
                    ),
            decreases high - low,
        {
            let middle = low + (high - low) / 2;
            match self.entries[middle].path.compare(path) {
                Order::Less => {
                    assert forall|i: int| 0 <= i < middle + 1 implies path_less(
                        (#[trigger] self.entries@[i]).path@,
                        path@,
                    ) by {
                        if i < middle {
                            assert(path_less(keys[i], keys[middle as int]));
                            lemma_path_transitive(keys[i], keys[middle as int], path@);
                        }
                    }
                    low = middle + 1;
                },
                Order::Equal => {
                    assert forall|i: int| 0 <= i < middle implies path_less(
                        (#[trigger] self.entries@[i]).path@,
                        path@,
                    ) by {
                        assert(path_less(keys[i], keys[middle as int]));
                    }
                    proof {
                        self.lemma_entry(middle as int);
                    }
                    return (true, middle);
                },
                Order::Greater => {
                    assert forall|i: int| middle <= i < self.entries@.len() implies path_less(
                        path@,
                        (#[trigger] self.entries@[i]).path@,
                    ) by {
                        if i > middle {
                            assert(path_less(keys[middle as int], keys[i]));
                            lemma_path_transitive(path@, keys[middle as int], keys[i]);
                        }
                    }
                    high = middle;
                },
            }
        }
        proof {
            if self@.contains_key(path@) {
                let i = self.lemma_key(path@);
                lemma_path_irreflexive(path@);
            }
        }
        (false, low)
    }

    /// Whether the map holds `path`.
    pub fn contains_key(&self, path: &WatchPath) -> (contains: bool)
        requires
            self.well_formed(),
        ensures
            contains == self@.contains_key(path@),
    {
        self.find(path).0
    }

    /// Whether the map holds a path above `path`.
    pub fn any_above(&self, path: &WatchPath) -> (above: bool)
        requires
            self.well_formed(),
        ensures
            above == exists|other: PathModel| #[trigger]
                self@.contains_key(other) && path_below(path@, other),
    {
        let mut i: usize = 0;
        while i < self.entries.len()
            invariant
                self.well_formed(),
                i <= self.entries@.len(),
                forall|j: int|
                    0 <= j < i ==> !path_below(path@, (#[trigger] self.entries@[j]).path@),
            decreases self.entries@.len() - i,
        {
            if path.is_below(&self.entries[i].path) {
                proof {
                    self.lemma_entry(i as int);
                }
                return true;
            }
            i += 1;
        }
        proof {
            assert forall|other: PathModel| #[trigger]
                self@.contains_key(other) implies !path_below(path@, other) by {
                let j = self.lemma_key(other);
            }
        }
        false
    }

    /// Sets the value of `path`.
    pub fn insert(&mut self, path: WatchPath, value: V)
        requires
            old(self).well_formed(),
        ensures
            final(self).well_formed(),
            final(self)@ == old(self)@.insert(path@, value),
    {
        let (found, place) = self.find(&path);
        let ghost before = *self;
        let ghost key = path@;
        if found {
            self.entries[place] = PathEntry { path, value };
        } else {
            self.entries.insert(place, PathEntry { path, value });
        }
        proof {
            let (old_keys, keys) = (before.keys(), self.keys());
            assert(old_keys.len() == before.entries@.len());
            if found {
                assert(keys =~= old_keys);
            } else {
                assert(keys =~= old_keys.insert(place as int, key));
                assert forall|i: int, j: int| 0 <= i < j < keys.len() implies path_less(
                    #[trigger] keys[i],
                    #[trigger] keys[j],
                ) by {
                    let x = if i < place { i } else { i - 1 };
                    let y = if j < place { j } else { j - 1 };
                    if i == place {
                        assert(keys[j] == before.entries@[y].path@);
                    } else if j == place {
                        assert(keys[i] == before.entries@[x].path@);
                    } else {
                        assert(keys[i] == old_keys[x] && keys[j] == old_keys[y]);
                    }
                }
            }
            assert(self.well_formed());
            self.lemma_entry(place as int);
            assert forall|other: PathModel|
                #![trigger self@.dom().contains(other)]
                #![trigger self@[other]]
                self@.dom().contains(other) == before@.insert(key, value).dom().contains(other) && (
                self@.dom().contains(other) ==> self@[other] == before@.insert(
                    key,
                    value,
                )[other]) by {
                if self@.contains_key(other) && other != key {
                    let i = self.lemma_key(other);
                    let x = if found || i < place { i } else { i - 1 };
                    assert(self.entries@[i] == before.entries@[x]);
                    before.lemma_entry(x);
                }
                if before@.contains_key(other) && other != key {
                    let i = before.lemma_key(other);
                    let x = if found || i < place { i } else { i + 1 };
                    assert(self.entries@[x] == before.entries@[i]);
                    self.lemma_entry(x);
                }
            }
            assert(self@ =~= before@.insert(key, value));
        }
    }
}

impl<V: Copy> PathMap<V> {
    /// The value of `path`.
    pub fn get(&self, path: &WatchPath) -> (value: Option<V>)
        requires
            self.well_formed(),
        ensures
            value == if self@.contains_key(path@) {
                Some(self@[path@])
            } else {
                None
            },
    {
        let (found, place) = self.find(path);
        if found {
            proof {
                self.lemma_entry(place as int);
            }
            Some(self.entries[place].value)
        } else {
            None
        }
    }

    /// Takes `path` out of the map.
    pub fn remove(&mut self, path: &WatchPath) -> (value: Option<V>)
        requires
            old(self).well_formed(),
        ensures
            final(self).well_formed(),
            final(self)@ == old(self)@.remove(path@),
            value == if old(self)@.contains_key(path@) {
                Some(old(self)@[path@])
            } else {
                None
            },
    {
        let (found, place) = self.find(path);
        let ghost before = *self;
        if !found {
            assert(self@.remove(path@) =~= self@);
            return None;
        }
        let entry = self.entries.remove(place);
        proof {
            before.lemma_entry(place as int);
            let (old_keys, keys) = (before.keys(), self.keys());
            assert(keys =~= old_keys.remove(place as int));
            assert forall|i: int, j: int| 0 <= i < j < keys.len() implies path_less(
                #[trigger] keys[i],
                #[trigger] keys[j],
            ) by {
                let x = if i < place { i } else { i + 1 };
                let y = if j < place { j } else { j + 1 };
                assert(keys[i] == old_keys[x] && keys[j] == old_keys[y]);
            }
            assert(self.well_formed());
            assert forall|other: PathModel|
                #![trigger self@.dom().contains(other)]
                #![trigger self@[other]]
                self@.dom().contains(other) == before@.remove(path@).dom().contains(other) && (
                self@.dom().contains(other) ==> self@[other] == before@.remove(
                    path@,
                )[other]) by {
                if self@.contains_key(other) {
                    let i = self.lemma_key(other);
                    let x = if i < place { i } else { i + 1 };
                    assert(self.entries@[i] == before.entries@[x]);
                    before.lemma_entry(x);
                    lemma_path_irreflexive(path@);
                    assert(old_keys[x] == other);
                    assert(old_keys[place as int] == path@);
                    if x < place {
                        assert(path_less(old_keys[x], old_keys[place as int]));
                    } else {
                        assert(path_less(old_keys[place as int], old_keys[x]));
                    }
                }
                if before@.contains_key(other) && other != path@ {
                    let i = before.lemma_key(other);
                    let x = if i < place { i } else { i - 1 };
                    assert(self.entries@[x] == before.entries@[i]);
                    self.lemma_entry(x);
                }
            }
            assert(self@ =~= before@.remove(path@));
        }
        Some(entry.value)
    }

    /// Hands out the values in the order of their paths, and leaves the map empty.
    pub fn take_values(&mut self) -> (values: Vec<V>)
        requires
            old(self).well_formed(),
        ensures
            final(self).well_formed(),
            final(self)@ == Map::<PathModel, V>::empty(),
            values@.len() == old(self).keys().len(),
            forall|i: int|
                0 <= i < values@.len() ==> #[trigger] values@[i] == old(self)@[old(self).keys()[i]],
    {
        let mut values: Vec<V> = Vec::new();
        let mut i: usize = 0;
        while i < self.entries.len()
            invariant
                *self == *old(self),
                self.well_formed(),
                i <= self.entries@.len(),
                values@.len() == i,
                forall|j: int| 0 <= j < i ==> #[trigger] values@[j] == self@[self.keys()[j]],
            decreases self.entries@.len() - i,
        {
            proof {
                self.lemma_entry(i as int);
                assert(self.keys()[i as int] == self.entries@[i as int].path@);
            }
            values.push(self.entries[i].value);
            i += 1;
        }
        self.entries.clear();
        assert(self@ =~= Map::<PathModel, V>::empty());
        values
    }
}

} // verus!
