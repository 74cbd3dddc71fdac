//! A table from paths to values.
use crate::path::{starts_with, FilePath, PathView};
use vstd::prelude::*;

verus! {

/// One row of a [`PathTable`].
#[derive(Debug)]
pub struct PathEntry<T> {
    pub path: FilePath,
    pub value: T,
}

/// A map from paths to values of type `T`.
#[derive(Debug)]
pub struct PathTable<T> {
    entries: Vec<PathEntry<T>>,
}

/// The map that a list of rows describes: a later row for a path stands in
/// place of an earlier one.
pub closed spec fn entry_map<T>(entries: Seq<PathEntry<T>>) -> Map<PathView, T>
    decreases entries.len(),
{
    if entries.len() == 0 {
        Map::empty()
    } else {
        entry_map(entries.drop_last()).insert(entries.last().path@, entries.last().value)
    }
}

impl<T> View for PathTable<T> {
    type V = Map<PathView, T>;

    closed spec fn view(&self) -> Map<PathView, T> {
        entry_map(self.entries@)
    }
}

proof fn lemma_get<T>(entries: Seq<PathEntry<T>>, i: int)
    requires
        0 <= i < entries.len(),
        forall|j: int| i < j < entries.len() ==> (#[trigger] entries[j]).path@ != entries[i].path@,
    ensures
        entry_map(entries).contains_key(entries[i].path@),
        entry_map(entries)[entries[i].path@] == entries[i].value,
    decreases entries.len(),
{
    if i < entries.len() - 1 {
        assert(entries.last().path@ != entries[i].path@);
        assert forall|j: int| i < j < entries.len() - 1 implies (#[trigger] entries.drop_last()[j]).path@
            != entries[i].path@ by {
            assert(entries[j].path@ != entries[i].path@);
        }
        lemma_get(entries.drop_last(), i);
    }
}

proof fn lemma_absent<T>(entries: Seq<PathEntry<T>>, path: PathView)
    requires
        forall|j: int| 0 <= j < entries.len() ==> (#[trigger] entries[j]).path@ != path,
    ensures
        !entry_map(entries).contains_key(path),
    decreases entries.len(),
{
    if entries.len() > 0 {
        assert(entries.last().path@ != path);
        assert forall|j: int| 0 <= j < entries.len() - 1 implies (#[trigger] entries.drop_last()[j]).path@
            != path by {
            assert(entries[j].path@ != path);
        }
        lemma_absent(entries.drop_last(), path);
    }
}

proof fn lemma_present<T>(entries: Seq<PathEntry<T>>, i: int)
    requires
        0 <= i < entries.len(),
    ensures
        entry_map(entries).contains_key(entries[i].path@),
    decreases entries.len(),
{
    if i < entries.len() - 1 {
        lemma_present(entries.drop_last(), i);
    }
}

proof fn lemma_update<T>(entries: Seq<PathEntry<T>>, i: int, entry: PathEntry<T>)
    requires
        0 <= i < entries.len(),
        entry.path@ == entries[i].path@,
        forall|j: int| i < j < entries.len() ==> (#[trigger] entries[j]).path@ != entries[i].path@,
    ensures
        entry_map(entries.update(i, entry)) == entry_map(entries).insert(entry.path@, entry.value),
    decreases entries.len(),
{
    let updated = entries.update(i, entry);
    if i == entries.len() - 1 {
        assert(updated.drop_last() =~= entries.drop_last());
        assert(entry_map(updated) =~= entry_map(entries).insert(entry.path@, entry.value));
    } else {
        assert(entries.last().path@ != entries[i].path@);
        assert(updated.drop_last() =~= entries.drop_last().update(i, entry));
        assert forall|j: int| i < j < entries.len() - 1 implies (#[trigger] entries.drop_last()[j]).path@
            != entries[i].path@ by {
            assert(entries[j].path@ != entries[i].path@);
        }
        lemma_update(entries.drop_last(), i, entry);
        assert(entry_map(updated) =~= entry_map(entries).insert(entry.path@, entry.value));
    }
}

impl<T> PathTable<T> {
    /// An empty table.
    pub fn new() -> (table: PathTable<T>)
        ensures
            table@ == Map::<PathView, T>::empty(),
    {
        PathTable { entries: Vec::new() }
    }

    /// The index of the row that holds for `path`.
    fn position(&self, path: &FilePath) -> (at: Option<usize>)
        ensures
            match at {
                Some(i) => {
                    &&& i < self.entries.len()
                    &&& self.entries@[i as int].path@ == path@
                    &&& forall|j: int|
                        i < j < self.entries.len() ==> (#[trigger] self.entries@[j]).path@ != path@
                },
                None => forall|j: int|
                    0 <= j < self.entries.len() ==> (#[trigger] self.entries@[j]).path@ != path@,
            },
    {
        let mut i: usize = self.entries.len();
        while i > 0
            invariant
                i <= self.entries.len(),
                forall|j: int|
                    i <= j < self.entries.len() ==> (#[trigger] self.entries@[j]).path@ != path@,
            decreases i,
        {
            i -= 1;
            if self.entries[i].path.same(path) {
                return Some(i);
            }
        }
        None
    }

    /// The value for `path`, if there is one.
    pub fn get(&self, path: &FilePath) -> (value: Option<&T>)
        ensures
            match value {
                Some(v) => self@.contains_key(path@) && self@[path@] == *v,
                None => !self@.contains_key(path@),
            },
    {
        match self.position(path) {
            Some(i) => {
                proof {
                    lemma_get(self.entries@, i as int);
                }
                Some(&self.entries[i].value)
            },
            None => {
                proof {
                    lemma_absent(self.entries@, path@);
                }
                None
            },
        }
    }

    /// The paths that have a value.
    pub fn paths(&self) -> (paths: Vec<&FilePath>)
        ensures
            forall|i: int| 0 <= i < paths.len() ==> self@.contains_key((#[trigger] paths@[i])@),
            forall|path: PathView| #[trigger]
                self@.contains_key(path) ==> exists|i: int|
                    0 <= i < paths.len() && (#[trigger] paths@[i])@ == path,
    {
        let mut paths: Vec<&FilePath> = Vec::new();
        let mut i: usize = 0;
        while i < self.entries.len()
            invariant
                i <= self.entries.len(),
                paths.len() == i,
                forall|j: int| 0 <= j < i ==> *(#[trigger] paths@[j]) == self.entries@[j].path,
            decreases self.entries.len() - i,
        {
            paths.push(&self.entries[i].path);
            i += 1;
        }
        proof {
            assert forall|j: int| 0 <= j < paths.len() implies self@.contains_key(
                (#[trigger] paths@[j])@,
            ) by {
                lemma_present(self.entries@, j);
            }
            assert forall|path: PathView| #[trigger] self@.contains_key(path) implies exists|j: int|
                0 <= j < paths.len() && (#[trigger] paths@[j])@ == path by {
                if forall|j: int|
                    0 <= j < self.entries.len() ==> (#[trigger] self.entries@[j]).path@ != path {
                    lemma_absent(self.entries@, path);
                }
                let j = choose|j: int|
                    0 <= j < self.entries.len() && (#[trigger] self.entries@[j]).path@ == path;
                assert(paths@[j]@ == path);
            }
        }
        paths
    }

    /// Makes `value` the value for `path`.
    pub fn insert(&mut self, path: FilePath, value: T)
        ensures
            final(self)@ == old(self)@.insert(path@, value),
    {
        match self.position(&path) {
            Some(i) => {
                let entry = PathEntry { path, value };
                proof {
                    lemma_update(self.entries@, i as int, entry);
                }
                self.entries[i] = entry;
            },
            None => {
                let entry = PathEntry { path, value };
                self.entries.push(entry);
                assert(self.entries@.drop_last() =~= old(self).entries@);
            },
        }
    }

    /// Drops the rows of `path` and of every path below it.
    pub fn remove_below(&mut self, path: &FilePath)
        ensures
            final(self)@ == old(self)@.remove_keys(
                Set::new(|key: PathView| starts_with(key, path@)),
            ),
    {
        let ghost before = self.entries@;
        let mut rest: Vec<PathEntry<T>> = Vec::new();
        let mut kept: Vec<PathEntry<T>> = Vec::new();
        std::mem::swap(&mut rest, &mut self.entries);
        let ghost below = Set::new(|key: PathView| starts_with(key, path@));
        // Taken from the back, then turned round.
        let mut reversed: Vec<PathEntry<T>> = Vec::new();
        while rest.len() > 0
            invariant
                rest.len() <= before.len(),
                rest@ == before.take(rest.len() as int),
                reversed.len() == before.len() - rest.len(),
                forall|j: int|
                    0 <= j < reversed.len() ==> #[trigger] reversed@[j] == before[before.len() - 1 - j],
            decreases rest.len(),
        {
            let ghost count = rest.len();
            let entry = rest.pop();
            assert(rest@ =~= before.take(count - 1));
            if let Some(entry) = entry {
                reversed.push(entry);
            }
        }
        assert(before.take(0) =~= Seq::empty());
        assert(entry_map(kept@) =~= Map::empty());
        assert(entry_map(before.take(0)).remove_keys(below) =~= Map::empty());
        let ghost count = before.len();
        while reversed.len() > 0
            invariant
                count == before.len(),
                reversed.len() <= count,
                below == Set::new(|key: PathView| starts_with(key, path@)),
                forall|j: int|
                    0 <= j < reversed.len() ==> #[trigger] reversed@[j] == before[count - 1 - j],
                entry_map(kept@) == entry_map(before.take(count - reversed.len())).remove_keys(below),
            decreases reversed.len(),
        {
            let ghost done = (count - reversed.len()) as int;
            let ghost list = kept@;
            let entry = reversed.pop();
            if let Some(entry) = entry {
                assert(entry == before[done]);
                assert(before.take(done + 1).drop_last() =~= before.take(done));
                assert(before.take(done + 1).last() == entry);
                if !entry.path.starts_with(path) {
                    kept.push(entry);
                    assert(kept@.drop_last() =~= list);
                }
                assert(entry_map(kept@) =~= entry_map(before.take(done + 1)).remove_keys(below));
            }
        }
        assert(before.take(count as int) =~= before);
        self.entries = kept;
    }
}

} // verus!
