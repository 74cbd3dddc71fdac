//! Which instance stands for which path.
use crate::path::{starts_with, FilePath, PathView, WrittenPath};
use crate::path_table::PathTable;
use vstd::prelude::*;

verus! {

/// A map from paths to values that knows how paths lie below one another.
#[derive(Debug)]
pub struct PathMap<T> {
    nodes: PathTable<T>,
}

impl<T> View for PathMap<T> {
    type V = Map<PathView, T>;

    closed spec fn view(&self) -> Map<PathView, T> {
        self.nodes@
    }
}

/// How far down the way from `start` to `target` the paths are in `keys`: the last
/// path reached before the first one that is missing.
pub open spec fn descent(keys: Set<PathView>, start: PathView, target: PathView) -> PathView
    decreases target.len() - start.len(),
{
    if start.len() < target.len() && keys.contains(target.take(start.len() as int + 1)) {
        descent(keys, target.take(start.len() as int + 1), target)
    } else {
        start
    }
}

/// The path where the way down ends, as it comes to be written.
pub open spec fn descended(
    keys: Set<PathView>,
    start: WrittenPath,
    target: PathView,
) -> WrittenPath {
    start.with_parts(
        target.subrange(start.path.len() as int, descent(keys, start.path, target).len() as int),
    )
}

/// The entries of a map without those of `path` and of the paths below it.
pub open spec fn without_below<T>(map: Map<PathView, T>, path: PathView) -> Map<PathView, T> {
    map.remove_keys(Set::new(|key: PathView| starts_with(key, path)))
}

impl<T> PathMap<T> {
    /// An empty map.
    pub fn new() -> (map: PathMap<T>)
        ensures
            map@ == Map::<PathView, T>::empty(),
    {
        PathMap { nodes: PathTable::new() }
    }

    /// The value for `path`, if there is one.
    pub fn get(&self, path: &FilePath) -> (value: Option<&T>)
        ensures
            match value {
                Some(v) => self@.contains_key(path@) && self@[path@] == *v,
                None => !self@.contains_key(path@),
            },
    {
        self.nodes.get(path)
    }

    /// Makes `value` the value for `path`.
    pub fn insert(&mut self, path: FilePath, value: T)
        ensures
            final(self)@ == old(self)@.insert(path@, value),
    {
        self.nodes.insert(path, value);
    }

    /// Drops the values for `path` and for every path below it.
    pub fn remove(&mut self, path: &FilePath)
        ensures
            final(self)@ == without_below(old(self)@, path@),
    {
        self.nodes.remove_below(path);
    }

    /// Goes from `start_path` down towards `target_path` as long as the next path
    /// has a value, and returns where that ends.
    pub fn descend(&self, start_path: &FilePath, target_path: &FilePath) -> (path: FilePath)
        requires
            starts_with(target_path@, start_path@),
        ensures
            path@ == descent(self@.dom(), start_path@, target_path@),
            path.written() == descended(self@.dom(), start_path.written(), target_path@),
    {
        let mut current = start_path.clone();
        let mut i: usize = start_path.components.len();
        let ghost first = start_path@.len() as int;
        assert(target_path@.subrange(first, first) =~= seq![]);
        while i < target_path.components.len()
            invariant
                first == start_path@.len(),
                first <= i <= target_path.components.len(),
                current.written() == start_path.written().with_parts(
                    target_path@.subrange(first, i as int),
                ),
                current@ == target_path@.take(i as int),
                descent(self@.dom(), current@, target_path@) == descent(
                    self@.dom(),
                    start_path@,
                    target_path@,
                ),
            decreases target_path.components.len() - i,
        {
            let mut next = current.clone();
            next.push(target_path.components[i].clone());
            assert(next@ =~= target_path@.take(i + 1));
            assert(target_path@.subrange(first, i + 1).drop_last() =~= target_path@.subrange(
                first,
                i as int,
            ));
            if self.get(&next).is_none() {
                return current;
            }
            current = next;
            i += 1;
        }
        current
    }
}

impl PathMap<u128> {
    /// A copy of the map.
    pub fn copy(&self) -> (copy: PathMap<u128>)
        ensures
            copy@ == self@,
    {
        let paths = self.nodes.paths();
        let mut copy: PathMap<u128> = PathMap::new();
        let mut i: usize = 0;
        while i < paths.len()
            invariant
                i <= paths.len(),
                forall|j: int| 0 <= j < paths.len() ==> self@.contains_key((#[trigger] paths@[j])@),
                forall|j: int| 0 <= j < i ==> copy@.contains_key((#[trigger] paths@[j])@),
                forall|path: PathView| #[trigger]
                    copy@.contains_key(path) ==> self@.contains_key(path) && copy@[path]
                        == self@[path],
            decreases paths.len() - i,
        {
            assert(self@.contains_key(paths@[i as int]@));
            if let Some(value) = self.get(paths[i]) {
                copy.insert(paths[i].clone(), *value);
            }
            i += 1;
        }
        assert forall|path: PathView| self@.contains_key(path) implies #[trigger] copy@.contains_key(
            path,
        ) by {
            assert(self.nodes@.contains_key(path));
            let j = choose|j: int| 0 <= j < paths.len() && (#[trigger] paths@[j])@ == path;
            assert(copy@.contains_key(paths@[j]@));
        }
        assert(copy@ =~= self@);
        copy
    }
}

/// The way down ends on the way from `start` to `target`, every path passed on
/// the way has a value, and the next one has none.
pub proof fn law_descent(keys: Set<PathView>, start: PathView, target: PathView)
    requires
        starts_with(target, start),
    ensures
        starts_with(target, descent(keys, start, target)),
        starts_with(descent(keys, start, target), start),
        forall|n: int|
            start.len() < n <= descent(keys, start, target).len() ==> keys.contains(
                #[trigger] target.take(n),
            ),
        descent(keys, start, target).len() < target.len() ==> !keys.contains(
            target.take(descent(keys, start, target).len() as int + 1),
        ),
    decreases target.len() - start.len(),
{
    let next = target.take(start.len() as int + 1);
    if start.len() < target.len() && keys.contains(next) {
        assert(target.take(next.len() as int) =~= next);
        law_descent(keys, next, target);
        let end = descent(keys, start, target);
        assert(end.take(start.len() as int) =~= end.take(next.len() as int).take(
            start.len() as int,
        ));
        assert(next.take(start.len() as int) =~= target.take(start.len() as int));
        assert forall|n: int| start.len() < n <= end.len() implies keys.contains(
            #[trigger] target.take(n),
        ) by {
            if n > next.len() {
            } else {
                assert(target.take(n) =~= next);
            }
        }
    } else {
        assert(start.take(start.len() as int) =~= start);
    }
}

/// A path that was removed has no value any more, nor has any path below it, and
/// the other values are as before.
pub proof fn law_removed<T>(map: Map<PathView, T>, path: PathView, key: PathView)
    ensures
        !without_below(map, path).contains_key(path),
        starts_with(key, path) ==> !without_below(map, path).contains_key(key),
        !starts_with(key, path) ==> (without_below(map, path).contains_key(key)
            <==> map.contains_key(key)),
        !starts_with(key, path) && map.contains_key(key) ==> without_below(map, path)[key]
            == map[key],
{
    assert(path.take(path.len() as int) =~= path);
}

} // verus!
