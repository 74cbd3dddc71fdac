//! Which of the children of an instance goes on as which child of a snapshot.
use crate::rbx_snapshot::{snapshots_view, RbxSnapshotInstance, SnapshotView};
use crate::reify::indexes;
use crate::tree::{get_instance, tree_instances, InstanceMap};
use rbx_tree::RbxTree;
use vstd::prelude::*;

verus! {

/// The first snapshot from `from` on that has a name and that no earlier child
/// goes on as.
pub open spec fn first_free(
    taken: Seq<Option<int>>,
    name: Seq<char>,
    snapshots: Seq<SnapshotView>,
    from: int,
) -> Option<int>
    decreases snapshots.len() - from,
{
    if from < 0 || from >= snapshots.len() {
        None
    } else if snapshots[from].name == name && !taken.contains(Some(from)) {
        Some(from)
    } else {
        first_free(taken, name, snapshots, from + 1)
    }
}

/// For each child, in order, the index of the snapshot that it goes on as: the
/// first of the same name that is left.
pub open spec fn pairing(names: Seq<Seq<char>>, snapshots: Seq<SnapshotView>) -> Seq<Option<int>>
    decreases names.len(),
{
    if names.len() == 0 {
        Seq::empty()
    } else {
        let earlier = pairing(names.drop_last(), snapshots);
        earlier.push(first_free(earlier, names.last(), snapshots, 0))
    }
}

/// The children that go on, in order.
pub open spec fn kept(pairs: Seq<Option<int>>) -> Seq<int>
    decreases pairs.len(),
{
    if pairs.len() == 0 {
        Seq::empty()
    } else if pairs.last() is Some {
        kept(pairs.drop_last()).push(pairs.len() - 1)
    } else {
        kept(pairs.drop_last())
    }
}

/// The first `count` snapshots without those that a child goes on as.
pub open spec fn fresh(pairs: Seq<Option<int>>, count: nat) -> Seq<int>
    decreases count,
{
    if count == 0 {
        Seq::empty()
    } else if pairs.contains(Some(count - 1)) {
        fresh(pairs, (count - 1) as nat)
    } else {
        fresh(pairs, (count - 1) as nat).push(count - 1)
    }
}

/// A free snapshot that is found has the name and is free.
proof fn lemma_first_free(
    taken: Seq<Option<int>>,
    name: Seq<char>,
    snapshots: Seq<SnapshotView>,
    from: int,
)
    ensures
        first_free(taken, name, snapshots, from) matches Some(j) ==> {
            &&& 0 <= j < snapshots.len()
            &&& snapshots[j].name == name
            &&& !taken.contains(Some(j))
        },
    decreases snapshots.len() - from,
{
    if 0 <= from < snapshots.len() {
        lemma_first_free(taken, name, snapshots, from + 1);
    }
}

/// Every child goes on as a snapshot of its own name, and no two go on as the same
/// one.
pub proof fn law_pairing(names: Seq<Seq<char>>, snapshots: Seq<SnapshotView>)
    ensures
        pairing(names, snapshots).len() == names.len(),
        forall|i: int|
            0 <= i < names.len() && (#[trigger] pairing(names, snapshots)[i]) is Some ==> {
                &&& 0 <= pairing(names, snapshots)[i]->0 < snapshots.len()
                &&& snapshots[pairing(names, snapshots)[i]->0].name == names[i]
            },
        forall|i: int, k: int|
            0 <= i < k < names.len() && (#[trigger] pairing(names, snapshots)[i]) is Some
                ==> pairing(names, snapshots)[i] != #[trigger] pairing(names, snapshots)[k],
    decreases names.len(),
{
    if names.len() > 0 {
        let earlier = pairing(names.drop_last(), snapshots);
        law_pairing(names.drop_last(), snapshots);
        lemma_first_free(earlier, names.last(), snapshots, 0);
        let pairs = pairing(names, snapshots);
        assert forall|i: int, k: int|
            0 <= i < k < names.len() && (#[trigger] pairs[i]) is Some implies pairs[i]
            != #[trigger] pairs[k] by {
            assert(earlier[i] == pairs[i]);
            if k < names.len() - 1 {
                assert(earlier[k] == pairs[k]);
            } else {
                assert(earlier.contains(earlier[i]));
            }
        }
        assert forall|i: int|
            0 <= i < names.len() && (#[trigger] pairs[i]) is Some implies 0 <= pairs[i]->0
            < snapshots.len() && snapshots[pairs[i]->0].name == names[i] by {
            if i < names.len() - 1 {
                assert(earlier[i] == pairs[i]);
                assert(names.drop_last()[i] == names[i]);
            }
        }
    }
}

/// A free snapshot that is found is the first one.
proof fn lemma_first_is_first(
    taken: Seq<Option<int>>,
    name: Seq<char>,
    snapshots: Seq<SnapshotView>,
    from: int,
    other: int,
)
    requires
        first_free(taken, name, snapshots, from) matches Some(j) && 0 <= from <= other < j,
        snapshots[other].name == name,
    ensures
        taken.contains(Some(other)),
    decreases snapshots.len() - from,
{
    if from < other {
        lemma_first_is_first(taken, name, snapshots, from + 1, other);
    }
}

/// A snapshot that a child has passed over, though it has the name, is one that an
/// earlier child goes on as.
pub(crate) proof fn lemma_passed_over(
    names: Seq<Seq<char>>,
    snapshots: Seq<SnapshotView>,
    i: int,
    other: int,
) -> (earlier: int)
    requires
        0 <= i < names.len(),
        pairing(names, snapshots)[i] is Some,
        0 <= other < pairing(names, snapshots)[i]->0,
        snapshots[other].name == names[i],
    ensures
        0 <= earlier < i,
        pairing(names, snapshots)[earlier] == Some(other),
    decreases names.len(),
{
    let before = pairing(names.drop_last(), snapshots);
    law_pairing(names.drop_last(), snapshots);
    if i < names.len() - 1 {
        assert(pairing(names, snapshots)[i] == before[i]);
        let earlier = lemma_passed_over(names.drop_last(), snapshots, i, other);
        assert(pairing(names, snapshots)[earlier] == before[earlier]);
        earlier
    } else {
        lemma_first_is_first(before, names.last(), snapshots, 0, other);
        let earlier = choose|k: int| 0 <= k < before.len() && before[k] == Some(other);
        assert(pairing(names, snapshots)[earlier] == before[earlier]);
        earlier
    }
}

/// The children that go on are some of the children, each once and in order.
pub(crate) proof fn lemma_kept(pairs: Seq<Option<int>>)
    ensures
        kept(pairs).len() <= pairs.len(),
        forall|k: int|
            0 <= k < kept(pairs).len() ==> 0 <= #[trigger] kept(pairs)[k] < pairs.len()
                && pairs[kept(pairs)[k]] is Some,
        forall|k: int, l: int|
            0 <= k < l < kept(pairs).len() ==> #[trigger] kept(pairs)[k] < #[trigger] kept(
                pairs,
            )[l],
        forall|i: int|
            0 <= i < pairs.len() && (#[trigger] pairs[i]) is Some ==> kept(pairs).contains(i),
    decreases pairs.len(),
{
    if pairs.len() > 0 {
        let before = kept(pairs.drop_last());
        lemma_kept(pairs.drop_last());
        assert forall|k: int| 0 <= k < before.len() implies 0 <= #[trigger] before[k]
            < pairs.len() - 1 && pairs[before[k]] is Some by {
            assert(pairs.drop_last()[before[k]] == pairs[before[k]]);
        }
        assert forall|k: int| 0 <= k < kept(pairs).len() implies 0 <= #[trigger] kept(pairs)[k]
            < pairs.len() && pairs[kept(pairs)[k]] is Some by {
            if k < before.len() {
                assert(kept(pairs)[k] == before[k]);
            }
        }
        assert forall|i: int| 0 <= i < pairs.len() && (#[trigger] pairs[i]) is Some implies kept(
            pairs,
        ).contains(i) by {
            if i < pairs.len() - 1 {
                assert(pairs.drop_last()[i] is Some);
                assert(before.contains(i));
                let k = choose|k: int| 0 <= k < before.len() && before[k] == i;
                assert(kept(pairs)[k] == i);
            } else {
                assert(kept(pairs)[before.len() as int] == i);
            }
        }
    }
}

/// The fresh snapshots are those that no child goes on as, each once and in order.
pub(crate) proof fn lemma_fresh(pairs: Seq<Option<int>>, count: nat)
    ensures
        forall|k: int|
            0 <= k < fresh(pairs, count).len() ==> 0 <= #[trigger] fresh(pairs, count)[k] < count
                && !pairs.contains(Some(fresh(pairs, count)[k])),
        forall|k: int, l: int|
            0 <= k < l < fresh(pairs, count).len() ==> #[trigger] fresh(pairs, count)[k]
                < #[trigger] fresh(pairs, count)[l],
        forall|j: int|
            0 <= j < count && !pairs.contains(Some(j)) ==> #[trigger] fresh(
                pairs,
                count,
            ).contains(j),
    decreases count,
{
    if count > 0 {
        let before = fresh(pairs, (count - 1) as nat);
        lemma_fresh(pairs, (count - 1) as nat);
        assert forall|j: int| 0 <= j < count && !pairs.contains(Some(j)) implies #[trigger] fresh(
            pairs,
            count,
        ).contains(j) by {
            if j < count - 1 {
                assert(before.contains(j));
                let k = choose|k: int| 0 <= k < before.len() && before[k] == j;
                assert(fresh(pairs, count)[k] == j);
            } else {
                assert(fresh(pairs, count)[before.len() as int] == j);
            }
        }
    }
}

/// What a list of partners stands for.
pub open spec fn pairs_view(pairs: Seq<Option<usize>>) -> Seq<Option<int>> {
    Seq::new(
        pairs.len(),
        |i: int|
            match pairs[i] {
                Some(j) => Some(j as int),
                None => None,
            },
    )
}

/// The names of instances.
pub open spec fn names_of(instances: InstanceMap, ids: Seq<u128>) -> Seq<Seq<char>> {
    Seq::new(ids.len(), |i: int| instances[ids[i]].name)
}

/// Whether an earlier child goes on as the snapshot `index`.
fn is_taken(pairs: &Vec<Option<usize>>, index: usize) -> (taken: bool)
    ensures
        taken == pairs_view(pairs@).contains(Some(index as int)),
{
    let mut i: usize = 0;
    while i < pairs.len()
        invariant
            i <= pairs.len(),
            forall|k: int| 0 <= k < i ==> #[trigger] pairs_view(pairs@)[k] != Some(index as int),
        decreases pairs.len() - i,
    {
        if let Some(other) = pairs[i] {
            if other == index {
                assert(pairs_view(pairs@)[i as int] == Some(index as int));
                return true;
            }
        }
        i += 1;
    }
    false
}

/// Finds the snapshot that a child of this name goes on as.
fn find_free(
    pairs: &Vec<Option<usize>>,
    name: &String,
    snapshots: &Vec<RbxSnapshotInstance>,
) -> (found: Option<usize>)
    ensures
        match found {
            Some(j) => first_free(pairs_view(pairs@), name@, snapshots_view(snapshots@), 0)
                == Some(j as int),
            None => first_free(pairs_view(pairs@), name@, snapshots_view(snapshots@), 0) is None,
        },
        found matches Some(j) ==> j < snapshots.len(),
{
    let mut j: usize = 0;
    while j < snapshots.len()
        invariant
            j <= snapshots.len(),
            first_free(pairs_view(pairs@), name@, snapshots_view(snapshots@), 0) == first_free(
                pairs_view(pairs@),
                name@,
                snapshots_view(snapshots@),
                j as int,
            ),
        decreases snapshots.len() - j,
    {
        if snapshots[j].name == *name && !is_taken(pairs, j) {
            return Some(j);
        }
        j += 1;
    }
    None
}

/// Finds out which child goes on as which snapshot.
pub(crate) fn pair_children(
    tree: &RbxTree,
    ids: &Vec<u128>,
    snapshots: &Vec<RbxSnapshotInstance>,
) -> (pairs: Vec<Option<usize>>)
    requires
        forall|i: int| 0 <= i < ids.len() ==> tree_instances(*tree).contains_key(#[trigger] ids@[i]),
    ensures
        pairs.len() == ids.len(),
        pairs_view(pairs@) == pairing(
            names_of(tree_instances(*tree), ids@),
            snapshots_view(snapshots@),
        ),
        forall|i: int|
            0 <= i < pairs.len() ==> (#[trigger] pairs@[i] matches Some(j) ==> j
                < snapshots.len()),
{
    let ghost names = names_of(tree_instances(*tree), ids@);
    let mut pairs: Vec<Option<usize>> = Vec::new();
    let mut i: usize = 0;
    assert(names.take(0) =~= Seq::<Seq<char>>::empty());
    while i < ids.len()
        invariant
            i <= ids.len(),
            pairs.len() == i,
            names == names_of(tree_instances(*tree), ids@),
            forall|i: int|
                0 <= i < ids.len() ==> tree_instances(*tree).contains_key(#[trigger] ids@[i]),
            pairs_view(pairs@) == pairing(names.take(i as int), snapshots_view(snapshots@)),
            forall|i: int|
                0 <= i < pairs.len() ==> (#[trigger] pairs@[i] matches Some(j) ==> j
                    < snapshots.len()),
        decreases ids.len() - i,
    {
        let ghost before = pairs@;
        assert(tree_instances(*tree).contains_key(ids@[i as int]));
        let instance = get_instance(tree, ids[i]).unwrap();
        let found = find_free(&pairs, &instance.name, snapshots);
        pairs.push(found);
        proof {
            assert(names.take(i + 1).drop_last() =~= names.take(i as int));
            assert(names.take(i + 1).last() == instance.name@);
            assert(pairs_view(pairs@) =~= pairs_view(before).push(
                first_free(pairs_view(before), instance.name@, snapshots_view(snapshots@), 0),
            ));
        }
        i += 1;
    }
    assert(names.take(i as int) =~= names);
    pairs
}

/// The children that go on.
pub(crate) fn kept_indexes(pairs: &Vec<Option<usize>>) -> (list: Vec<usize>)
    ensures
        indexes(list@) == kept(pairs_view(pairs@)),
{
    let ghost views = pairs_view(pairs@);
    let mut list: Vec<usize> = Vec::new();
    let mut i: usize = 0;
    assert(indexes(list@) =~= kept(views.take(0)));
    while i < pairs.len()
        invariant
            i <= pairs.len(),
            views == pairs_view(pairs@),
            indexes(list@) == kept(views.take(i as int)),
        decreases pairs.len() - i,
    {
        let ghost before = list@;
        assert(views.take(i + 1).drop_last() =~= views.take(i as int));
        if pairs[i].is_some() {
            list.push(i);
            assert(indexes(list@) =~= indexes(before).push(i as int));
        }
        i += 1;
    }
    assert(views.take(i as int) =~= views);
    list
}

/// The snapshots that no child goes on as.
pub(crate) fn fresh_indexes(pairs: &Vec<Option<usize>>, count: usize) -> (list: Vec<usize>)
    ensures
        indexes(list@) == fresh(pairs_view(pairs@), count as nat),
        forall|k: int| 0 <= k < list.len() ==> #[trigger] list@[k] < count,
{
    let mut list: Vec<usize> = Vec::new();
    let mut j: usize = 0;
    assert(indexes(list@) =~= fresh(pairs_view(pairs@), 0));
    while j < count
        invariant
            j <= count,
            indexes(list@) == fresh(pairs_view(pairs@), j as nat),
            forall|k: int| 0 <= k < list.len() ==> #[trigger] list@[k] < count,
        decreases count - j,
    {
        let ghost before = list@;
        if !is_taken(pairs, j) {
            list.push(j);
            assert(indexes(list@) =~= indexes(before).push(j as int));
        }
        j += 1;
    }
    list
}

} // verus!
