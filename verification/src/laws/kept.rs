//! Which instances go on when an instance is brought in line with a snapshot.
use crate::branch::Branch;
use crate::pairing::{first_free, kept, law_pairing, lemma_kept, lemma_passed_over, pairing};
use crate::rbx_snapshot::SnapshotView;
use crate::reconcile::{child_names, reconciled};
use crate::tree::InstanceMap;
use vstd::prelude::*;

verus! {

/// A child goes on as the first snapshot of its name that no earlier child goes on as. If it
/// goes on as none, then earlier children go on as all snapshots of its name.
pub proof fn law_first_left(
    names: Seq<Seq<char>>,
    snapshots: Seq<SnapshotView>,
    i: int,
    other: int,
) -> (earlier: int)
    requires
        0 <= i < names.len(),
        0 <= other < snapshots.len(),
        snapshots[other].name == names[i],
        match pairing(names, snapshots)[i] {
            Some(j) => other < j,
            None => true,
        },
    ensures
        0 <= earlier < i,
        pairing(names, snapshots)[earlier] == Some(other),
    decreases names.len(),
{
    law_pairing(names, snapshots);
    if pairing(names, snapshots)[i] is Some {
        lemma_passed_over(names, snapshots, i, other)
    } else {
        let before = pairing(names.drop_last(), snapshots);
        law_pairing(names.drop_last(), snapshots);
        if i < names.len() - 1 {
            assert(pairing(names, snapshots)[i] == before[i]);
            let earlier = law_first_left(names.drop_last(), snapshots, i, other);
            assert(pairing(names, snapshots)[earlier] == before[earlier]);
            earlier
        } else {
            lemma_none_free(before, names.last(), snapshots, 0, other);
            let earlier = choose|k: int| 0 <= k < before.len() && before[k] == Some(other);
            assert(pairing(names, snapshots)[earlier] == before[earlier]);
            earlier
        }
    }
}

proof fn lemma_none_free(
    taken: Seq<Option<int>>,
    name: Seq<char>,
    snapshots: Seq<SnapshotView>,
    from: int,
    other: int,
)
    requires
        first_free(taken, name, snapshots, from) is None,
        0 <= from <= other < snapshots.len(),
        snapshots[other].name == name,
    ensures
        taken.contains(Some(other)),
    decreases snapshots.len() - from,
{
    if from < other {
        lemma_none_free(taken, name, snapshots, from + 1, other);
    }
}

/// The first child of each name that the snapshot has a child of stays a child, under its
/// ID, and is brought in line with a child of that name. The instance itself stays under its ID as well.
pub proof fn law_children_stay(
    instances: InstanceMap,
    branch: Branch,
    snapshot: SnapshotView,
    after: InstanceMap,
    result: Branch,
    i: int,
    j: int,
) -> (way: (int, int))
    requires
        reconciled(instances, branch, snapshot, after, result),
        0 <= i < branch.children.len(),
        0 <= j < snapshot.children.len(),
        snapshot.children[j].name == instances[branch.children[i].id].name,
        forall|l: int|
            0 <= l < i ==> instances[(#[trigger] branch.children[l]).id].name
                != instances[branch.children[i].id].name,
    ensures
        result.id == branch.id,
        0 <= way.0 < result.children.len(),
        result.children[way.0].id == branch.children[i].id,
        0 <= way.1 < snapshot.children.len(),
        snapshot.children[way.1].name == instances[branch.children[i].id].name,
        reconciled(
            instances,
            branch.children[i],
            snapshot.children[way.1],
            after,
            result.children[way.0],
        ),
{
    let names = child_names(instances, branch);
    let pairs = pairing(names, snapshot.children);
    law_pairing(names, snapshot.children);
    lemma_kept(pairs);
    assert forall|l: int| 0 <= l < names.len() implies #[trigger] names[l]
        == instances[branch.children[l].id].name by {}
    if pairs[i] is None {
        let earlier = law_first_left(names, snapshot.children, i, j);
        assert(names[earlier] == snapshot.children[j].name);
        assert(instances[branch.children[earlier].id].name == names[earlier]);
        assert(false);
    }
    let going = kept(pairs);
    assert(going.contains(i));
    let k = choose|k: int| 0 <= k < going.len() && going[k] == i;
    assert(reconciled(
        instances,
        branch.children[going[k]],
        snapshot.children[pairs[going[k]]->0],
        after,
        result.children[k],
    ));
    (k, pairs[i]->0)
}

} // verus!
