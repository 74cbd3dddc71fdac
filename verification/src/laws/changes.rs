//! What is announced is what has changed.
use crate::branch::{
    branch_ids, forest_ids, has_id, lemma_contains_concat, lemma_forest_has, lemma_forest_split,
    lemma_has, lemma_in_forest, Branch,
};
use crate::pairing::{fresh, kept, law_pairing, lemma_kept, pairing};
use crate::rbx_snapshot::SnapshotView;
use crate::reconcile::{
    child_names, chosen_branches, differs, forest_reconciled, lost_ids, paired_notes, reconciled,
    reconciled_notes,
};
use crate::reify::{
    forest_mirrors, mirrors, picked, reified_forest_notes, reified_notes, ChangesView, Notes,
};
use crate::tree::{InstanceMap, InstanceView};
use crate::value::{same_properties, texts_agree};
use vstd::prelude::*;

verus! {

/// Whether an instance has another name, class or property than before.
pub open spec fn is_changed(before: InstanceView, after: InstanceView) -> bool {
    ||| before.name != after.name
    ||| before.class_name != after.class_name
    ||| !same_properties(before.properties, after.properties)
}

/// Whether nothing that was announced before is taken back.
pub open spec fn goes_on(before: ChangesView, now: ChangesView, id: u128) -> bool {
    &&& before.added.contains(id) ==> now.added.contains(id)
    &&& before.removed.contains(id) ==> now.removed.contains(id)
    &&& before.updated.contains(id) ==> now.updated.contains(id)
}

/// Making a snapshot into instances announces each of these as added, and nothing
/// else.
pub proof fn law_reified_changes(
    instances: InstanceMap,
    notes: Notes,
    branch: Branch,
    snapshot: SnapshotView,
    id: u128,
)
    requires
        mirrors(instances, branch, snapshot),
    ensures
        reified_notes(notes, branch, snapshot).changes.added.contains(id)
            <==> notes.changes.added.contains(id) || has_id(branch, id),
        reified_notes(notes, branch, snapshot).changes.removed == notes.changes.removed,
        reified_notes(notes, branch, snapshot).changes.updated == notes.changes.updated,
    decreases snapshot,
{
    assert(forest_mirrors(instances, branch.children, snapshot.children));
    lemma_forest_changes(
        instances,
        notes.placed(branch.id, snapshot).added(branch.id),
        branch.children,
        snapshot.children,
        id,
    );
    lemma_has(branch, id);
}

pub(crate) proof fn lemma_forest_changes(
    instances: InstanceMap,
    notes: Notes,
    forest: Seq<Branch>,
    snapshots: Seq<SnapshotView>,
    id: u128,
)
    requires
        forest_mirrors(instances, forest, snapshots),
    ensures
        reified_forest_notes(notes, forest, snapshots).changes.added.contains(id)
            <==> notes.changes.added.contains(id) || forest_ids(forest).contains(id),
        reified_forest_notes(notes, forest, snapshots).changes.removed == notes.changes.removed,
        reified_forest_notes(notes, forest, snapshots).changes.updated == notes.changes.updated,
    decreases snapshots,
{
    if snapshots.len() > 0 {
        assert forall|k: int| 0 <= k < forest.drop_last().len() implies mirrors(
            instances,
            #[trigger] forest.drop_last()[k],
            snapshots.drop_last()[k],
        ) by {
            assert(mirrors(instances, forest[k], snapshots[k]));
        }
        lemma_forest_changes(instances, notes, forest.drop_last(), snapshots.drop_last(), id);
        assert(mirrors(instances, forest[forest.len() - 1], snapshots[forest.len() - 1]));
        law_reified_changes(
            instances,
            reified_forest_notes(notes, forest.drop_last(), snapshots.drop_last()),
            forest.last(),
            snapshots.last(),
            id,
        );
        lemma_contains_concat(forest_ids(forest.drop_last()), branch_ids(forest.last()), id);
    }
}

/// What is announced, when instances are brought in line with a snapshot, is what has
/// changed: an instance that is there now and was not there before is announced as
/// added, one that is gone as removed, and one that was not removed as updated if, and
/// only if, it has another name, class or property than before. A property with
/// another text is another property.
pub proof fn law_reconciled_changes(
    instances: InstanceMap,
    branch: Branch,
    snapshot: SnapshotView,
    after: InstanceMap,
    result: Branch,
    notes: Notes,
    id: u128,
)
    requires
        reconciled(instances, branch, snapshot, after, result),
    ensures
        ({
            let before = notes.changes;
            let now = reconciled_notes(instances, branch, snapshot, result, notes).changes;
            &&& goes_on(before, now, id)
            &&& has_id(result, id) ==> has_id(branch, id) || now.added.contains(id)
            &&& has_id(branch, id) ==> has_id(result, id) || now.removed.contains(id)
            &&& now.added.contains(id) ==> before.added.contains(id) || has_id(result, id)
            &&& now.removed.contains(id) ==> before.removed.contains(id) || has_id(branch, id)
            &&& now.updated.contains(id) ==> before.updated.contains(id) || has_id(branch, id)
                && has_id(result, id) && is_changed(instances[id], after[id])
            &&& has_id(branch, id) && is_changed(instances[id], after[id])
                ==> now.updated.contains(id) || now.removed.contains(id)
            &&& has_id(branch, id) && !texts_agree(instances[id].properties, after[id].properties)
                ==> now.updated.contains(id) || now.removed.contains(id)
        }),
    decreases snapshot, 0nat,
{
    let pairs = pairing(child_names(instances, branch), snapshot.children);
    let going = kept(pairs);
    let coming = fresh(pairs, snapshot.children.len());
    law_pairing(child_names(instances, branch), snapshot.children);
    lemma_kept(pairs);
    let placed = notes.placed(branch.id, snapshot);
    let updated = if differs(instances[branch.id], snapshot) {
        placed.updated(branch.id)
    } else {
        placed
    };
    let fresh_ones = result.children.skip(going.len() as int);
    let views = picked(snapshot.children, coming);
    let added = reified_forest_notes(updated, fresh_ones, views);
    let removed = added.removed(lost_ids(branch.children, pairs));
    lemma_forest_changes(after, updated, fresh_ones, views, id);
    let old_ones = chosen_branches(branch.children, going);
    let new_ones = result.children.take(going.len() as int);
    assert(forest_reconciled(
        instances,
        branch.children,
        snapshot.children,
        pairs,
        after,
        new_ones,
    )) by {
        assert forall|k: int| 0 <= k < new_ones.len() implies {
            &&& 0 <= pairs[kept(pairs)[k]]->0 < snapshot.children.len()
            &&& reconciled(
                instances,
                branch.children[kept(pairs)[k]],
                snapshot.children[pairs[kept(pairs)[k]]->0],
                after,
                #[trigger] new_ones[k],
            )
        } by {
            assert(new_ones[k] == result.children[k]);
        }
    }
    lemma_paired_changes(
        instances,
        branch.children,
        snapshot.children,
        pairs,
        after,
        result.children,
        going.len(),
        removed,
        id,
    );
    assert(old_ones.take(going.len() as int) =~= old_ones);
    lemma_has(branch, id);
    lemma_has(result, id);
    assert(result.children =~= new_ones + fresh_ones);
    lemma_forest_split(new_ones, fresh_ones);
    lemma_contains_concat(forest_ids(new_ones), forest_ids(fresh_ones), id);
    if forest_ids(branch.children).contains(id) {
        let i = lemma_forest_has(branch.children, id);
        if pairs[i] is Some {
            let k = choose|k: int| 0 <= k < going.len() && going[k] == i;
            assert(old_ones[k] == branch.children[i]);
            lemma_in_forest(old_ones, k, id);
        } else {
            assert(has_id(branch.children[i], id));
            assert(lost_ids(branch.children, pairs).contains(id));
        }
    }
    if forest_ids(old_ones).contains(id) {
        let k = lemma_forest_has(old_ones, id);
        lemma_in_forest(branch.children, going[k], id);
    }
    if lost_ids(branch.children, pairs).contains(id) {
        let i = choose|i: int|
            0 <= i < pairs.len() && pairs[i] is None && has_id(
                #[trigger] branch.children[i],
                id,
            );
        lemma_in_forest(branch.children, i, id);
    }
}

proof fn lemma_paired_changes(
    instances: InstanceMap,
    forest: Seq<Branch>,
    snapshots: Seq<SnapshotView>,
    pairs: Seq<Option<int>>,
    after: InstanceMap,
    results: Seq<Branch>,
    count: nat,
    notes: Notes,
    id: u128,
)
    requires
        pairs.len() == forest.len(),
        count <= kept(pairs).len(),
        count <= results.len(),
        forest_reconciled(
            instances,
            forest,
            snapshots,
            pairs,
            after,
            results.take(count as int),
        ),
    ensures
        ({
            let before = notes.changes;
            let now = paired_notes(
                instances,
                forest,
                snapshots,
                pairs,
                results,
                count,
                notes,
            ).changes;
            let old_ones = forest_ids(chosen_branches(forest, kept(pairs)).take(count as int));
            let new_ones = forest_ids(results.take(count as int));
            &&& goes_on(before, now, id)
            &&& new_ones.contains(id) ==> old_ones.contains(id) || now.added.contains(id)
            &&& old_ones.contains(id) ==> new_ones.contains(id) || now.removed.contains(id)
            &&& now.added.contains(id) ==> before.added.contains(id) || new_ones.contains(id)
            &&& now.removed.contains(id) ==> before.removed.contains(id) || old_ones.contains(id)
            &&& now.updated.contains(id) ==> before.updated.contains(id) || old_ones.contains(id)
                && new_ones.contains(id) && is_changed(instances[id], after[id])
            &&& old_ones.contains(id) && is_changed(instances[id], after[id])
                ==> now.updated.contains(id) || now.removed.contains(id)
            &&& old_ones.contains(id) && !texts_agree(
                instances[id].properties,
                after[id].properties,
            ) ==> now.updated.contains(id) || now.removed.contains(id)
        }),
    decreases snapshots, count,
{
    let old_all = chosen_branches(forest, kept(pairs)).take(count as int);
    let new_all = results.take(count as int);
    if count > 0 {
        let i = kept(pairs)[count - 1];
        lemma_kept(pairs);
        let old_first = chosen_branches(forest, kept(pairs)).take(count - 1);
        let new_first = results.take(count - 1);
        assert(old_all.drop_last() =~= old_first);
        assert(new_all.drop_last() =~= new_first);
        assert(old_all.last() == forest[i]);
        assert(new_all.last() == results[count - 1]);
        lemma_contains_concat(forest_ids(old_first), branch_ids(old_all.last()), id);
        lemma_contains_concat(forest_ids(new_first), branch_ids(new_all.last()), id);
        assert forall|k: int|
            #![trigger new_first[k]]
            #![trigger kept(pairs)[k]]
            0 <= k < new_first.len() implies {
            &&& 0 <= pairs[kept(pairs)[k]]->0 < snapshots.len()
            &&& reconciled(
                instances,
                forest[kept(pairs)[k]],
                snapshots[pairs[kept(pairs)[k]]->0],
                after,
                new_first[k],
            )
        } by {
            assert(new_first[k] == new_all[k]);
        }
        assert(forest_reconciled(instances, forest, snapshots, pairs, after, new_first));
        assert(new_all[count - 1] == results[count - 1]);
        lemma_paired_changes(
            instances,
            forest,
            snapshots,
            pairs,
            after,
            results,
            (count - 1) as nat,
            notes,
            id,
        );
        law_reconciled_changes(
            instances,
            forest[i],
            snapshots[pairs[i]->0],
            after,
            results[count - 1],
            paired_notes(
                instances,
                forest,
                snapshots,
                pairs,
                results,
                (count - 1) as nat,
                notes,
            ),
            id,
        );
    }
}

} // verus!
