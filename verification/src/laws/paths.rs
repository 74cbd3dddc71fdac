//! The paths of a snapshot lead to its instances.
use crate::branch::{
    branch_ids, forest_ids, lemma_contains_concat, lemma_forest_split, lemma_has, lemma_top,
    Branch,
};
use crate::pairing::{fresh, kept, law_pairing, lemma_fresh, lemma_kept, pairing};
use crate::path::PathView;
use crate::rbx_snapshot::SnapshotView;
use crate::reconcile::{
    child_names, differs, forest_reconciled, lost_ids, paired_notes, reconciled, reconciled_notes,
};
use crate::reify::{forest_mirrors, mirrors, picked, reified_forest_notes, reified_notes, Notes};
use crate::tree::InstanceMap;
use vstd::prelude::*;

verus! {

/// The paths that a snapshot and everything below it come from.
pub open spec fn sources(snapshot: SnapshotView) -> Seq<PathView>
    decreases snapshot,
{
    let below = forest_sources(snapshot.children);
    match snapshot.source_path {
        Some(path) => seq![path] + below,
        None => below,
    }
}

/// The paths that snapshots come from.
pub open spec fn forest_sources(snapshots: Seq<SnapshotView>) -> Seq<PathView>
    decreases snapshots,
{
    if snapshots.len() == 0 {
        Seq::empty()
    } else {
        forest_sources(snapshots.drop_last()) + sources(snapshots.last())
    }
}

/// Whether a path leads to one of some instances, if it is one of those to be noted,
/// and else to where it led before.
pub open spec fn leads_to(
    before: Map<PathView, u128>,
    now: Map<PathView, u128>,
    path: PathView,
    noted: Seq<PathView>,
    ids: Seq<u128>,
) -> bool {
    if noted.contains(path) {
        now.contains_key(path) && ids.contains(now[path])
    } else {
        &&& now.contains_key(path) == before.contains_key(path)
        &&& now.contains_key(path) ==> now[path] == before[path]
    }
}

pub(crate) proof fn lemma_paths_concat(left: Seq<PathView>, right: Seq<PathView>, path: PathView)
    ensures
        (left + right).contains(path) <==> left.contains(path) || right.contains(path),
{
    let whole = left + right;
    if whole.contains(path) {
        let i = choose|i: int| 0 <= i < whole.len() && whole[i] == path;
        if i < left.len() {
            assert(left[i] == path);
        } else {
            assert(right[i - left.len()] == path);
        }
    }
    if left.contains(path) {
        let i = choose|i: int| 0 <= i < left.len() && left[i] == path;
        assert(whole[i] == path);
    }
    if right.contains(path) {
        let i = choose|i: int| 0 <= i < right.len() && right[i] == path;
        assert(whole[left.len() + i] == path);
    }
}

pub(crate) proof fn lemma_sources(snapshot: SnapshotView, path: PathView)
    ensures
        sources(snapshot).contains(path) <==> snapshot.source_path == Some(path)
            || forest_sources(snapshot.children).contains(path),
{
    if let Some(own) = snapshot.source_path {
        lemma_paths_concat(seq![own], forest_sources(snapshot.children), path);
        assert(seq![own].contains(path) <==> own == path) by {
            if own == path {
                assert(seq![own][0] == path);
            }
        }
    }
}

pub(crate) proof fn lemma_forest_source(snapshots: Seq<SnapshotView>, path: PathView) -> (i: int)
    requires
        forest_sources(snapshots).contains(path),
    ensures
        0 <= i < snapshots.len(),
        sources(snapshots[i]).contains(path),
    decreases snapshots.len(),
{
    lemma_paths_concat(forest_sources(snapshots.drop_last()), sources(snapshots.last()), path);
    if sources(snapshots.last()).contains(path) {
        snapshots.len() - 1
    } else {
        lemma_forest_source(snapshots.drop_last(), path)
    }
}

pub(crate) proof fn lemma_in_sources(snapshots: Seq<SnapshotView>, i: int, path: PathView)
    requires
        0 <= i < snapshots.len(),
        sources(snapshots[i]).contains(path),
    ensures
        forest_sources(snapshots).contains(path),
    decreases snapshots.len(),
{
    lemma_paths_concat(forest_sources(snapshots.drop_last()), sources(snapshots.last()), path);
    if i < snapshots.len() - 1 {
        lemma_in_sources(snapshots.drop_last(), i, path);
    }
}

/// When a snapshot is made into instances, every path in it leads to one of these,
/// and the other paths lead to where they led before.
pub proof fn law_reified_paths(
    instances: InstanceMap,
    notes: Notes,
    branch: Branch,
    snapshot: SnapshotView,
    path: PathView,
)
    requires
        mirrors(instances, branch, snapshot),
    ensures
        leads_to(
            notes.paths,
            reified_notes(notes, branch, snapshot).paths,
            path,
            sources(snapshot),
            branch_ids(branch),
        ),
    decreases snapshot,
{
    assert(forest_mirrors(instances, branch.children, snapshot.children));
    let placed = notes.placed(branch.id, snapshot).added(branch.id);
    lemma_forest_paths(instances, placed, branch.children, snapshot.children, path);
    let now = reified_notes(notes, branch, snapshot).paths;
    lemma_sources(snapshot, path);
    lemma_has(branch, now[path]);
    lemma_top(branch);
}

pub(crate) proof fn lemma_forest_paths(
    instances: InstanceMap,
    notes: Notes,
    forest: Seq<Branch>,
    snapshots: Seq<SnapshotView>,
    path: PathView,
)
    requires
        forest_mirrors(instances, forest, snapshots),
    ensures
        leads_to(
            notes.paths,
            reified_forest_notes(notes, forest, snapshots).paths,
            path,
            forest_sources(snapshots),
            forest_ids(forest),
        ),
    decreases snapshots,
{
    if snapshots.len() > 0 {
        assert forall|k: int| 0 <= k < forest.drop_last().len() implies mirrors(
            instances,
            #[trigger] forest.drop_last()[k],
            snapshots.drop_last()[k],
        ) by {
            assert(mirrors(instances, forest[k], snapshots[k]));
        }
        lemma_forest_paths(instances, notes, forest.drop_last(), snapshots.drop_last(), path);
        assert(mirrors(instances, forest[forest.len() - 1], snapshots[forest.len() - 1]));
        law_reified_paths(
            instances,
            reified_forest_notes(notes, forest.drop_last(), snapshots.drop_last()),
            forest.last(),
            snapshots.last(),
            path,
        );
        let now = reified_forest_notes(notes, forest, snapshots).paths;
        lemma_paths_concat(forest_sources(snapshots.drop_last()), sources(snapshots.last()), path);
        lemma_contains_concat(
            forest_ids(forest.drop_last()),
            branch_ids(forest.last()),
            now[path],
        );
    }
}

/// The snapshots that children go on as, in the order of the children.
pub open spec fn partners(snapshots: Seq<SnapshotView>, pairs: Seq<Option<int>>) -> Seq<
    SnapshotView,
> {
    Seq::new(kept(pairs).len(), |k: int| snapshots[pairs[kept(pairs)[k]]->0])
}

/// When instances are brought in line with a snapshot, every path in it leads to one
/// of these afterwards, and the other paths lead to where they led before.
pub proof fn law_reconciled_paths(
    instances: InstanceMap,
    branch: Branch,
    snapshot: SnapshotView,
    after: InstanceMap,
    result: Branch,
    notes: Notes,
    path: PathView,
)
    requires
        reconciled(instances, branch, snapshot, after, result),
    ensures
        leads_to(
            notes.paths,
            reconciled_notes(instances, branch, snapshot, result, notes).paths,
            path,
            sources(snapshot),
            branch_ids(result),
        ),
    decreases snapshot, 0nat,
{
    let pairs = pairing(child_names(instances, branch), snapshot.children);
    let going = kept(pairs);
    let coming = fresh(pairs, snapshot.children.len());
    law_pairing(child_names(instances, branch), snapshot.children);
    lemma_kept(pairs);
    lemma_fresh(pairs, snapshot.children.len());
    let placed = notes.placed(branch.id, snapshot);
    let updated = if differs(instances[branch.id], snapshot) {
        placed.updated(branch.id)
    } else {
        placed
    };
    let fresh_ones = result.children.skip(going.len() as int);
    let views = picked(snapshot.children, coming);
    let others = partners(snapshot.children, pairs);
    let added = reified_forest_notes(updated, fresh_ones, views);
    let removed = added.removed(lost_ids(branch.children, pairs));
    lemma_forest_paths(after, updated, fresh_ones, views, path);
    let new_ones = result.children.take(going.len() as int);
    assert forall|k: int|
        #![trigger new_ones[k]]
        #![trigger kept(pairs)[k]]
        0 <= k < new_ones.len() implies {
        &&& 0 <= pairs[kept(pairs)[k]]->0 < snapshot.children.len()
        &&& reconciled(
            instances,
            branch.children[kept(pairs)[k]],
            snapshot.children[pairs[kept(pairs)[k]]->0],
            after,
            new_ones[k],
        )
    } by {
        assert(new_ones[k] == result.children[k]);
    }
    lemma_paired_paths(
        instances,
        branch.children,
        snapshot.children,
        pairs,
        after,
        result.children,
        going.len(),
        removed,
        path,
    );
    assert(others.take(going.len() as int) =~= others);
    let now = reconciled_notes(instances, branch, snapshot, result, notes).paths;
    assert(result.children =~= new_ones + fresh_ones);
    lemma_forest_split(new_ones, fresh_ones);
    lemma_contains_concat(forest_ids(new_ones), forest_ids(fresh_ones), now[path]);
    lemma_has(result, now[path]);
    lemma_sources(snapshot, path);
    if forest_sources(snapshot.children).contains(path) {
        let j = lemma_forest_source(snapshot.children, path);
        if pairs.contains(Some(j)) {
            let i = choose|i: int| 0 <= i < pairs.len() && pairs[i] == Some(j);
            assert(going.contains(i));
            let k = choose|k: int| 0 <= k < going.len() && going[k] == i;
            assert(others[k] == snapshot.children[j]);
            lemma_in_sources(others, k, path);
        } else {
            assert(coming.contains(j));
            let k = choose|k: int| 0 <= k < coming.len() && coming[k] == j;
            assert(views[k] == snapshot.children[j]);
            lemma_in_sources(views, k, path);
        }
    }
    if forest_sources(others).contains(path) {
        let k = lemma_forest_source(others, path);
        assert(pairs[going[k]] is Some);
        lemma_in_sources(snapshot.children, pairs[going[k]]->0, path);
    }
    if forest_sources(views).contains(path) {
        let k = lemma_forest_source(views, path);
        lemma_in_sources(snapshot.children, coming[k], path);
    }
}

pub(crate) proof fn lemma_paired_paths(
    instances: InstanceMap,
    forest: Seq<Branch>,
    snapshots: Seq<SnapshotView>,
    pairs: Seq<Option<int>>,
    after: InstanceMap,
    results: Seq<Branch>,
    count: nat,
    notes: Notes,
    path: PathView,
)
    requires
        count <= kept(pairs).len(),
        count <= results.len(),
        forest_reconciled(
            instances,
            forest,
            snapshots,
            pairs,
            after,
            results.take(count as int),
        ),
    ensures
        leads_to(
            notes.paths,
            paired_notes(instances, forest, snapshots, pairs, results, count, notes).paths,
            path,
            forest_sources(partners(snapshots, pairs).take(count as int)),
            forest_ids(results.take(count as int)),
        ),
    decreases snapshots, count,
{
    let noted = partners(snapshots, pairs).take(count as int);
    let new_all = results.take(count as int);
    if count > 0 {
        let i = kept(pairs)[count - 1];
        let noted_first = partners(snapshots, pairs).take(count - 1);
        let new_first = results.take(count - 1);
        assert(noted.drop_last() =~= noted_first);
        assert(new_all.drop_last() =~= new_first);
        assert(noted.last() == snapshots[pairs[i]->0]);
        assert(new_all.last() == results[count - 1]);
        assert forall|k: int|
            #![trigger new_first[k]]
            #![trigger kept(pairs)[k]]
            0 <= k < new_first.len() implies {
            &&& 0 <= pairs[kept(pairs)[k]]->0 < snapshots.len()
            &&& reconciled(
                instances,
                forest[kept(pairs)[k]],
                snapshots[pairs[kept(pairs)[k]]->0],
                after,
                new_first[k],
            )
        } by {
            assert(new_first[k] == new_all[k]);
        }
        assert(new_all[count - 1] == results[count - 1]);
        lemma_paired_paths(
            instances,
            forest,
            snapshots,
            pairs,
            after,
            results,
            (count - 1) as nat,
            notes,
            path,
        );
        law_reconciled_paths(
            instances,
            forest[i],
            snapshots[pairs[i]->0],
            after,
            results[count - 1],
            paired_notes(
                instances,
                forest,
                snapshots,
                pairs,
                results,
                (count - 1) as nat,
                notes,
            ),
            path,
        );
        let now = paired_notes(
            instances,
            forest,
            snapshots,
            pairs,
            results,
            count,
            notes,
        ).paths;
        lemma_paths_concat(forest_sources(noted_first), sources(noted.last()), path);
        lemma_contains_concat(forest_ids(new_first), branch_ids(new_all.last()), now[path]);
    }
}

} // verus!
