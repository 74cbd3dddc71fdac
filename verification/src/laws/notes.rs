//! What is noted of an instance is what the snapshot says of it.
use crate::branch::{
    branch_ids, distinct, forest_ids, has_id, is_whole, lemma_below, lemma_contains_concat,
    lemma_forest_split, lemma_has, lemma_no_duplicates, lemma_stands_within, lemma_top_alone,
    Branch,
};
use crate::imfs::FsView;
use crate::laws::changes::law_reconciled_changes;
use crate::laws::metadata::{law_reconciled_metadata, lemma_forest_metadata, lemma_reified_metadata};
use crate::laws::paths::{
    forest_sources, law_reconciled_paths, law_reified_paths, lemma_forest_paths,
    lemma_forest_source, lemma_in_sources, lemma_paired_paths, lemma_paths_concat, lemma_sources,
    partners, sources,
};
use crate::laws::session::{lemma_done, lemma_parts};
use crate::pairing::{fresh, kept, law_pairing, lemma_fresh, lemma_kept, pairing};
use crate::path::{PathView, WrittenPath};
use crate::project::{InstanceProjectNodeMetadata, Project};
use crate::rbx_snapshot::SnapshotView;
use crate::reconcile::{
    child_names, differs, forest_reconciled, lost_ids, paired_notes, reconciled, reconciled_notes,
};
use crate::reify::{
    forest_mirrors, mirrors, picked, reified_forest_notes, reified_notes, resembles, ChangesView,
    Notes,
};
use crate::session::{
    announced, full_depth, makes, project_snapshots, session_notes, starts, update_target, updates,
    SessionView, UpdatePanicView, UpdateResult,
};
use crate::tree::{is_below, InstanceMap};
use crate::walk::{path_snapshots, SnapResult};
use vstd::prelude::*;

verus! {

/// Whether a snapshot is another or stands somewhere below it.
pub open spec fn is_part(whole: SnapshotView, part: SnapshotView) -> bool
    decreases whole,
{
    ||| whole == part
    ||| exists|i: int| 0 <= i < whole.children.len() && is_part(#[trigger] whole.children[i], part)
}

/// Whether a path leads to an instance that has the name, the class and the properties of a
/// part of the snapshot which comes from that path.
pub open spec fn leads_right(
    instances: InstanceMap,
    whole: SnapshotView,
    paths: Map<PathView, u128>,
    path: PathView,
) -> bool {
    exists|part: SnapshotView|
        {
            &&& #[trigger] is_part(whole, part)
            &&& part.source_path == Some(path)
            &&& paths.contains_key(path)
            &&& resembles(instances[paths[path]], part)
        }
}

/// Whether what is kept of an instance is what a part of the snapshot says which has the
/// name, the class and the properties of the instance; if that says nothing, it is what was
/// kept before.
pub open spec fn kept_right(
    instances: InstanceMap,
    whole: SnapshotView,
    before: Map<u128, InstanceProjectNodeMetadata>,
    now: Map<u128, InstanceProjectNodeMetadata>,
    id: u128,
) -> bool {
    exists|part: SnapshotView|
        {
            &&& #[trigger] is_part(whole, part)
            &&& resembles(instances[id], part)
            &&& match part.metadata {
                Some(metadata) => now.contains_key(id) && now[id] == metadata,
                None => same_at(before, now, id),
            }
        }
}

/// Whether the same is kept of an instance in two states.
pub open spec fn same_at(
    before: Map<u128, InstanceProjectNodeMetadata>,
    now: Map<u128, InstanceProjectNodeMetadata>,
    id: u128,
) -> bool {
    &&& now.contains_key(id) == before.contains_key(id)
    &&& now.contains_key(id) ==> now[id] == before[id]
}

proof fn lemma_part_below(whole: SnapshotView, i: int, part: SnapshotView)
    requires
        0 <= i < whole.children.len(),
        is_part(whole.children[i], part),
    ensures
        is_part(whole, part),
{
}

proof fn lemma_leads_below(
    instances: InstanceMap,
    whole: SnapshotView,
    i: int,
    paths: Map<PathView, u128>,
    path: PathView,
)
    requires
        0 <= i < whole.children.len(),
        leads_right(instances, whole.children[i], paths, path),
    ensures
        leads_right(instances, whole, paths, path),
{
    let part = choose|part: SnapshotView|
        {
            &&& #[trigger] is_part(whole.children[i], part)
            &&& part.source_path == Some(path)
            &&& paths.contains_key(path)
            &&& resembles(instances[paths[path]], part)
        };
    lemma_part_below(whole, i, part);
}

proof fn lemma_kept_below(
    instances: InstanceMap,
    whole: SnapshotView,
    i: int,
    before: Map<u128, InstanceProjectNodeMetadata>,
    now: Map<u128, InstanceProjectNodeMetadata>,
    id: u128,
)
    requires
        0 <= i < whole.children.len(),
        kept_right(instances, whole.children[i], before, now, id),
    ensures
        kept_right(instances, whole, before, now, id),
{
    let part = choose|part: SnapshotView|
        {
            &&& #[trigger] is_part(whole.children[i], part)
            &&& resembles(instances[id], part)
            &&& match part.metadata {
                Some(metadata) => now.contains_key(id) && now[id] == metadata,
                None => same_at(before, now, id),
            }
        };
    lemma_part_below(whole, i, part);
}

proof fn lemma_kept_on(
    instances: InstanceMap,
    whole: SnapshotView,
    first: Map<u128, InstanceProjectNodeMetadata>,
    before: Map<u128, InstanceProjectNodeMetadata>,
    now: Map<u128, InstanceProjectNodeMetadata>,
    last: Map<u128, InstanceProjectNodeMetadata>,
    id: u128,
)
    requires
        kept_right(instances, whole, before, now, id),
        same_at(first, before, id),
        same_at(now, last, id),
    ensures
        kept_right(instances, whole, first, last, id),
{
    let part = choose|part: SnapshotView|
        {
            &&& #[trigger] is_part(whole, part)
            &&& resembles(instances[id], part)
            &&& match part.metadata {
                Some(metadata) => now.contains_key(id) && now[id] == metadata,
                None => same_at(before, now, id),
            }
        };
    assert(is_part(whole, part));
}

/// When a snapshot is made into instances, every path in it leads to the instance that was
/// made of what comes from there.
pub proof fn law_reified_paths_lead_right(
    instances: InstanceMap,
    notes: Notes,
    branch: Branch,
    snapshot: SnapshotView,
    path: PathView,
)
    requires
        mirrors(instances, branch, snapshot),
        sources(snapshot).contains(path),
    ensures
        leads_right(instances, snapshot, reified_notes(notes, branch, snapshot).paths, path),
    decreases snapshot,
{
    assert(forest_mirrors(instances, branch.children, snapshot.children));
    let placed = notes.placed(branch.id, snapshot).added(branch.id);
    lemma_sources(snapshot, path);
    if forest_sources(snapshot.children).contains(path) {
        let k = lemma_forest_leads(instances, placed, branch.children, snapshot.children, path);
        lemma_leads_below(
            instances,
            snapshot,
            k,
            reified_notes(notes, branch, snapshot).paths,
            path,
        );
    } else {
        lemma_forest_paths(
            instances,
            placed,
            branch.children,
            snapshot.children,
            path,
        );
        assert(is_part(snapshot, snapshot));
    }
}

proof fn lemma_forest_leads(
    instances: InstanceMap,
    notes: Notes,
    forest: Seq<Branch>,
    snapshots: Seq<SnapshotView>,
    path: PathView,
) -> (k: int)
    requires
        forest_mirrors(instances, forest, snapshots),
        forest_sources(snapshots).contains(path),
    ensures
        0 <= k < snapshots.len(),
        leads_right(
            instances,
            snapshots[k],
            reified_forest_notes(notes, forest, snapshots).paths,
            path,
        ),
    decreases snapshots,
{
    assert forall|k: int| 0 <= k < forest.drop_last().len() implies mirrors(
        instances,
        #[trigger] forest.drop_last()[k],
        snapshots.drop_last()[k],
    ) by {
        assert(mirrors(instances, forest[k], snapshots[k]));
    }
    assert(mirrors(instances, forest[forest.len() - 1], snapshots[forest.len() - 1]));
    let earlier = reified_forest_notes(notes, forest.drop_last(), snapshots.drop_last());
    lemma_paths_concat(forest_sources(snapshots.drop_last()), sources(snapshots.last()), path);
    if sources(snapshots.last()).contains(path) {
        law_reified_paths_lead_right(instances, earlier, forest.last(), snapshots.last(), path);
        snapshots.len() - 1
    } else {
        let k = lemma_forest_leads(
            instances,
            notes,
            forest.drop_last(),
            snapshots.drop_last(),
            path,
        );
        law_reified_paths(instances, earlier, forest.last(), snapshots.last(), path);
        lemma_leads_on(
            instances,
            snapshots[k],
            earlier.paths,
            reified_forest_notes(notes, forest, snapshots).paths,
            path,
        );
        k
    }
}

proof fn lemma_leads_on(
    instances: InstanceMap,
    whole: SnapshotView,
    paths: Map<PathView, u128>,
    later: Map<PathView, u128>,
    path: PathView,
)
    requires
        leads_right(instances, whole, paths, path),
        later.contains_key(path),
        later[path] == paths[path],
    ensures
        leads_right(instances, whole, later, path),
{
    let part = choose|part: SnapshotView|
        {
            &&& #[trigger] is_part(whole, part)
            &&& part.source_path == Some(path)
            &&& paths.contains_key(path)
            &&& resembles(instances[paths[path]], part)
        };
    assert(is_part(whole, part));
}

/// When instances are brought in line with a snapshot, every path in it leads to the instance
/// that is now what comes from there.
pub proof fn law_reconciled_paths_lead_right(
    instances: InstanceMap,
    branch: Branch,
    snapshot: SnapshotView,
    after: InstanceMap,
    result: Branch,
    notes: Notes,
    path: PathView,
)
    requires
        reconciled(instances, branch, snapshot, after, result),
        sources(snapshot).contains(path),
    ensures
        leads_right(
            after,
            snapshot,
            reconciled_notes(instances, branch, snapshot, result, notes).paths,
            path,
        ),
    decreases snapshot, 0nat,
{
    let pairs = pairing(child_names(instances, branch), snapshot.children);
    let going = kept(pairs);
    let coming = fresh(pairs, snapshot.children.len());
    law_pairing(child_names(instances, branch), snapshot.children);
    lemma_kept(pairs);
    lemma_fresh(pairs, snapshot.children.len());
    let placed = notes.placed(branch.id, snapshot);
    let updated = if differs(instances[branch.id], snapshot) {
        placed.updated(branch.id)
    } else {
        placed
    };
    let fresh_ones = result.children.skip(going.len() as int);
    let views = picked(snapshot.children, coming);
    let others = partners(snapshot.children, pairs);
    let added = reified_forest_notes(updated, fresh_ones, views);
    let removed = added.removed(lost_ids(branch.children, pairs));
    let new_ones = result.children.take(going.len() as int);
    let now = reconciled_notes(instances, branch, snapshot, result, notes).paths;
    assert forall|k: int|
        #![trigger new_ones[k]]
        #![trigger kept(pairs)[k]]
        0 <= k < new_ones.len() implies {
        &&& 0 <= pairs[kept(pairs)[k]]->0 < snapshot.children.len()
        &&& reconciled(
            instances,
            branch.children[kept(pairs)[k]],
            snapshot.children[pairs[kept(pairs)[k]]->0],
            after,
            new_ones[k],
        )
    } by {
        assert(new_ones[k] == result.children[k]);
    }
    assert(others.take(going.len() as int) =~= others);
    if forest_sources(others).contains(path) {
        let k = lemma_paired_lead(
            instances,
            branch.children,
            snapshot.children,
            pairs,
            after,
            result.children,
            going.len(),
            removed,
            path,
        );
        assert(pairs[going[k]] is Some);
        lemma_leads_below(after, snapshot, pairs[going[k]]->0, now, path);
    } else {
        lemma_paired_paths(
            instances,
            branch.children,
            snapshot.children,
            pairs,
            after,
            result.children,
            going.len(),
            removed,
            path,
        );
        if forest_sources(views).contains(path) {
            let k = lemma_forest_leads(after, updated, fresh_ones, views, path);
            lemma_leads_on(after, views[k], added.paths, now, path);
            lemma_leads_below(after, snapshot, coming[k], now, path);
        } else {
            lemma_forest_paths(after, updated, fresh_ones, views, path);
            lemma_sources(snapshot, path);
            if forest_sources(snapshot.children).contains(path) {
                let j = lemma_forest_source(snapshot.children, path);
                if pairs.contains(Some(j)) {
                    let i = choose|i: int| 0 <= i < pairs.len() && pairs[i] == Some(j);
                    assert(going.contains(i));
                    let k = choose|k: int| 0 <= k < going.len() && going[k] == i;
                    assert(others[k] == snapshot.children[j]);
                    lemma_in_sources(others, k, path);
                } else {
                    assert(coming.contains(j));
                    let k = choose|k: int| 0 <= k < coming.len() && coming[k] == j;
                    assert(views[k] == snapshot.children[j]);
                    lemma_in_sources(views, k, path);
                }
            }
            assert(is_part(snapshot, snapshot));
        }
    }
}

proof fn lemma_paired_lead(
    instances: InstanceMap,
    forest: Seq<Branch>,
    snapshots: Seq<SnapshotView>,
    pairs: Seq<Option<int>>,
    after: InstanceMap,
    results: Seq<Branch>,
    count: nat,
    notes: Notes,
    path: PathView,
) -> (k: int)
    requires
        count <= kept(pairs).len(),
        count <= results.len(),
        forest_reconciled(
            instances,
            forest,
            snapshots,
            pairs,
            after,
            results.take(count as int),
        ),
        forest_sources(partners(snapshots, pairs).take(count as int)).contains(path),
    ensures
        0 <= k < count,
        leads_right(
            after,
            snapshots[pairs[kept(pairs)[k]]->0],
            paired_notes(instances, forest, snapshots, pairs, results, count, notes).paths,
            path,
        ),
    decreases snapshots, count,
{
    let noted = partners(snapshots, pairs).take(count as int);
    let new_all = results.take(count as int);
    let i = kept(pairs)[count - 1];
    let noted_first = partners(snapshots, pairs).take(count - 1);
    let new_first = results.take(count - 1);
    assert(noted.drop_last() =~= noted_first);
    assert(new_all.drop_last() =~= new_first);
    assert(noted.last() == snapshots[pairs[i]->0]);
    assert forall|k: int|
        #![trigger new_first[k]]
        #![trigger kept(pairs)[k]]
        0 <= k < new_first.len() implies {
        &&& 0 <= pairs[kept(pairs)[k]]->0 < snapshots.len()
        &&& reconciled(
            instances,
            forest[kept(pairs)[k]],
            snapshots[pairs[kept(pairs)[k]]->0],
            after,
            new_first[k],
        )
    } by {
        assert(new_first[k] == new_all[k]);
    }
    assert(new_all[count - 1] == results[count - 1]);
    let before = paired_notes(
        instances,
        forest,
        snapshots,
        pairs,
        results,
        (count - 1) as nat,
        notes,
    );
    let now = paired_notes(instances, forest, snapshots, pairs, results, count, notes);
    let own = snapshots[pairs[i]->0];
    lemma_paths_concat(forest_sources(noted_first), sources(noted.last()), path);
    if sources(own).contains(path) {
        law_reconciled_paths_lead_right(
            instances,
            forest[i],
            own,
            after,
            results[count - 1],
            before,
            path,
        );
        count - 1
    } else {
        let k = lemma_paired_lead(
            instances,
            forest,
            snapshots,
            pairs,
            after,
            results,
            (count - 1) as nat,
            notes,
            path,
        );
        law_reconciled_paths(
            instances,
            forest[i],
            own,
            after,
            results[count - 1],
            before,
            path,
        );
        lemma_leads_on(
            after,
            snapshots[pairs[kept(pairs)[k]]->0],
            before.paths,
            now.paths,
            path,
        );
        k
    }
}

/// When a snapshot is made into instances, what it says of each of them is kept.
pub proof fn law_reified_metadata_is_right(
    instances: InstanceMap,
    notes: Notes,
    branch: Branch,
    snapshot: SnapshotView,
    id: u128,
)
    requires
        mirrors(instances, branch, snapshot),
        distinct(branch),
        has_id(branch, id),
    ensures
        kept_right(
            instances,
            snapshot,
            notes.metadata,
            reified_notes(notes, branch, snapshot).metadata,
            id,
        ),
    decreases snapshot,
{
    assert(forest_mirrors(instances, branch.children, snapshot.children));
    let placed = notes.placed(branch.id, snapshot).added(branch.id);
    let now = reified_notes(notes, branch, snapshot).metadata;
    lemma_has(branch, id);
    lemma_top_alone(branch);
    lemma_no_duplicates(seq![branch.id], forest_ids(branch.children));
    if id == branch.id {
        lemma_forest_metadata(instances, placed, branch.children, snapshot.children, id);
        assert(is_part(snapshot, snapshot));
    } else {
        let k = lemma_forest_kept(instances, placed, branch.children, snapshot.children, id);
        lemma_kept_on(
            instances,
            snapshot.children[k],
            notes.metadata,
            placed.metadata,
            now,
            now,
            id,
        );
        lemma_kept_below(instances, snapshot, k, notes.metadata, now, id);
    }
}

proof fn lemma_forest_kept(
    instances: InstanceMap,
    notes: Notes,
    forest: Seq<Branch>,
    snapshots: Seq<SnapshotView>,
    id: u128,
) -> (k: int)
    requires
        forest_mirrors(instances, forest, snapshots),
        forest_ids(forest).no_duplicates(),
        forest_ids(forest).contains(id),
    ensures
        0 <= k < snapshots.len(),
        kept_right(
            instances,
            snapshots[k],
            notes.metadata,
            reified_forest_notes(notes, forest, snapshots).metadata,
            id,
        ),
    decreases snapshots,
{
    assert forall|k: int| 0 <= k < forest.drop_last().len() implies mirrors(
        instances,
        #[trigger] forest.drop_last()[k],
        snapshots.drop_last()[k],
    ) by {
        assert(mirrors(instances, forest[k], snapshots[k]));
    }
    assert(mirrors(instances, forest[forest.len() - 1], snapshots[forest.len() - 1]));
    let earlier = reified_forest_notes(notes, forest.drop_last(), snapshots.drop_last());
    let now = reified_forest_notes(notes, forest, snapshots).metadata;
    let left = forest_ids(forest.drop_last());
    let right = branch_ids(forest.last());
    lemma_contains_concat(left, right, id);
    lemma_no_duplicates(left, right);
    if right.contains(id) {
        assert(!left.contains(id));
        lemma_forest_metadata(instances, notes, forest.drop_last(), snapshots.drop_last(), id);
        law_reified_metadata_is_right(instances, earlier, forest.last(), snapshots.last(), id);
        lemma_kept_on(
            instances,
            snapshots.last(),
            notes.metadata,
            earlier.metadata,
            now,
            now,
            id,
        );
        snapshots.len() - 1
    } else {
        let k = lemma_forest_kept(
            instances,
            notes,
            forest.drop_last(),
            snapshots.drop_last(),
            id,
        );
        lemma_reified_metadata(
            instances,
            earlier,
            forest.last(),
            snapshots.last(),
            id,
        );
        lemma_kept_on(
            instances,
            snapshots[k],
            notes.metadata,
            notes.metadata,
            earlier.metadata,
            now,
            id,
        );
        k
    }
}

/// When instances are brought in line with a snapshot, what it says of each of them is kept,
/// unless it is announced as removed.
pub proof fn law_reconciled_metadata_is_right(
    instances: InstanceMap,
    branch: Branch,
    snapshot: SnapshotView,
    after: InstanceMap,
    result: Branch,
    notes: Notes,
    id: u128,
)
    requires
        reconciled(instances, branch, snapshot, after, result),
        distinct(result),
        has_id(result, id),
        !reconciled_notes(instances, branch, snapshot, result, notes).changes.removed.contains(id),
    ensures
        kept_right(
            after,
            snapshot,
            notes.metadata,
            reconciled_notes(instances, branch, snapshot, result, notes).metadata,
            id,
        ),
    decreases snapshot, 0nat,
{
    let pairs = pairing(child_names(instances, branch), snapshot.children);
    let going = kept(pairs);
    let coming = fresh(pairs, snapshot.children.len());
    law_pairing(child_names(instances, branch), snapshot.children);
    lemma_kept(pairs);
    lemma_fresh(pairs, snapshot.children.len());
    let placed = notes.placed(branch.id, snapshot);
    let updated = if differs(instances[branch.id], snapshot) {
        placed.updated(branch.id)
    } else {
        placed
    };
    let fresh_ones = result.children.skip(going.len() as int);
    let views = picked(snapshot.children, coming);
    let added = reified_forest_notes(updated, fresh_ones, views);
    let removed = added.removed(lost_ids(branch.children, pairs));
    let new_ones = result.children.take(going.len() as int);
    let now = reconciled_notes(instances, branch, snapshot, result, notes);
    assert forall|k: int|
        #![trigger new_ones[k]]
        #![trigger kept(pairs)[k]]
        0 <= k < new_ones.len() implies {
        &&& 0 <= pairs[kept(pairs)[k]]->0 < snapshot.children.len()
        &&& reconciled(
            instances,
            branch.children[kept(pairs)[k]],
            snapshot.children[pairs[kept(pairs)[k]]->0],
            after,
            new_ones[k],
        )
    } by {
        assert(new_ones[k] == result.children[k]);
    }
    assert(result.children =~= new_ones + fresh_ones);
    lemma_forest_split(new_ones, fresh_ones);
    lemma_contains_concat(forest_ids(new_ones), forest_ids(fresh_ones), id);
    lemma_no_duplicates(seq![result.id], forest_ids(result.children));
    lemma_no_duplicates(forest_ids(new_ones), forest_ids(fresh_ones));
    lemma_top_alone(result);
    lemma_has(result, id);
    lemma_paired_removed(
        instances,
        branch.children,
        snapshot.children,
        pairs,
        after,
        result.children,
        going.len(),
        removed,
        id,
    );
    assert(!lost_ids(branch.children, pairs).contains(id));
    assert(same_at(added.metadata, removed.metadata, id));
    if forest_ids(new_ones).contains(id) {
        assert(!forest_ids(fresh_ones).contains(id));
        lemma_forest_metadata(after, updated, fresh_ones, views, id);
        let k = lemma_paired_kept(
            instances,
            branch.children,
            snapshot.children,
            pairs,
            after,
            result.children,
            going.len(),
            removed,
            id,
        );
        let child = snapshot.children[pairs[going[k]]->0];
        lemma_kept_on(
            after,
            child,
            notes.metadata,
            removed.metadata,
            now.metadata,
            now.metadata,
            id,
        );
        lemma_kept_below(
            after,
            snapshot,
            pairs[going[k]]->0,
            notes.metadata,
            now.metadata,
            id,
        );
    } else {
        lemma_paired_same(
            instances,
            branch.children,
            snapshot.children,
            pairs,
            after,
            result.children,
            going.len(),
            removed,
            id,
        );
        if forest_ids(fresh_ones).contains(id) {
            let k = lemma_forest_kept(after, updated, fresh_ones, views, id);
            lemma_kept_on(
                after,
                views[k],
                notes.metadata,
                updated.metadata,
                added.metadata,
                now.metadata,
                id,
            );
            lemma_kept_below(after, snapshot, coming[k], notes.metadata, now.metadata, id);
        } else {
            lemma_forest_metadata(after, updated, fresh_ones, views, id);
            assert(is_part(snapshot, snapshot));
        }
    }
}

/// What is announced as removed stays so.
proof fn lemma_paired_removed(
    instances: InstanceMap,
    forest: Seq<Branch>,
    snapshots: Seq<SnapshotView>,
    pairs: Seq<Option<int>>,
    after: InstanceMap,
    results: Seq<Branch>,
    count: nat,
    notes: Notes,
    id: u128,
)
    requires
        count <= kept(pairs).len(),
        count <= results.len(),
        forest_reconciled(
            instances,
            forest,
            snapshots,
            pairs,
            after,
            results.take(count as int),
        ),
    ensures
        notes.changes.removed.contains(id) ==> paired_notes(
            instances,
            forest,
            snapshots,
            pairs,
            results,
            count,
            notes,
        ).changes.removed.contains(id),
    decreases count,
{
    if count > 0 {
        let i = kept(pairs)[count - 1];
        let new_all = results.take(count as int);
        let new_first = results.take(count - 1);
        assert forall|k: int|
            #![trigger new_first[k]]
            #![trigger kept(pairs)[k]]
            0 <= k < new_first.len() implies {
            &&& 0 <= pairs[kept(pairs)[k]]->0 < snapshots.len()
            &&& reconciled(
                instances,
                forest[kept(pairs)[k]],
                snapshots[pairs[kept(pairs)[k]]->0],
                after,
                new_first[k],
            )
        } by {
            assert(new_first[k] == new_all[k]);
        }
        assert(new_all[count - 1] == results[count - 1]);
        lemma_paired_removed(
            instances,
            forest,
            snapshots,
            pairs,
            after,
            results,
            (count - 1) as nat,
            notes,
            id,
        );
        let before = paired_notes(
            instances,
            forest,
            snapshots,
            pairs,
            results,
            (count - 1) as nat,
            notes,
        );
        law_reconciled_changes(
            instances,
            forest[i],
            snapshots[pairs[i]->0],
            after,
            results[count - 1],
            before,
            id,
        );
    }
}

/// Of an instance that is in none of the results, and not announced as removed, the same is
/// kept as before.
proof fn lemma_paired_same(
    instances: InstanceMap,
    forest: Seq<Branch>,
    snapshots: Seq<SnapshotView>,
    pairs: Seq<Option<int>>,
    after: InstanceMap,
    results: Seq<Branch>,
    count: nat,
    notes: Notes,
    id: u128,
)
    requires
        count <= kept(pairs).len(),
        count <= results.len(),
        forest_reconciled(
            instances,
            forest,
            snapshots,
            pairs,
            after,
            results.take(count as int),
        ),
        !forest_ids(results.take(count as int)).contains(id),
        !paired_notes(
            instances,
            forest,
            snapshots,
            pairs,
            results,
            count,
            notes,
        ).changes.removed.contains(id),
    ensures
        same_at(
            notes.metadata,
            paired_notes(instances, forest, snapshots, pairs, results, count, notes).metadata,
            id,
        ),
    decreases count,
{
    if count > 0 {
        let i = kept(pairs)[count - 1];
        let new_all = results.take(count as int);
        let new_first = results.take(count - 1);
        assert(new_all.drop_last() =~= new_first);
        assert(new_all.last() == results[count - 1]);
        lemma_contains_concat(forest_ids(new_first), branch_ids(new_all.last()), id);
        assert forall|k: int|
            #![trigger new_first[k]]
            #![trigger kept(pairs)[k]]
            0 <= k < new_first.len() implies {
            &&& 0 <= pairs[kept(pairs)[k]]->0 < snapshots.len()
            &&& reconciled(
                instances,
                forest[kept(pairs)[k]],
                snapshots[pairs[kept(pairs)[k]]->0],
                after,
                new_first[k],
            )
        } by {
            assert(new_first[k] == new_all[k]);
        }
        assert(new_all[count - 1] == results[count - 1]);
        let before = paired_notes(
            instances,
            forest,
            snapshots,
            pairs,
            results,
            (count - 1) as nat,
            notes,
        );
        law_reconciled_changes(
            instances,
            forest[i],
            snapshots[pairs[i]->0],
            after,
            results[count - 1],
            before,
            id,
        );
        lemma_paired_same(
            instances,
            forest,
            snapshots,
            pairs,
            after,
            results,
            (count - 1) as nat,
            notes,
            id,
        );
        law_reconciled_metadata(
            instances,
            forest[i],
            snapshots[pairs[i]->0],
            after,
            results[count - 1],
            before,
            id,
        );
    }
}

proof fn lemma_paired_kept(
    instances: InstanceMap,
    forest: Seq<Branch>,
    snapshots: Seq<SnapshotView>,
    pairs: Seq<Option<int>>,
    after: InstanceMap,
    results: Seq<Branch>,
    count: nat,
    notes: Notes,
    id: u128,
) -> (k: int)
    requires
        count <= kept(pairs).len(),
        count <= results.len(),
        forest_reconciled(
            instances,
            forest,
            snapshots,
            pairs,
            after,
            results.take(count as int),
        ),
        forest_ids(results.take(count as int)).no_duplicates(),
        forest_ids(results.take(count as int)).contains(id),
        !paired_notes(
            instances,
            forest,
            snapshots,
            pairs,
            results,
            count,
            notes,
        ).changes.removed.contains(id),
    ensures
        0 <= k < count,
        kept_right(
            after,
            snapshots[pairs[kept(pairs)[k]]->0],
            notes.metadata,
            paired_notes(instances, forest, snapshots, pairs, results, count, notes).metadata,
            id,
        ),
    decreases snapshots, count,
{
    let i = kept(pairs)[count - 1];
    let new_all = results.take(count as int);
    let new_first = results.take(count - 1);
    assert(new_all.drop_last() =~= new_first);
    assert(new_all.last() == results[count - 1]);
    let left = forest_ids(new_first);
    let right = branch_ids(new_all.last());
    lemma_contains_concat(left, right, id);
    lemma_no_duplicates(left, right);
    assert forall|k: int|
        #![trigger new_first[k]]
        #![trigger kept(pairs)[k]]
        0 <= k < new_first.len() implies {
        &&& 0 <= pairs[kept(pairs)[k]]->0 < snapshots.len()
        &&& reconciled(
            instances,
            forest[kept(pairs)[k]],
            snapshots[pairs[kept(pairs)[k]]->0],
            after,
            new_first[k],
        )
    } by {
        assert(new_first[k] == new_all[k]);
    }
    assert(new_all[count - 1] == results[count - 1]);
    let before = paired_notes(
        instances,
        forest,
        snapshots,
        pairs,
        results,
        (count - 1) as nat,
        notes,
    );
    let now = paired_notes(instances, forest, snapshots, pairs, results, count, notes);
    let own = snapshots[pairs[i]->0];
    law_reconciled_changes(
        instances,
        forest[i],
        own,
        after,
        results[count - 1],
        before,
        id,
    );
    if right.contains(id) {
        assert(!left.contains(id));
        law_reconciled_metadata_is_right(
            instances,
            forest[i],
            own,
            after,
            results[count - 1],
            before,
            id,
        );
        lemma_paired_same(
            instances,
            forest,
            snapshots,
            pairs,
            after,
            results,
            (count - 1) as nat,
            notes,
            id,
        );
        lemma_kept_on(
            after,
            own,
            notes.metadata,
            before.metadata,
            now.metadata,
            now.metadata,
            id,
        );
        count - 1
    } else {
        let k = lemma_paired_kept(
            instances,
            forest,
            snapshots,
            pairs,
            after,
            results,
            (count - 1) as nat,
            notes,
            id,
        );
        law_reconciled_metadata(
            instances,
            forest[i],
            own,
            after,
            results[count - 1],
            before,
            id,
        );
        lemma_kept_on(
            after,
            snapshots[pairs[kept(pairs)[k]]->0],
            notes.metadata,
            notes.metadata,
            before.metadata,
            now.metadata,
            id,
        );
        k
    }
}

/// After an update with a snapshot, every path in the snapshot leads to an instance that is
/// now what comes from there.
pub proof fn law_update_paths_lead_right(
    fs: FsView,
    roots: Seq<WrittenPath>,
    path: PathView,
    before: SessionView,
    result: UpdateResult,
    after: SessionView,
    id: u128,
    target: WrittenPath,
) -> (own: SnapResult)
    requires
        updates(fs, roots, path, before, result, after),
        update_target(roots, before.paths, path) == Ok::<(u128, WrittenPath), UpdatePanicView>(
            (id, target),
        ),
        result is Ok,
    ensures
        path_snapshots(full_depth(), fs, target, before.points, own, after.points),
        own matches Ok(Some(snapshot)) ==> forall|noted: PathView| #[trigger]
            sources(snapshot).contains(noted) ==> leads_right(
                after.instances,
                snapshot,
                after.paths,
                noted,
            ),
{
    let own = lemma_done(fs, roots, path, before, result, after, id, target);
    if let Ok(Some(snapshot)) = own {
        let notes = session_notes(before.paths, before.metadata, ChangesView::none());
        let (branch, outcome) = lemma_parts(before, after, id, snapshot, result);
        assert forall|noted: PathView| #[trigger] sources(snapshot).contains(noted) implies leads_right(
            after.instances,
            snapshot,
            after.paths,
            noted,
        ) by {
            law_reconciled_paths_lead_right(
                before.instances,
                branch,
                snapshot,
                after.instances,
                outcome,
                notes,
                noted,
            );
        }
    }
    own
}

/// An update leaves alone what is noted of paths that the snapshot holds no instance from.
pub proof fn law_update_other_paths(
    fs: FsView,
    roots: Seq<WrittenPath>,
    path: PathView,
    before: SessionView,
    result: UpdateResult,
    after: SessionView,
    id: u128,
    target: WrittenPath,
    other: PathView,
) -> (own: SnapResult)
    requires
        updates(fs, roots, path, before, result, after),
        update_target(roots, before.paths, path) == Ok::<(u128, WrittenPath), UpdatePanicView>(
            (id, target),
        ),
    ensures
        path_snapshots(full_depth(), fs, target, before.points, own, after.points),
        match own {
            Ok(Some(snapshot)) => !sources(snapshot).contains(other) ==> {
                &&& after.paths.contains_key(other) == before.paths.contains_key(other)
                &&& after.paths.contains_key(other) ==> after.paths[other] == before.paths[other]
            },
            _ => after.paths == before.paths,
        },
{
    let own = lemma_done(fs, roots, path, before, result, after, id, target);
    if let Ok(Some(snapshot)) = own {
        if before.instances.contains_key(id) {
            let notes = session_notes(before.paths, before.metadata, ChangesView::none());
            let (branch, outcome) = lemma_parts(before, after, id, snapshot, result);
            law_reconciled_paths(
                before.instances,
                branch,
                snapshot,
                after.instances,
                outcome,
                notes,
                other,
            );
        }
    }
    own
}

/// After an update with a snapshot, what the snapshot says of the instance that it concerns,
/// and of those below it, is kept, unless it is announced as removed. Of instances that are
/// gone nothing is kept, and of all others the same as before.
pub proof fn law_update_metadata(
    fs: FsView,
    roots: Seq<WrittenPath>,
    path: PathView,
    before: SessionView,
    result: UpdateResult,
    after: SessionView,
    id: u128,
    target: WrittenPath,
    other: u128,
) -> (own: SnapResult)
    requires
        updates(fs, roots, path, before, result, after),
        update_target(roots, before.paths, path) == Ok::<(u128, WrittenPath), UpdatePanicView>(
            (id, target),
        ),
        result is Ok,
    ensures
        path_snapshots(full_depth(), fs, target, before.points, own, after.points),
        match own {
            Ok(Some(snapshot)) => {
                &&& is_below(after.instances, id, other) && !announced(result).removed.contains(
                    other,
                ) ==> kept_right(
                    after.instances,
                    snapshot,
                    before.metadata,
                    after.metadata,
                    other,
                )
                &&& is_below(before.instances, id, other) && !after.instances.contains_key(other)
                    ==> !after.metadata.contains_key(other)
                &&& !is_below(before.instances, id, other) && !is_below(after.instances, id, other)
                    ==> same_at(before.metadata, after.metadata, other)
            },
            _ => after.metadata == before.metadata,
        },
{
    let own = lemma_done(fs, roots, path, before, result, after, id, target);
    if let Ok(Some(snapshot)) = own {
        let notes = session_notes(before.paths, before.metadata, ChangesView::none());
        let (branch, outcome) = lemma_parts(before, after, id, snapshot, result);
        lemma_below(before.instances, branch, other);
        lemma_below(after.instances, outcome, other);
        law_reconciled_metadata(
            before.instances,
            branch,
            snapshot,
            after.instances,
            outcome,
            notes,
            other,
        );
        if has_id(outcome, other) && !announced(result).removed.contains(other) {
            law_reconciled_metadata_is_right(
                before.instances,
                branch,
                snapshot,
                after.instances,
                outcome,
                notes,
                other,
            );
        }
        if has_id(outcome, other) {
            lemma_stands_within(after.instances, outcome, other);
        }
    }
    own
}

/// A session starts with every path leading to an instance that is what comes from there,
/// and with what the manifest says of each instance.
pub proof fn law_start_notes(fs: FsView, project: Project, session: SessionView) -> (shown: (
    SnapshotView,
    Branch,
))
    requires
        starts(fs, project, session),
    ensures
        project_snapshots(fs, project, Ok(shown.0), session.points),
        is_whole(session.instances, session.root, shown.1),
        mirrors(session.instances, shown.1, shown.0),
        forall|noted: PathView| #[trigger]
            sources(shown.0).contains(noted) ==> leads_right(
                session.instances,
                shown.0,
                session.paths,
                noted,
            ),
        forall|id: u128| #[trigger]
            session.instances.contains_key(id) ==> kept_right(
                session.instances,
                shown.0,
                Map::empty(),
                session.metadata,
                id,
            ),
{
    let notes = session_notes(Map::empty(), Map::empty(), ChangesView::none());
    let snapshot = choose|snapshot: SnapshotView|
        {
            &&& #[trigger] project_snapshots(fs, project, Ok(snapshot), session.points)
            &&& makes(
                snapshot,
                notes,
                session.instances,
                session.root,
                session.paths,
                session.metadata,
            )
        };
    let branch = choose|branch: Branch|
        {
            &&& #[trigger] is_whole(session.instances, session.root, branch)
            &&& mirrors(session.instances, branch, snapshot)
            &&& session.paths == reified_notes(notes, branch, snapshot).paths
            &&& session.metadata == reified_notes(notes, branch, snapshot).metadata
        };
    assert forall|noted: PathView| #[trigger] sources(snapshot).contains(noted) implies leads_right(
        session.instances,
        snapshot,
        session.paths,
        noted,
    ) by {
        law_reified_paths_lead_right(session.instances, notes, branch, snapshot, noted);
    }
    assert forall|id: u128| #[trigger] session.instances.contains_key(id) implies kept_right(
        session.instances,
        snapshot,
        Map::empty(),
        session.metadata,
        id,
    ) by {
        law_reified_metadata_is_right(session.instances, notes, branch, snapshot, id);
    }
    (snapshot, branch)
}

} // verus!
