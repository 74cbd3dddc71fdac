//! When updates succeed, when they fail, and what is left then.
use crate::branch::stands;
use crate::imfs::FsView;
use crate::laws::kept::law_children_stay;
use crate::laws::session::{law_update_announces, lemma_done, lemma_parts};
use crate::path::{PathView, WrittenPath};
use crate::reconcile::tells_of;
use crate::reify::ChangesView;
use crate::session::{
    announced, full_depth, update_target, updates, SessionView, UpdatePanicView, UpdateResult,
};
use crate::sync_point::PointsView;
use crate::walk::{path_snapshots, SnapResult};
use vstd::prelude::*;

verus! {

/// Whether two sessions are the same but for the sync points that are remembered.
pub open spec fn same_but_points(left: SessionView, right: SessionView) -> bool {
    &&& left.instances == right.instances
    &&& left.root == right.root
    &&& left.paths == right.paths
    &&& left.metadata == right.metadata
}

/// A session with other sync points is else the same.
pub proof fn law_with_points(session: SessionView, points: PointsView)
    ensures
        same_but_points(session.with_points(points), session),
        session.with_points(points).points == points,
{
}

/// An update fails if the change concerns no instance, if the snapshot fails, or if the
/// instance is no longer in the tree, and then nothing changes but what is remembered. It
/// succeeds in all other cases; without an instance in the snapshot nothing changes either,
/// and nothing is announced.
pub proof fn law_update_outcome(
    fs: FsView,
    roots: Seq<WrittenPath>,
    path: PathView,
    before: SessionView,
    result: UpdateResult,
    after: SessionView,
) -> (own: SnapResult)
    requires
        updates(fs, roots, path, before, result, after),
    ensures
        match update_target(roots, before.paths, path) {
            Err(panic) => result == Err::<Option<ChangesView>, UpdatePanicView>(panic) && after
                == before,
            Ok((id, target)) => {
                &&& path_snapshots(full_depth(), fs, target, before.points, own, after.points)
                &&& match own {
                    Err(failure) => {
                        &&& result == Err::<Option<ChangesView>, UpdatePanicView>(
                            UpdatePanicView::Snapshot { path: target, failure },
                        )
                        &&& same_but_points(after, before)
                    },
                    Ok(None) => {
                        &&& result == Ok::<Option<ChangesView>, UpdatePanicView>(None)
                        &&& same_but_points(after, before)
                    },
                    Ok(Some(_)) => if before.instances.contains_key(id) {
                        &&& result is Ok
                        &&& after.root == before.root
                        &&& after.instances.contains_key(id)
                    } else {
                        &&& result == Err::<Option<ChangesView>, UpdatePanicView>(
                            UpdatePanicView::MissingInstance,
                        )
                        &&& same_but_points(after, before)
                    },
                }
            },
        },
{
    match update_target(roots, before.paths, path) {
        Err(_) => arbitrary(),
        Ok((id, target)) => {
            let own = lemma_done(fs, roots, path, before, result, after, id, target);
            if let Ok(Some(snapshot)) = own {
                if before.instances.contains_key(id) {
                    let parts = lemma_parts(before, after, id, snapshot, result);
                    assert(stands(after.instances, parts.1));
                }
            }
            own
        },
    }
}

/// What an update announces is the changes in its result, and it never announces that there
/// are none.
pub proof fn law_announced(
    fs: FsView,
    roots: Seq<WrittenPath>,
    path: PathView,
    before: SessionView,
    result: UpdateResult,
    after: SessionView,
)
    requires
        updates(fs, roots, path, before, result, after),
    ensures
        match result {
            Ok(Some(changes)) => {
                &&& announced(result) == changes
                &&& exists|id: u128|
                    changes.added.contains(id) || changes.removed.contains(id)
                        || changes.updated.contains(id)
            },
            _ => forall|id: u128|
                !(#[trigger] announced(result).added.contains(id)) && !(
                #[trigger] announced(result).removed.contains(id)) && !(
                #[trigger] announced(result).updated.contains(id)),
        },
{
    if let Ok(Some(changes)) = result {
        if forall|id: u128|
            !(changes.added.contains(id) || changes.removed.contains(id)
                || changes.updated.contains(id)) {
            assert(changes.added =~= Set::empty());
            assert(changes.removed =~= Set::empty());
            assert(changes.updated =~= Set::empty());
            assert(changes == ChangesView::none());
        }
    }
}

/// What is announced is true: what is announced as added is in the tree now and was not in it
/// before, or was removed on the way; what is announced as removed was in the tree and is not
/// in it now, or was added on the way.
pub proof fn law_announcements_are_true(
    fs: FsView,
    roots: Seq<WrittenPath>,
    path: PathView,
    before: SessionView,
    result: UpdateResult,
    after: SessionView,
    id: u128,
)
    requires
        updates(fs, roots, path, before, result, after),
    ensures
        announced(result).added.contains(id) ==> after.instances.contains_key(id) && (
        !before.instances.contains_key(id) || announced(result).removed.contains(id)),
        announced(result).removed.contains(id) ==> before.instances.contains_key(id) && (
        !after.instances.contains_key(id) || announced(result).added.contains(id)),
{
    law_update_announces(fs, roots, path, before, result, after, id);
    if let Ok((top, target)) = update_target(roots, before.paths, path) {
        let own = lemma_done(fs, roots, path, before, result, after, top, target);
        if let Ok(Some(snapshot)) = own {
            if before.instances.contains_key(top) {
                assert(tells_of(
                    before.instances,
                    ChangesView::none(),
                    after.instances,
                    announced(result),
                    id,
                ));
            }
        }
    }
}

/// After an update with a snapshot, the children of the instance that it concerns are still
/// its children, under their IDs, as far as the snapshot has a child of that name; of
/// children with one name the first is.
pub proof fn law_update_keeps_children(
    fs: FsView,
    roots: Seq<WrittenPath>,
    path: PathView,
    before: SessionView,
    result: UpdateResult,
    after: SessionView,
    id: u128,
    target: WrittenPath,
) -> (own: SnapResult)
    requires
        updates(fs, roots, path, before, result, after),
        update_target(roots, before.paths, path) == Ok::<(u128, WrittenPath), UpdatePanicView>(
            (id, target),
        ),
        before.instances.contains_key(id),
    ensures
        path_snapshots(full_depth(), fs, target, before.points, own, after.points),
        own matches Ok(Some(snapshot)) ==> forall|i: int, j: int|
            #![trigger before.instances[id].children[i], snapshot.children[j]]
            {
                &&& 0 <= i < before.instances[id].children.len()
                &&& 0 <= j < snapshot.children.len()
                &&& snapshot.children[j].name
                    == before.instances[before.instances[id].children[i]].name
                &&& forall|l: int|
                    0 <= l < i ==> before.instances[#[trigger] before.instances[id].children[l]].name
                        != before.instances[before.instances[id].children[i]].name
            } ==> after.instances[id].children.contains(before.instances[id].children[i]),
{
    let own = lemma_done(fs, roots, path, before, result, after, id, target);
    if let Ok(Some(snapshot)) = own {
        let (branch, outcome) = lemma_parts(before, after, id, snapshot, result);
        let children = before.instances[id].children;
        assert forall|i: int, j: int|
            #![trigger children[i], snapshot.children[j]]
            {
                &&& 0 <= i < children.len()
                &&& 0 <= j < snapshot.children.len()
                &&& snapshot.children[j].name == before.instances[children[i]].name
                &&& forall|l: int|
                    0 <= l < i ==> before.instances[#[trigger] children[l]].name
                        != before.instances[children[i]].name
            } implies after.instances[id].children.contains(children[i]) by {
            assert(children[i] == branch.children[i].id);
            assert forall|l: int| 0 <= l < i implies before.instances[(
            #[trigger] branch.children[l]).id].name != before.instances[branch.children[i].id].name by {
                assert(children[l] == branch.children[l].id);
            }
            let (k, _) = law_children_stay(
                before.instances,
                branch,
                snapshot,
                after.instances,
                outcome,
                i,
                j,
            );
            assert(after.instances[id].children[k] == children[i]);
        }
    }
    own
}

} // verus!
