//! What holds of every update of a session.
use crate::branch::{
    distinct, evolves, has_id, is_whole, law_one_branch, lemma_below, lemma_stands_within, stands,
    Branch,
};
use crate::imfs::{fs_keyed, root_for_path, FsView};
use crate::laws::changes::{is_changed, law_reconciled_changes};
use crate::laws::existence::law_sources_exist;
use crate::laws::likeness::{alike, law_reconciled_is_alike};
use crate::laws::paths::{law_reconciled_paths, law_reified_paths, sources};
use crate::laws::quiet::{law_nothing_to_announce, self_equal};
use crate::path::{name_text, starts_with, PathPart, PathView, WrittenPath};
use crate::path_map::{descended, descent, law_descent, law_removed};
use crate::project::Project;
use crate::rbx_snapshot::SnapshotView;
use crate::reconcile::{reconciled, reconciled_notes, reconciles};
use crate::reify::{mirrors, reified_notes, ChangesView};
use crate::session::{
    announced, follows, full_depth, lemma_root, makes, project_snapshots, session_notes, starts,
    update_target, updates, SessionView, UpdatePanicView, UpdateResult,
};
use crate::sync_point::PointsView;
use crate::tree::is_below;
use crate::value::texts_agree;
use crate::walk::{is_init_name, path_snapshots, step, SnapResult};
use vstd::prelude::*;

verus! {

/// The path that a change concerns lies on the way from a watched root to the path of
/// the change, and an instance stands for it, but none stands for the next path on the
/// way. If it is an init script, the snapshot is that of the directory it is in, and
/// else its own.
pub proof fn law_update_target(
    roots: Seq<WrittenPath>,
    paths: Map<PathView, u128>,
    path: PathView,
    id: u128,
    target: WrittenPath,
) -> (reached: PathView)
    requires
        update_target(roots, paths, path) == Ok::<(u128, WrittenPath), UpdatePanicView>((id, target)),
    ensures
        starts_with(path, reached),
        paths.contains_key(reached),
        paths[reached] == id,
        reached.len() < path.len() ==> !paths.contains_key(path.take(reached.len() as int + 1)),
        match name_text(reached) {
            Some(name) => if is_init_name(name) {
                target.path == reached.drop_last()
            } else {
                target.path == reached
            },
            None => target.path == reached,
        },
{
    lemma_root(roots, path);
    let root = root_for_path(roots, path)->0;
    law_descent(paths.dom(), root.path, path);
    lemma_descended(paths.dom(), root, path);
    descent(paths.dom(), root.path, path)
}

/// The way down ends at the same path, however it is written.
pub(crate) proof fn lemma_descended(keys: Set<PathView>, root: WrittenPath, path: PathView)
    requires
        starts_with(path, root.path),
    ensures
        descended(keys, root, path).path == descent(keys, root.path, path),
{
    law_descent(keys, root.path, path);
    let end = descent(keys, root.path, path);
    let parts = path.subrange(root.path.len() as int, end.len() as int);
    lemma_with_parts(root, parts);
    assert(end =~= path.take(end.len() as int));
    assert(root.path + parts =~= end) by {
        assert(root.path =~= path.take(root.path.len() as int));
    }
}

proof fn lemma_with_parts(start: WrittenPath, parts: Seq<PathPart>)
    ensures
        start.with_parts(parts).path == start.path + parts,
    decreases parts.len(),
{
    if parts.len() > 0 {
        lemma_with_parts(start, parts.drop_last());
        assert(start.with_parts(parts).path =~= start.path + parts);
    } else {
        assert(start.path + parts =~= start.path);
    }
}

/// A change at a path that an instance stands for, as for all paths above it up to
/// the watched root, concerns that instance. If the path is an init script, the
/// directory it is in is walked. The path is written as the root is, with the components
/// behind it added one by one.
pub proof fn law_known_path(roots: Seq<WrittenPath>, paths: Map<PathView, u128>, path: PathView)
    requires
        root_for_path(roots, path) is Some,
        forall|n: int|
            (root_for_path(roots, path)->0).path.len() <= n <= path.len() ==> paths.contains_key(
                #[trigger] path.take(n),
            ),
        name_text(path) is Some,
    ensures
        ({
            let root = root_for_path(roots, path)->0;
            let written = root.with_parts(path.skip(root.path.len() as int));
            &&& written.path == path
            &&& update_target(roots, paths, path) == Ok::<(u128, WrittenPath), UpdatePanicView>(
                (
                    paths[path],
                    if is_init_name(name_text(path)->0) {
                        written.parent()
                    } else {
                        written
                    },
                ),
            )
        }),
{
    lemma_root(roots, path);
    let root = root_for_path(roots, path)->0;
    law_descent(paths.dom(), root.path, path);
    let reached = descent(paths.dom(), root.path, path);
    if reached.len() < path.len() {
        assert(paths.contains_key(path.take(reached.len() as int + 1)));
    }
    assert(path.take(path.len() as int) =~= path);
    assert(reached =~= path);
    assert(paths.contains_key(path.take(path.len() as int)));
    lemma_descended(paths.dom(), root, path);
    assert(path.skip(root.path.len() as int) =~= path.subrange(
        root.path.len() as int,
        path.len() as int,
    ));
}

/// What an update that succeeds has done.
pub(crate) proof fn lemma_done(
    fs: FsView,
    roots: Seq<WrittenPath>,
    path: PathView,
    before: SessionView,
    result: UpdateResult,
    after: SessionView,
    id: u128,
    target: WrittenPath,
) -> (own: SnapResult)
    requires
        updates(fs, roots, path, before, result, after),
        update_target(roots, before.paths, path) == Ok::<(u128, WrittenPath), UpdatePanicView>(
            (id, target),
        ),
    ensures
        path_snapshots(full_depth(), fs, target, before.points, own, after.points),
        follows(id, target, own, after.points, before, result, after),
{
    let (own, points) = choose|own: SnapResult, points: PointsView|
        {
            &&& #[trigger] step(own, points)
            &&& path_snapshots(full_depth(), fs, target, before.points, own, points)
            &&& follows(id, target, own, points, before, result, after)
        };
    own
}

/// What it is that has been brought in line with a snapshot, and what has become of
/// it.
pub(crate) proof fn lemma_parts(
    before: SessionView,
    after: SessionView,
    id: u128,
    snapshot: SnapshotView,
    result: UpdateResult,
) -> (parts: (Branch, Branch))
    requires
        reconciles(
            before.instances,
            id,
            snapshot,
            session_notes(before.paths, before.metadata, ChangesView::none()),
            after.instances,
            session_notes(after.paths, after.metadata, announced(result)),
        ),
    ensures
        parts.0.id == id,
        stands(before.instances, parts.0),
        evolves(before.instances, parts.0, after.instances, parts.1),
        reconciled(before.instances, parts.0, snapshot, after.instances, parts.1),
        session_notes(after.paths, after.metadata, announced(result)) == reconciled_notes(
            before.instances,
            parts.0,
            snapshot,
            parts.1,
            session_notes(before.paths, before.metadata, ChangesView::none()),
        ),
{
    let notes = session_notes(before.paths, before.metadata, ChangesView::none());
    let now = session_notes(after.paths, after.metadata, announced(result));
    let (branch, outcome) = choose|branch: Branch, outcome: Branch|
        {
            &&& branch.id == id
            &&& stands(before.instances, branch)
            &&& distinct(branch)
            &&& #[trigger] evolves(before.instances, branch, after.instances, outcome)
            &&& reconciled(before.instances, branch, snapshot, after.instances, outcome)
            &&& now == reconciled_notes(before.instances, branch, snapshot, outcome, notes)
        };
    (branch, outcome)
}

/// After an update that succeeds, there was a snapshot of the path that it concerns
/// and, if that held an instance, the instance that stands for the path is now like
/// it, all the way down.
pub proof fn law_update_shows(
    fs: FsView,
    roots: Seq<WrittenPath>,
    path: PathView,
    before: SessionView,
    result: UpdateResult,
    after: SessionView,
    id: u128,
    target: WrittenPath,
) -> (shown: (Option<SnapshotView>, Branch))
    requires
        updates(fs, roots, path, before, result, after),
        result is Ok,
        update_target(roots, before.paths, path) == Ok::<(u128, WrittenPath), UpdatePanicView>(
            (id, target),
        ),
    ensures
        path_snapshots(full_depth(), fs, target, before.points, Ok(shown.0), after.points),
        match shown.0 {
            Some(snapshot) => {
                &&& shown.1.id == id
                &&& stands(after.instances, shown.1)
                &&& alike(after.instances, shown.1, snapshot)
            },
            None => after == before.with_points(after.points),
        },
{
    let own = lemma_done(fs, roots, path, before, result, after, id, target);
    if let Ok(Some(snapshot)) = own {
        let notes = session_notes(before.paths, before.metadata, ChangesView::none());
        let (branch, outcome) = lemma_parts(before, after, id, snapshot, result);
        law_reconciled_is_alike(before.instances, branch, snapshot, after.instances, outcome);
        (Some(snapshot), outcome)
    } else {
        (None, arbitrary())
    }
}

/// An update leaves alone every instance that is not below the one that it concerns.
pub proof fn law_update_leaves_others(
    fs: FsView,
    roots: Seq<WrittenPath>,
    path: PathView,
    before: SessionView,
    result: UpdateResult,
    after: SessionView,
    id: u128,
    target: WrittenPath,
    other: u128,
)
    requires
        updates(fs, roots, path, before, result, after),
        update_target(roots, before.paths, path) == Ok::<(u128, WrittenPath), UpdatePanicView>(
            (id, target),
        ),
        before.instances.contains_key(other),
        !is_below(before.instances, id, other),
    ensures
        after.instances.contains_key(other),
        after.instances[other] == before.instances[other],
{
    let own = lemma_done(fs, roots, path, before, result, after, id, target);
    if let Ok(Some(snapshot)) = own {
        if before.instances.contains_key(id) {
            let notes = session_notes(before.paths, before.metadata, ChangesView::none());
            let (branch, outcome) = lemma_parts(before, after, id, snapshot, result);
            lemma_below(before.instances, branch, other);
            assert(after.instances.contains_key(other));
        }
    }
}

/// What an update announces is what has changed in the tree: an instance that has
/// come is announced as added, and one that has gone as removed. One that was there
/// before and is there now, but has another name, class or property, such as another
/// source text, is announced as updated, unless it was removed on the way. And nothing
/// else is announced.
pub proof fn law_update_announces(
    fs: FsView,
    roots: Seq<WrittenPath>,
    path: PathView,
    before: SessionView,
    result: UpdateResult,
    after: SessionView,
    other: u128,
)
    requires
        updates(fs, roots, path, before, result, after),
    ensures
        after.instances.contains_key(other) && !before.instances.contains_key(other) ==> announced(
            result,
        ).added.contains(other),
        before.instances.contains_key(other) && !after.instances.contains_key(other) ==> announced(
            result,
        ).removed.contains(other),
        before.instances.contains_key(other) && after.instances.contains_key(other)
            && before.instances[other] != after.instances[other] && is_changed(
            before.instances[other],
            after.instances[other],
        ) ==> announced(result).updated.contains(other) || announced(result).removed.contains(
            other,
        ),
        before.instances.contains_key(other) && after.instances.contains_key(other)
            && before.instances[other] != after.instances[other] && !texts_agree(
            before.instances[other].properties,
            after.instances[other].properties,
        ) ==> announced(result).updated.contains(other) || announced(result).removed.contains(
            other,
        ),
        announced(result).added.contains(other) ==> after.instances.contains_key(other),
        announced(result).removed.contains(other) ==> before.instances.contains_key(other),
        announced(result).updated.contains(other) ==> {
            &&& before.instances.contains_key(other)
            &&& after.instances.contains_key(other)
            &&& is_changed(before.instances[other], after.instances[other])
        },
{
    if let Ok((id, target)) = update_target(roots, before.paths, path) {
        let own = lemma_done(fs, roots, path, before, result, after, id, target);
        if let Ok(Some(snapshot)) = own {
            if before.instances.contains_key(id) {
                let notes = session_notes(before.paths, before.metadata, ChangesView::none());
                let (branch, outcome) = lemma_parts(before, after, id, snapshot, result);
                law_reconciled_changes(
                    before.instances,
                    branch,
                    snapshot,
                    after.instances,
                    outcome,
                    notes,
                    other,
                );
                if has_id(branch, other) {
                    lemma_stands_within(before.instances, branch, other);
                }
                assert(after.instances.contains_key(other) <==> before.instances.contains_key(other)
                    && !has_id(branch, other) || has_id(outcome, other));
                if before.instances.contains_key(other) && !has_id(branch, other) {
                    assert(after.instances[other] == before.instances[other]);
                }
            }
        }
    }
}

/// After a path has been removed, a path below it is noted only if the snapshot that
/// was taken then holds an instance from there.
pub proof fn law_removed_path(
    fs: FsView,
    roots: Seq<WrittenPath>,
    path: PathView,
    before: SessionView,
    result: UpdateResult,
    after: SessionView,
    below: PathView,
) -> (snapshot: SnapshotView)
    requires
        updates(fs, roots, path, before.without_path(path), result, after),
        starts_with(below, path),
        after.paths.contains_key(below),
    ensures
        update_target(roots, before.without_path(path).paths, path) matches Ok((_, target))
            && path_snapshots(
            full_depth(),
            fs,
            target,
            before.points,
            Ok(Some(snapshot)),
            after.points,
        ),
        sources(snapshot).contains(below),
{
    let start = before.without_path(path);
    law_removed(before.paths, path, below);
    match update_target(roots, start.paths, path) {
        Ok((id, target)) => {
            let own = lemma_done(fs, roots, path, start, result, after, id, target);
            match own {
                Ok(Some(snapshot)) => {
                    let notes = session_notes(start.paths, start.metadata, ChangesView::none());
                    let (branch, outcome) = lemma_parts(start, after, id, snapshot, result);
                    law_reconciled_paths(
                        start.instances,
                        branch,
                        snapshot,
                        after.instances,
                        outcome,
                        notes,
                        below,
                    );
                    snapshot
                },
                _ => arbitrary(),
            }
        },
        Err(_) => arbitrary(),
    }
}

/// After an update that succeeds, every path that the snapshot holds an instance from
/// is noted, and leads to an instance of the tree.
pub proof fn law_update_notes_paths(
    fs: FsView,
    roots: Seq<WrittenPath>,
    path: PathView,
    before: SessionView,
    result: UpdateResult,
    after: SessionView,
    id: u128,
    target: WrittenPath,
) -> (own: SnapResult)
    requires
        updates(fs, roots, path, before, result, after),
        result is Ok,
        update_target(roots, before.paths, path) == Ok::<(u128, WrittenPath), UpdatePanicView>(
            (id, target),
        ),
    ensures
        path_snapshots(full_depth(), fs, target, before.points, own, after.points),
        match own {
            Ok(Some(snapshot)) => forall|noted: PathView| #[trigger]
                sources(snapshot).contains(noted) ==> {
                    &&& after.paths.contains_key(noted)
                    &&& after.instances.contains_key(after.paths[noted])
                },
            Ok(None) => after.paths == before.paths,
            Err(_) => false,
        },
{
    let own = lemma_done(fs, roots, path, before, result, after, id, target);
    if let Ok(Some(snapshot)) = own {
        let notes = session_notes(before.paths, before.metadata, ChangesView::none());
        let (branch, outcome) = lemma_parts(before, after, id, snapshot, result);
        assert forall|noted: PathView| #[trigger] sources(snapshot).contains(noted) implies {
            &&& after.paths.contains_key(noted)
            &&& after.instances.contains_key(after.paths[noted])
        } by {
            law_reconciled_paths(
                before.instances,
                branch,
                snapshot,
                after.instances,
                outcome,
                notes,
                noted,
            );
            lemma_stands_within(after.instances, outcome, after.paths[noted]);
        }
    }
    own
}

/// A session starts with a tree that mirrors the snapshot of the project, and every
/// path that the snapshot holds an instance from is noted, and leads to an instance of
/// the tree.
pub proof fn law_start(fs: FsView, project: Project, session: SessionView) -> (shown: (
    SnapshotView,
    Branch,
))
    requires
        starts(fs, project, session),
    ensures
        project_snapshots(fs, project, Ok(shown.0), session.points),
        is_whole(session.instances, session.root, shown.1),
        mirrors(session.instances, shown.1, shown.0),
        forall|noted: PathView| #[trigger]
            sources(shown.0).contains(noted) ==> {
                &&& session.paths.contains_key(noted)
                &&& session.instances.contains_key(session.paths[noted])
            },
        forall|noted: PathView| #[trigger]
            session.paths.contains_key(noted) ==> sources(shown.0).contains(noted),
{
    let notes = session_notes(Map::empty(), Map::empty(), ChangesView::none());
    let snapshot = choose|snapshot: SnapshotView|
        {
            &&& #[trigger] project_snapshots(fs, project, Ok(snapshot), session.points)
            &&& makes(
                snapshot,
                notes,
                session.instances,
                session.root,
                session.paths,
                session.metadata,
            )
        };
    let branch = choose|branch: Branch|
        {
            &&& #[trigger] is_whole(session.instances, session.root, branch)
            &&& mirrors(session.instances, branch, snapshot)
            &&& session.paths == reified_notes(notes, branch, snapshot).paths
            &&& session.metadata == reified_notes(notes, branch, snapshot).metadata
        };
    assert forall|noted: PathView| #[trigger] sources(snapshot).contains(noted) implies {
        &&& session.paths.contains_key(noted)
        &&& session.instances.contains_key(session.paths[noted])
    } by {
        law_reified_paths(session.instances, notes, branch, snapshot, noted);
        lemma_stands_within(session.instances, branch, session.paths[noted]);
    }
    assert forall|noted: PathView| #[trigger] session.paths.contains_key(noted) implies sources(
        snapshot,
    ).contains(noted) by {
        law_reified_paths(session.instances, notes, branch, snapshot, noted);
    }
    (snapshot, branch)
}

/// When the instance that a change concerns has been brought in line with a snapshot,
/// and then comes to be brought in line with the same snapshot again, nothing is
/// announced.
pub proof fn law_same_snapshot_again(
    id: u128,
    target: WrittenPath,
    snapshot: SnapshotView,
    points: PointsView,
    before: SessionView,
    result: UpdateResult,
    after: SessionView,
    later_points: PointsView,
    later_result: UpdateResult,
    later: SessionView,
)
    requires
        before.instances.contains_key(id),
        self_equal(snapshot),
        follows(id, target, Ok(Some(snapshot)), points, before, result, after),
        follows(id, target, Ok(Some(snapshot)), later_points, after, later_result, later),
    ensures
        later_result == Ok::<Option<ChangesView>, UpdatePanicView>(None),
{
    let (branch, outcome) = lemma_parts(before, after, id, snapshot, result);
    law_reconciled_is_alike(before.instances, branch, snapshot, after.instances, outcome);
    assert(after.instances.contains_key(id));
    let (again, later_outcome) = lemma_parts(after, later, id, snapshot, later_result);
    law_one_branch(after.instances, outcome, again);
    law_nothing_to_announce(
        after.instances,
        again,
        snapshot,
        later_outcome,
        session_notes(after.paths, after.metadata, ChangesView::none()),
    );
}

/// After a path has been removed, and there is no entry at it any more, it is not noted;
/// nor is any path below it that has no entry.
pub proof fn law_removed_path_is_forgotten(
    fs: FsView,
    roots: Seq<WrittenPath>,
    path: PathView,
    before: SessionView,
    result: UpdateResult,
    after: SessionView,
    below: PathView,
)
    requires
        fs_keyed(fs),
        updates(fs, roots, path, before.without_path(path), result, after),
        starts_with(below, path),
        !fs.contains_key(below),
    ensures
        !after.paths.contains_key(below),
{
    if after.paths.contains_key(below) {
        let snapshot = law_removed_path(fs, roots, path, before, result, after, below);
        if let Ok((_, target)) = update_target(roots, before.without_path(path).paths, path) {
            law_sources_exist(
                full_depth(),
                fs,
                target,
                before.points,
                snapshot,
                after.points,
                below,
            );
        }
    }
}

} // verus!
