//! A session: a tree of instances that is kept in line with the file system.
use crate::branch::{is_tree, is_whole, Branch};
use crate::caution::{node_is_clear, path_is_clear};
use crate::failure::{FailureView, SnapshotFailure, SnapshotPanic};
use crate::imfs::{fs_keyed, root_for_path, FileView, FsView, Imfs, ImfsItem};
use crate::laws::session::law_removed_path_is_forgotten;
use crate::met::{
    decodable, law_meets_better, law_meets_better_node, node_meets_only, path_meets_only, unframed,
};
use crate::model::result_view;
use crate::path::{has_file_name, name_text, starts_with, FilePath, PathView, WrittenPath};
use crate::path_map::{descended, descent, without_below, PathMap};
use crate::project::{InstanceProjectNodeMetadata, Project};
use crate::rbx_snapshot::SnapshotView;
use crate::reconcile::{reconcile_subtree, reconciles};
use crate::reify::{mirrors, notes, reified_notes, reify_root, ChangesView, InstanceChanges, Notes};
use crate::snapshots::{construct_project_node, is_init, snapshot_instances_from_imfs};
use crate::sync_point::{points_view, PointsView, SyncPoints};
use crate::tree::{get_instance, tree_instances, tree_root, InstanceMap};
use crate::walk::{is_init_name, node_snapshots, path_snapshots, step, NodeResult, SnapResult};
use rbx_tree::RbxTree;
use std::collections::HashMap;
use vstd::prelude::*;

verus! {

broadcast use vstd::std_specs::hash::group_hash_axioms;

/// A state of affairs that an update does not survive.
#[derive(Debug)]
pub enum UpdatePanic {
    /// The path is outside of the watched roots.
    OutsideRoots,
    /// No instance stands for the root that the path lies under.
    NoInstance,
    /// The path to take a snapshot of does not end in a name.
    NoFileName,
    /// There is no snapshot of the path that the change concerns.
    Snapshot { path: FilePath, failure: SnapshotFailure },
    /// The instance that stands for the path is no longer in the tree.
    MissingInstance,
}

/// What an [`UpdatePanic`] stands for.
pub enum UpdatePanicView {
    OutsideRoots,
    NoInstance,
    NoFileName,
    Snapshot { path: WrittenPath, failure: FailureView },
    MissingInstance,
}

impl View for UpdatePanic {
    type V = UpdatePanicView;

    open spec fn view(&self) -> UpdatePanicView {
        match *self {
            UpdatePanic::OutsideRoots => UpdatePanicView::OutsideRoots,
            UpdatePanic::NoInstance => UpdatePanicView::NoInstance,
            UpdatePanic::NoFileName => UpdatePanicView::NoFileName,
            UpdatePanic::Snapshot { path, failure } => UpdatePanicView::Snapshot {
                path: path.written(),
                failure: failure@,
            },
            UpdatePanic::MissingInstance => UpdatePanicView::MissingInstance,
        }
    }
}

/// What an update can give: the changes to announce, if there are any.
pub type UpdateResult = Result<Option<ChangesView>, UpdatePanicView>;

/// What the result of an update stands for.
pub open spec fn update_view(
    result: Result<Option<InstanceChanges>, UpdatePanic>,
) -> UpdateResult {
    match result {
        Ok(Some(changes)) => Ok(Some(changes@)),
        Ok(None) => Ok(None),
        Err(panic) => Err(panic@),
    }
}

/// A tree of instances, with what is noted about them.
pub struct RbxSession {
    tree: RbxTree,
    path_map: PathMap<u128>,
    instance_metadata_map: HashMap<u128, InstanceProjectNodeMetadata>,
    sync_point_metadata: SyncPoints,
}

/// What an [`RbxSession`] stands for.
pub struct SessionView {
    /// The instances by ID.
    pub instances: InstanceMap,
    /// The ID of the root.
    pub root: u128,
    /// Which instance stands for which path.
    pub paths: Map<PathView, u128>,
    /// What the manifest says of instances.
    pub metadata: Map<u128, InstanceProjectNodeMetadata>,
    /// The sync points that are remembered.
    pub points: PointsView,
}

impl View for RbxSession {
    type V = SessionView;

    closed spec fn view(&self) -> SessionView {
        SessionView {
            instances: tree_instances(self.tree),
            root: tree_root(self.tree),
            paths: self.path_map@,
            metadata: self.instance_metadata_map@,
            points: points_view(self.sync_point_metadata),
        }
    }
}

impl SessionView {
    /// Whether the instances are a tree.
    pub open spec fn well_formed(self) -> bool {
        is_tree(self.instances, self.root)
    }

    /// The session with other sync points remembered.
    pub open spec fn with_points(self, points: PointsView) -> SessionView {
        SessionView { points, ..self }
    }

    /// The session with nothing noted for a path and what lies below it.
    pub open spec fn without_path(self, path: PathView) -> SessionView {
        SessionView { paths: without_below(self.paths, path), ..self }
    }
}

/// The notes that the maps of a session and a set of changes make up.
pub open spec fn session_notes(
    paths: Map<PathView, u128>,
    metadata: Map<u128, InstanceProjectNodeMetadata>,
    changes: ChangesView,
) -> Notes {
    Notes { paths, metadata, changes }
}

/// How deep the walk of a snapshot may go.
pub open spec fn full_depth() -> nat {
    usize::MAX as nat
}

/// The instance that a change at `path` concerns, and the path to take a snapshot of
/// for it: the last path on the way from the root down to `path` that an instance
/// stands for or, if that is an init script, the directory it is in.
pub open spec fn update_target(
    roots: Seq<WrittenPath>,
    paths: Map<PathView, u128>,
    path: PathView,
) -> Result<(u128, WrittenPath), UpdatePanicView> {
    match root_for_path(roots, path) {
        None => Err(UpdatePanicView::OutsideRoots),
        Some(root) => {
            let target = descended(paths.dom(), root, path);
            let reached = descent(paths.dom(), root.path, path);
            if !paths.contains_key(reached) {
                Err(UpdatePanicView::NoInstance)
            } else if !has_file_name(reached) {
                Err(UpdatePanicView::NoFileName)
            } else {
                match name_text(reached) {
                    Some(name) => if is_init_name(name) {
                        Ok((paths[reached], target.parent()))
                    } else {
                        Ok((paths[reached], target))
                    },
                    None => Ok((paths[reached], target)),
                }
            }
        },
    }
}

/// Whether all the files that a change at `path` leads to are good.
pub open spec fn update_meets_only(
    good: spec_fn(FileView) -> bool,
    fs: FsView,
    roots: Seq<WrittenPath>,
    path: PathView,
    before: SessionView,
) -> bool {
    update_target(roots, before.paths, path) matches Ok((_, target)) ==> path_meets_only(
        good,
        full_depth(),
        fs,
        target,
        before.points,
    )
}

/// The changes that the result of an update announces.
pub open spec fn announced(result: UpdateResult) -> ChangesView {
    match result {
        Ok(Some(changes)) => changes,
        _ => ChangesView::none(),
    }
}

/// Whether a change at `path` can take a session from `before` to `after` and give
/// `result`: a snapshot is taken of the path that the change concerns, and the
/// instance that stands for it is brought in line with the snapshot.
pub open spec fn updates(
    fs: FsView,
    roots: Seq<WrittenPath>,
    path: PathView,
    before: SessionView,
    result: UpdateResult,
    after: SessionView,
) -> bool {
    match update_target(roots, before.paths, path) {
        Err(panic) => result == Err::<Option<ChangesView>, UpdatePanicView>(panic) && after
            == before,
        Ok((id, target)) => exists|own: SnapResult, points: PointsView|
            {
                &&& #[trigger] step(own, points)
                &&& path_snapshots(full_depth(), fs, target, before.points, own, points)
                &&& follows(id, target, own, points, before, result, after)
            },
    }
}

/// Whether a session goes from `before` to `after`, and gives `result`, when the
/// instance `id` is brought in line with what taking a snapshot of `target` has given.
pub open spec fn follows(
    id: u128,
    target: WrittenPath,
    own: SnapResult,
    points: PointsView,
    before: SessionView,
    result: UpdateResult,
    after: SessionView,
) -> bool {
    match own {
        Err(failure) => {
            &&& result == Err::<Option<ChangesView>, UpdatePanicView>(
                UpdatePanicView::Snapshot { path: target, failure },
            )
            &&& after == before.with_points(points)
        },
        Ok(None) => {
            &&& result == Ok::<Option<ChangesView>, UpdatePanicView>(None)
            &&& after == before.with_points(points)
        },
        Ok(Some(snapshot)) => if !before.instances.contains_key(id) {
            &&& result == Err::<Option<ChangesView>, UpdatePanicView>(
                UpdatePanicView::MissingInstance,
            )
            &&& after == before.with_points(points)
        } else {
            &&& result is Ok
            &&& result != Ok::<Option<ChangesView>, UpdatePanicView>(Some(ChangesView::none()))
            &&& after.root == before.root
            &&& after.points == points
            &&& after.well_formed()
            &&& reconciles(
                before.instances,
                id,
                snapshot,
                session_notes(before.paths, before.metadata, ChangesView::none()),
                after.instances,
                session_notes(after.paths, after.metadata, announced(result)),
            )
        },
    }
}

/// Whether a tree, with what is noted about it, is what a snapshot makes.
pub open spec fn makes(
    snapshot: SnapshotView,
    before: Notes,
    instances: InstanceMap,
    root: u128,
    paths: Map<PathView, u128>,
    metadata: Map<u128, InstanceProjectNodeMetadata>,
) -> bool {
    exists|branch: Branch|
        {
            &&& #[trigger] is_whole(instances, root, branch)
            &&& mirrors(instances, branch, snapshot)
            &&& paths == reified_notes(before, branch, snapshot).paths
            &&& metadata == reified_notes(before, branch, snapshot).metadata
        }
}

/// Makes the tree that a project describes.
fn construct_initial_tree(
    project: &Project,
    imfs: &Imfs,
    path_map: &mut PathMap<u128>,
    instance_metadata_map: &mut HashMap<u128, InstanceProjectNodeMetadata>,
    sync_point_metadata: &mut SyncPoints,
) -> (result: Result<RbxTree, SnapshotPanic>)
    requires
        node_meets_only(
            decodable(),
            full_depth(),
            imfs@,
            project.tree@,
            points_view(*old(sync_point_metadata)),
        ),
    ensures
        match result {
            Ok(tree) => exists|snapshot: SnapshotView|
                {
                    &&& #[trigger] node_snapshots(
                        full_depth(),
                        imfs@,
                        project.name@,
                        project.tree@,
                        points_view(*old(sync_point_metadata)),
                        Ok(snapshot),
                        points_view(*final(sync_point_metadata)),
                    )
                    &&& makes(
                        snapshot,
                        session_notes(
                            old(path_map)@,
                            old(instance_metadata_map)@,
                            ChangesView::none(),
                        ),
                        tree_instances(tree),
                        tree_root(tree),
                        final(path_map)@,
                        final(instance_metadata_map)@,
                    )
                },
            Err(panic) => {
                &&& node_snapshots(
                    full_depth(),
                    imfs@,
                    project.name@,
                    project.tree@,
                    points_view(*old(sync_point_metadata)),
                    Err(panic@),
                    points_view(*final(sync_point_metadata)),
                )
                &&& final(path_map)@ == old(path_map)@
                &&& final(instance_metadata_map)@ == old(instance_metadata_map)@
            },
        },
{
    let snapshot = match construct_project_node(
        imfs,
        &project.name,
        &project.tree,
        sync_point_metadata,
        usize::MAX,
    ) {
        Ok(snapshot) => snapshot,
        Err(panic) => return Err(panic),
    };
    let mut changes = InstanceChanges::default();
    let tree = reify_root(&snapshot, path_map, instance_metadata_map, &mut changes);
    proof {
        let result: NodeResult = Ok(snapshot@);
        assert(node_snapshots(
            full_depth(),
            imfs@,
            project.name@,
            project.tree@,
            points_view(*old(sync_point_metadata)),
            result,
            points_view(*sync_point_metadata),
        ));
    }
    Ok(tree)
}

/// Whether a project can give a tree by way of a snapshot, or why it cannot.
pub open spec fn project_snapshots(
    fs: FsView,
    project: Project,
    result: NodeResult,
    points: PointsView,
) -> bool {
    node_snapshots(
        full_depth(),
        fs,
        project.name@,
        project.tree@,
        Map::empty(),
        result,
        points,
    )
}

/// Whether a tree is what a project gives.
pub open spec fn gives_tree(
    fs: FsView,
    project: Project,
    instances: InstanceMap,
    root: u128,
) -> bool {
    exists|snapshot: SnapshotView, points: PointsView, branch: Branch|
        {
            &&& #[trigger] project_snapshots(fs, project, Ok(snapshot), points)
            &&& #[trigger] is_whole(instances, root, branch)
            &&& mirrors(instances, branch, snapshot)
        }
}

/// Makes the tree that a project describes, and keeps nothing else.
pub fn construct_oneoff_tree(project: &Project, imfs: &Imfs) -> (result: Result<
    RbxTree,
    SnapshotPanic,
>)
    requires
        node_meets_only(decodable(), full_depth(), imfs@, project.tree@, Map::empty()),
    ensures
        match result {
            Ok(tree) => gives_tree(imfs@, *project, tree_instances(tree), tree_root(tree)),
            Err(panic) => exists|points: PointsView| #[trigger]
                project_snapshots(imfs@, *project, Err(panic@), points),
        },
{
    let mut path_map: PathMap<u128> = PathMap::new();
    let mut instance_metadata_map: HashMap<u128, InstanceProjectNodeMetadata> = HashMap::new();
    let mut sync_point_metadata = SyncPoints::new();
    assert(points_view(sync_point_metadata) =~= Map::empty());
    let result = construct_initial_tree(
        project,
        imfs,
        &mut path_map,
        &mut instance_metadata_map,
        &mut sync_point_metadata,
    );
    proof {
        let points = points_view(sync_point_metadata);
        let built = result;
        match built {
            Ok(tree) => {
                let snapshot = choose|snapshot: SnapshotView|
                    {
                        &&& #[trigger] node_snapshots(
                            full_depth(),
                            imfs@,
                            project.name@,
                            project.tree@,
                            Map::empty(),
                            Ok(snapshot),
                            points,
                        )
                        &&& makes(
                            snapshot,
                            session_notes(Map::empty(), Map::empty(), ChangesView::none()),
                            tree_instances(tree),
                            tree_root(tree),
                            path_map@,
                            instance_metadata_map@,
                        )
                    };
                assert(project_snapshots(imfs@, *project, Ok(snapshot), points));
            },
            Err(panic) => {
                assert(project_snapshots(imfs@, *project, Err(panic@), points));
            },
        }
    }
    result
}

/// Whether a session is what a project gives.
pub open spec fn starts(fs: FsView, project: Project, session: SessionView) -> bool {
    exists|snapshot: SnapshotView|
        {
            &&& #[trigger] project_snapshots(fs, project, Ok(snapshot), session.points)
            &&& makes(
                snapshot,
                session_notes(Map::empty(), Map::empty(), ChangesView::none()),
                session.instances,
                session.root,
                session.paths,
                session.metadata,
            )
        }
}

/// The changes that an update announces, as a list.
pub open spec fn messages_of(result: UpdateResult) -> Seq<ChangesView> {
    match result {
        Ok(Some(changes)) => seq![changes],
        _ => Seq::empty(),
    }
}

/// What a list of changes stands for.
pub open spec fn changes_list(list: Seq<InstanceChanges>) -> Seq<ChangesView> {
    Seq::new(list.len(), |i: int| list[i]@)
}

/// A state of affairs that a renaming does not survive, with the changes to announce
/// that came before it.
#[derive(Debug)]
pub struct RenamePanic {
    pub messages: Vec<InstanceChanges>,
    pub panic: UpdatePanic,
}

/// What a renaming can give: the changes to announce, in order, or those that were
/// there to announce before it failed.
pub type RenameResult = Result<Seq<ChangesView>, (Seq<ChangesView>, UpdatePanicView)>;

/// What the result of a renaming stands for.
pub open spec fn rename_view(result: Result<Vec<InstanceChanges>, RenamePanic>) -> RenameResult {
    match result {
        Ok(list) => Ok(changes_list(list@)),
        Err(failure) => Err((changes_list(failure.messages@), failure.panic@)),
    }
}

/// What a renaming gives whose two changes give `first` and `second`.
pub open spec fn rename_result(first: UpdateResult, second: UpdateResult) -> RenameResult {
    match second {
        Err(panic) => Err((messages_of(first), panic)),
        Ok(_) => Ok(messages_of(first) + messages_of(second)),
    }
}

/// Whether a renaming can take a session from `before` to `after` and give `result`:
/// nothing is noted for the old path any more, and then there is a change at the old
/// path and one at the new.
pub open spec fn renames(
    fs: FsView,
    roots: Seq<WrittenPath>,
    from: PathView,
    to: PathView,
    before: SessionView,
    result: RenameResult,
    after: SessionView,
) -> bool {
    exists|first: UpdateResult, mid: SessionView|
        {
            &&& #[trigger] updates(fs, roots, from, before.without_path(from), first, mid)
            &&& match first {
                Err(panic) => {
                    &&& result == Err::<Seq<ChangesView>, (Seq<ChangesView>, UpdatePanicView)>(
                        (Seq::empty(), panic),
                    )
                    &&& after == mid
                },
                Ok(_) => exists|second: UpdateResult|
                    {
                        &&& #[trigger] updates(fs, roots, to, mid, second, after)
                        &&& result == rename_result(first, second)
                    },
            }
        }
}

/// Whether all the files that a renaming leads to, by its first change or by the one after
/// it, are good.
pub open spec fn rename_meets_only(
    good: spec_fn(FileView) -> bool,
    fs: FsView,
    roots: Seq<WrittenPath>,
    from: PathView,
    to: PathView,
    before: SessionView,
) -> bool {
    &&& update_meets_only(good, fs, roots, from, before.without_path(from))
    &&& forall|first: UpdateResult, mid: SessionView| #[trigger]
        updates(fs, roots, from, before.without_path(from), first, mid) && first is Ok
            ==> update_meets_only(good, fs, roots, to, mid)
}

/// The instance that a change at `path` concerns, and the path to take a snapshot of for it.
fn find_target(path_map: &PathMap<u128>, imfs: &Imfs, path: &FilePath) -> (target: Result<
    (u128, FilePath),
    UpdatePanic,
>)
    ensures
        match target {
            Ok((id, target)) => update_target(imfs.roots(), path_map@, path@) == Ok::<
                (u128, WrittenPath),
                UpdatePanicView,
            >((id, target.written())),
            Err(panic) => update_target(imfs.roots(), path_map@, path@) == Err::<
                (u128, WrittenPath),
                UpdatePanicView,
            >(panic@),
        },
        fs_keyed(imfs@),
{
    let root_path = match imfs.get_root_for_path(path) {
        Some(root_path) => root_path,
        None => return Err(UpdatePanic::OutsideRoots),
    };
    // The closest instance in the tree that currently exists.
    proof {
        lemma_root(imfs.roots(), path@);
    }
    let mut path_to_snapshot = path_map.descend(root_path, path);
    let instance_id = match path_map.get(&path_to_snapshot) {
        Some(id) => *id,
        None => return Err(UpdatePanic::NoInstance),
    };
    if !path_to_snapshot.has_file_name() {
        return Err(UpdatePanic::NoFileName);
    }
    // A file that decides what its directory is concerns the directory.
    let decides = match path_to_snapshot.name_text() {
        Some(name) => is_init(name),
        None => false,
    };
    if decides {
        path_to_snapshot.pop();
    }
    Ok((instance_id, path_to_snapshot))
}

/// Whether a change at `path` leads to no framed model.
fn update_is_clear(
    path_map: &PathMap<u128>,
    sync_point_metadata: &SyncPoints,
    imfs: &Imfs,
    path: &FilePath,
) -> (clear: bool)
    ensures
        clear == (update_target(imfs.roots(), path_map@, path@) matches Ok((_, target))
            ==> path_meets_only(
            unframed(),
            full_depth(),
            imfs@,
            target,
            points_view(*sync_point_metadata),
        )),
        clear ==> (update_target(imfs.roots(), path_map@, path@) matches Ok((_, target))
            ==> path_meets_only(
            decodable(),
            full_depth(),
            imfs@,
            target,
            points_view(*sync_point_metadata),
        )),
{
    match find_target(path_map, imfs, path) {
        Ok((_, target)) => {
            let clear = path_is_clear(imfs, &target, sync_point_metadata, usize::MAX);
            proof {
                if clear {
                    law_meets_better(
                        unframed(),
                        decodable(),
                        full_depth(),
                        imfs@,
                        target.written(),
                        points_view(*sync_point_metadata),
                    );
                }
            }
            clear
        },
        Err(_) => true,
    }
}

/// [`construct_oneoff_tree`], unless a binary model is met whose decoding may not come to
/// an end in good order.
pub fn checked_oneoff_tree(project: &Project, imfs: &Imfs) -> (checked: Option<
    Result<RbxTree, SnapshotPanic>,
>)
    ensures
        checked is Some <==> node_meets_only(
            unframed(),
            full_depth(),
            imfs@,
            project.tree@,
            Map::empty(),
        ),
        match checked {
            Some(Ok(tree)) => gives_tree(imfs@, *project, tree_instances(tree), tree_root(tree)),
            Some(Err(panic)) => exists|points: PointsView| #[trigger]
                project_snapshots(imfs@, *project, Err(panic@), points),
            None => true,
        },
{
    if project_is_clear(project, imfs) {
        Some(construct_oneoff_tree(project, imfs))
    } else {
        None
    }
}

/// Whether a walk over a project meets no framed model.
fn project_is_clear(project: &Project, imfs: &Imfs) -> (clear: bool)
    ensures
        clear == node_meets_only(
            unframed(),
            full_depth(),
            imfs@,
            project.tree@,
            Map::empty(),
        ),
        clear ==> node_meets_only(decodable(), full_depth(), imfs@, project.tree@, Map::empty()),
{
    let points = SyncPoints::new();
    assert(points_view(points) =~= Map::empty());
    let clear = node_is_clear(imfs, &project.tree, &points, usize::MAX);
    proof {
        if clear {
            law_meets_better_node(
                unframed(),
                decodable(),
                full_depth(),
                imfs@,
                project.tree@,
                Map::empty(),
            );
        }
    }
    clear
}

/// What a renaming gives that is careful of binary models.
#[derive(Debug)]
pub enum CheckedRename {
    /// It was carried out, or failed for another reason.
    Done(Result<Vec<InstanceChanges>, RenamePanic>),
    /// The change at the old path was carried out, with these changes to announce. The one at
    /// the new path leads to a binary model whose decoding may not come to an end in good
    /// order.
    Halfway(Vec<InstanceChanges>),
    /// The change at the old path leads to such a model, and nothing was done.
    Refused,
}

/// What a [`CheckedRename`] stands for.
pub enum CheckedRenameView {
    Done(RenameResult),
    Halfway(Seq<ChangesView>),
    Refused,
}

impl View for CheckedRename {
    type V = CheckedRenameView;

    open spec fn view(&self) -> CheckedRenameView {
        match *self {
            CheckedRename::Done(result) => CheckedRenameView::Done(rename_view(result)),
            CheckedRename::Halfway(messages) => CheckedRenameView::Halfway(
                changes_list(messages@),
            ),
            CheckedRename::Refused => CheckedRenameView::Refused,
        }
    }
}

/// Whether a renaming that is careful of binary models can take a session from `before` to
/// `after` and give `checked`: each of its two changes is made only if it leads to no framed
/// model.
pub open spec fn carefully_renames(
    fs: FsView,
    roots: Seq<WrittenPath>,
    from: PathView,
    to: PathView,
    before: SessionView,
    checked: CheckedRenameView,
    after: SessionView,
) -> bool {
    if !update_meets_only(unframed(), fs, roots, from, before.without_path(from)) {
        checked == CheckedRenameView::Refused && after == before
    } else {
        exists|first: UpdateResult, mid: SessionView|
            {
                &&& #[trigger] updates(fs, roots, from, before.without_path(from), first, mid)
                &&& match first {
                    Err(panic) => {
                        &&& checked == CheckedRenameView::Done(Err((Seq::empty(), panic)))
                        &&& after == mid
                    },
                    Ok(_) => if update_meets_only(unframed(), fs, roots, to, mid) {
                        exists|second: UpdateResult|
                            {
                                &&& #[trigger] updates(fs, roots, to, mid, second, after)
                                &&& checked == CheckedRenameView::Done(
                                    rename_result(first, second),
                                )
                            }
                    } else {
                        &&& checked == CheckedRenameView::Halfway(messages_of(first))
                        &&& after == mid
                    },
                }
            }
    }
}

impl RbxSession {
    /// Starts a session on a project.
    pub fn new(project: &Project, imfs: &Imfs) -> (result: Result<RbxSession, SnapshotPanic>)
        requires
            node_meets_only(decodable(), full_depth(), imfs@, project.tree@, Map::empty()),
        ensures
            match result {
                Ok(session) => session@.well_formed() && starts(imfs@, *project, session@),
                Err(panic) => exists|points: PointsView| #[trigger]
                    project_snapshots(imfs@, *project, Err(panic@), points),
            },
    {
        let mut sync_point_metadata = SyncPoints::new();
        let mut path_map: PathMap<u128> = PathMap::new();
        let mut instance_metadata_map: HashMap<u128, InstanceProjectNodeMetadata> = HashMap::new();
        assert(points_view(sync_point_metadata) =~= Map::empty());
        let built = construct_initial_tree(
            project,
            imfs,
            &mut path_map,
            &mut instance_metadata_map,
            &mut sync_point_metadata,
        );
        let ghost points = points_view(sync_point_metadata);
        match built {
            Ok(tree) => {
                let session = RbxSession {
                    tree,
                    path_map,
                    instance_metadata_map,
                    sync_point_metadata,
                };
                proof {
                    let snapshot = choose|snapshot: SnapshotView|
                        {
                            &&& #[trigger] node_snapshots(
                                full_depth(),
                                imfs@,
                                project.name@,
                                project.tree@,
                                Map::empty(),
                                Ok(snapshot),
                                points,
                            )
                            &&& makes(
                                snapshot,
                                session_notes(Map::empty(), Map::empty(), ChangesView::none()),
                                tree_instances(tree),
                                tree_root(tree),
                                path_map@,
                                instance_metadata_map@,
                            )
                        };
                    assert(session@.points == points);
                    assert(project_snapshots(imfs@, *project, Ok(snapshot), session@.points));
                    assert(starts(imfs@, *project, session@));
                }
                Ok(session)
            },
            Err(panic) => {
                assert(project_snapshots(imfs@, *project, Err(panic@), points));
                Err(panic)
            },
        }
    }

    /// Brings the session in line with the file system after a change at `path`.
    fn path_created_or_updated(&mut self, imfs: &Imfs, path: &FilePath) -> (result: Result<
        Option<InstanceChanges>,
        UpdatePanic,
    >)
        requires
            update_meets_only(decodable(), imfs@, imfs.roots(), path@, old(self)@),
            old(self)@.well_formed(),
        ensures
            updates(imfs@, imfs.roots(), path@, old(self)@, update_view(result), final(self)@),
            final(self)@.well_formed(),
            fs_keyed(imfs@),
    {
        let ghost before = self@;
        let (instance_id, path_to_snapshot) = match find_target(&self.path_map, imfs, path) {
            Ok(target) => target,
            Err(panic) => return Err(panic),
        };
        let ghost target = path_to_snapshot.written();
        let maybe_snapshot = snapshot_instances_from_imfs(
            imfs,
            &path_to_snapshot,
            &mut self.sync_point_metadata,
            usize::MAX,
        );
        let ghost own = result_view(maybe_snapshot);
        let ghost points = points_view(self.sync_point_metadata);
        assert(step(own, points));
        assert(self@ == before.with_points(points));
        let snapshot = match maybe_snapshot {
            Ok(Some(snapshot)) => snapshot,
            Ok(None) => {
                assert(follows(instance_id, target, own, points, before, Ok(None), self@));
                return Ok(None);
            },
            Err(failure) => {
                assert(follows(
                    instance_id,
                    target,
                    own,
                    points,
                    before,
                    Err(UpdatePanicView::Snapshot { path: target, failure: failure@ }),
                    self@,
                ));
                return Err(UpdatePanic::Snapshot { path: path_to_snapshot, failure });
            },
        };
        if get_instance(&self.tree, instance_id).is_none() {
            assert(follows(
                instance_id,
                target,
                own,
                points,
                before,
                Err(UpdatePanicView::MissingInstance),
                self@,
            ));
            return Err(UpdatePanic::MissingInstance);
        }
        let mut changes = InstanceChanges::default();
        reconcile_subtree(
            &mut self.tree,
            instance_id,
            &snapshot,
            &mut self.path_map,
            &mut self.instance_metadata_map,
            &mut changes,
        );
        let result = if changes.is_empty() {
            Ok(None)
        } else {
            Ok(Some(changes))
        };
        assert(announced(update_view(result)) == changes@);
        assert(follows(instance_id, target, own, points, before, update_view(result), self@));
        result
    }

    /// Takes note that something has come to be at `path`.
    pub fn path_created(&mut self, imfs: &Imfs, path: &FilePath) -> (result: Result<
        Option<InstanceChanges>,
        UpdatePanic,
    >)
        requires
            update_meets_only(decodable(), imfs@, imfs.roots(), path@, old(self)@),
            old(self)@.well_formed(),
        ensures
            updates(imfs@, imfs.roots(), path@, old(self)@, update_view(result), final(self)@),
            final(self)@.well_formed(),
    {
        self.path_created_or_updated(imfs, path)
    }

    /// Takes note that what is at `path` has changed. Only files matter here.
    pub fn path_updated(&mut self, imfs: &Imfs, path: &FilePath) -> (result: Result<
        Option<InstanceChanges>,
        UpdatePanic,
    >)
        requires
            imfs@.contains_key(path@) && imfs@[path@] is File ==> update_meets_only(
                decodable(),
                imfs@,
                imfs.roots(),
                path@,
                old(self)@,
            ),
            old(self)@.well_formed(),
        ensures
            if imfs@.contains_key(path@) && imfs@[path@] is File {
                updates(imfs@, imfs.roots(), path@, old(self)@, update_view(result), final(self)@)
            } else {
                &&& result == Ok::<Option<InstanceChanges>, UpdatePanic>(None)
                &&& final(self)@ == old(self)@
            },
            final(self)@.well_formed(),
    {
        match imfs.get(path) {
            Some(ImfsItem::Directory(_)) | None => return Ok(None),
            Some(ImfsItem::File(_)) => {},
        }
        self.path_created_or_updated(imfs, path)
    }

    /// Takes note that what was at `path` is gone.
    pub fn path_removed(&mut self, imfs: &Imfs, path: &FilePath) -> (result: Result<
        Option<InstanceChanges>,
        UpdatePanic,
    >)
        requires
            update_meets_only(
                decodable(),
                imfs@,
                imfs.roots(),
                path@,
                old(self)@.without_path(path@),
            ),
            old(self)@.well_formed(),
        ensures
            updates(
                imfs@,
                imfs.roots(),
                path@,
                old(self)@.without_path(path@),
                update_view(result),
                final(self)@,
            ),
            final(self)@.well_formed(),
            !imfs@.contains_key(path@) ==> !final(self)@.paths.contains_key(path@),
    {
        let ghost before = self@;
        self.path_map.remove(path);
        assert(self@ == before.without_path(path@));
        let result = self.path_created_or_updated(imfs, path);
        proof {
            if !imfs@.contains_key(path@) {
                assert(path@.take(path@.len() as int) =~= path@);
                law_removed_path_is_forgotten(
                    imfs@,
                    imfs.roots(),
                    path@,
                    before,
                    update_view(result),
                    self@,
                    path@,
                );
            }
        }
        result
    }

    /// Takes note that what was at `from_path` is now at `to_path`, and returns the
    /// changes to announce, in order.
    pub fn path_renamed(&mut self, imfs: &Imfs, from_path: &FilePath, to_path: &FilePath) -> (result:
        Result<Vec<InstanceChanges>, RenamePanic>)
        requires
            rename_meets_only(
                decodable(),
                imfs@,
                imfs.roots(),
                from_path@,
                to_path@,
                old(self)@,
            ),
            old(self)@.well_formed(),
        ensures
            renames(
                imfs@,
                imfs.roots(),
                from_path@,
                to_path@,
                old(self)@,
                rename_view(result),
                final(self)@,
            ),
            final(self)@.well_formed(),
    {
        let ghost before = self@;
        self.path_map.remove(from_path);
        assert(self@ == before.without_path(from_path@));
        let first = self.path_created_or_updated(imfs, from_path);
        let ghost mid = self@;
        let ghost first_view = update_view(first);
        assert(updates(
            imfs@,
            imfs.roots(),
            from_path@,
            before.without_path(from_path@),
            first_view,
            mid,
        ));
        let mut messages: Vec<InstanceChanges> = Vec::new();
        match first {
            Err(panic) => {
                assert(changes_list(messages@) =~= Seq::empty());
                return Err(RenamePanic { messages, panic });
            },
            Ok(Some(changes)) => {
                messages.push(changes);
            },
            Ok(None) => {},
        }
        assert(changes_list(messages@) =~= messages_of(first_view));
        let second = self.path_created_or_updated(imfs, to_path);
        let ghost second_view = update_view(second);
        assert(updates(imfs@, imfs.roots(), to_path@, mid, second_view, self@));
        match second {
            Err(panic) => return Err(RenamePanic { messages, panic }),
            Ok(Some(changes)) => {
                messages.push(changes);
            },
            Ok(None) => {},
        }
        assert(changes_list(messages@) =~= messages_of(first_view) + messages_of(second_view));
        Ok(messages)
    }

    /// [`RbxSession::new`], unless a binary model is met whose decoding may not come to an
    /// end in good order.
    pub fn checked_new(project: &Project, imfs: &Imfs) -> (checked: Option<
        Result<RbxSession, SnapshotPanic>,
    >)
        ensures
            checked is Some <==> node_meets_only(
                unframed(),
                full_depth(),
                imfs@,
                project.tree@,
                Map::empty(),
            ),
            match checked {
                Some(Ok(session)) => session@.well_formed() && starts(imfs@, *project, session@),
                Some(Err(panic)) => exists|points: PointsView| #[trigger]
                    project_snapshots(imfs@, *project, Err(panic@), points),
                None => true,
            },
    {
        if project_is_clear(project, imfs) {
            Some(RbxSession::new(project, imfs))
        } else {
            None
        }
    }

    /// [`RbxSession::path_created`], unless the change leads to a binary model whose decoding
    /// may not come to an end in good order.
    pub fn checked_path_created(&mut self, imfs: &Imfs, path: &FilePath) -> (checked: Option<
        Result<Option<InstanceChanges>, UpdatePanic>,
    >)
        requires
            old(self)@.well_formed(),
        ensures
            checked is Some <==> update_meets_only(
                unframed(),
                imfs@,
                imfs.roots(),
                path@,
                old(self)@,
            ),
            match checked {
                Some(result) => updates(
                    imfs@,
                    imfs.roots(),
                    path@,
                    old(self)@,
                    update_view(result),
                    final(self)@,
                ),
                None => final(self)@ == old(self)@,
            },
            final(self)@.well_formed(),
    {
        if update_is_clear(&self.path_map, &self.sync_point_metadata, imfs, path) {
            Some(self.path_created(imfs, path))
        } else {
            None
        }
    }

    /// [`RbxSession::path_updated`], unless the change leads to a binary model whose decoding
    /// may not come to an end in good order.
    pub fn checked_path_updated(&mut self, imfs: &Imfs, path: &FilePath) -> (checked: Option<
        Result<Option<InstanceChanges>, UpdatePanic>,
    >)
        requires
            old(self)@.well_formed(),
        ensures
            checked is Some <==> (imfs@.contains_key(path@) && imfs@[path@] is File
                ==> update_meets_only(unframed(), imfs@, imfs.roots(), path@, old(self)@)),
            match checked {
                Some(result) => if imfs@.contains_key(path@) && imfs@[path@] is File {
                    updates(
                        imfs@,
                        imfs.roots(),
                        path@,
                        old(self)@,
                        update_view(result),
                        final(self)@,
                    )
                } else {
                    &&& result == Ok::<Option<InstanceChanges>, UpdatePanic>(None)
                    &&& final(self)@ == old(self)@
                },
                None => final(self)@ == old(self)@,
            },
            final(self)@.well_formed(),
    {
        let matters = match imfs.get(path) {
            Some(ImfsItem::File(_)) => true,
            _ => false,
        };
        if !matters || update_is_clear(&self.path_map, &self.sync_point_metadata, imfs, path) {
            Some(self.path_updated(imfs, path))
        } else {
            None
        }
    }

    /// [`RbxSession::path_removed`], unless the change leads to a binary model whose decoding
    /// may not come to an end in good order.
    pub fn checked_path_removed(&mut self, imfs: &Imfs, path: &FilePath) -> (checked: Option<
        Result<Option<InstanceChanges>, UpdatePanic>,
    >)
        requires
            old(self)@.well_formed(),
        ensures
            checked is Some <==> update_meets_only(
                unframed(),
                imfs@,
                imfs.roots(),
                path@,
                old(self)@.without_path(path@),
            ),
            match checked {
                Some(result) => {
                    &&& updates(
                        imfs@,
                        imfs.roots(),
                        path@,
                        old(self)@.without_path(path@),
                        update_view(result),
                        final(self)@,
                    )
                    &&& !imfs@.contains_key(path@) ==> !final(self)@.paths.contains_key(path@)
                },
                None => final(self)@ == old(self)@,
            },
            final(self)@.well_formed(),
    {
        let mut path_map = self.path_map.copy();
        path_map.remove(path);
        if update_is_clear(&path_map, &self.sync_point_metadata, imfs, path) {
            Some(self.path_removed(imfs, path))
        } else {
            None
        }
    }

    /// [`RbxSession::path_renamed`], but a change that leads to a binary model whose decoding
    /// may not come to an end in good order is not made.
    pub fn checked_path_renamed(
        &mut self,
        imfs: &Imfs,
        from_path: &FilePath,
        to_path: &FilePath,
    ) -> (checked: CheckedRename)
        requires
            old(self)@.well_formed(),
        ensures
            carefully_renames(
                imfs@,
                imfs.roots(),
                from_path@,
                to_path@,
                old(self)@,
                checked@,
                final(self)@,
            ),
            final(self)@.well_formed(),
    {
        let ghost before = self@;
        let first = match self.checked_path_removed(imfs, from_path) {
            Some(first) => first,
            None => return CheckedRename::Refused,
        };
        let ghost mid = self@;
        let ghost first_view = update_view(first);
        assert(updates(
            imfs@,
            imfs.roots(),
            from_path@,
            before.without_path(from_path@),
            first_view,
            mid,
        ));
        let mut messages: Vec<InstanceChanges> = Vec::new();
        match first {
            Err(panic) => {
                assert(changes_list(messages@) =~= Seq::empty());
                return CheckedRename::Done(Err(RenamePanic { messages, panic }));
            },
            Ok(Some(changes)) => {
                messages.push(changes);
            },
            Ok(None) => {},
        }
        assert(changes_list(messages@) =~= messages_of(first_view));
        let second = match self.checked_path_created(imfs, to_path) {
            Some(second) => second,
            None => return CheckedRename::Halfway(messages),
        };
        let ghost second_view = update_view(second);
        assert(updates(imfs@, imfs.roots(), to_path@, mid, second_view, self@));
        match second {
            Err(panic) => return CheckedRename::Done(Err(RenamePanic { messages, panic })),
            Ok(Some(changes)) => {
                messages.push(changes);
            },
            Ok(None) => {},
        }
        assert(changes_list(messages@) =~= messages_of(first_view) + messages_of(second_view));
        CheckedRename::Done(Ok(messages))
    }

    /// The tree of instances.
    pub fn get_tree(&self) -> (tree: &RbxTree)
        ensures
            tree_instances(*tree) == self@.instances,
            tree_root(*tree) == self@.root,
    {
        &self.tree
    }

    /// What the manifest says of instances, by ID.
    pub fn get_instance_metadata_map(&self) -> (map: &HashMap<u128, InstanceProjectNodeMetadata>)
        ensures
            map@ == self@.metadata,
    {
        &self.instance_metadata_map
    }

    /// Which instance stands for which path.
    pub fn debug_get_path_map(&self) -> (map: &PathMap<u128>)
        ensures
            map@ == self@.paths,
    {
        &self.path_map
    }
}

/// A path lies under the root that is found for it.
pub(crate) proof fn lemma_root(roots: Seq<WrittenPath>, path: PathView)
    ensures
        root_for_path(roots, path) matches Some(root) ==> starts_with(path, root.path),
    decreases roots.len(),
{
    if roots.len() > 0 {
        lemma_root(roots.drop_first(), path);
    }
}

} // verus!
