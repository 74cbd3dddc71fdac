//! The ways that walks take: what stands behind a result.
use crate::failure::{FailureView, PanicView};
use crate::imfs::{DirectoryView, FsView, ItemView};
use crate::path::{name_text, PathView, WrittenPath};
use crate::project::{ChildView, NodeView};
use crate::rbx_snapshot::SnapshotView;
use crate::sync_point::{PointsView, SyncPointView};
use crate::walk::{
    children_added, completes, entries_added, init_path, is_init_name, item_snapshots,
    node_as_path, node_snapshots, node_step, path_snapshots, step, sync_point_result, NodeResult,
    SnapResult,
};
use vstd::prelude::*;

verus! {

/// The way that a walk over an existing path takes: the snapshot of the entry
/// itself, and the sync points remembered after it.
pub(crate) proof fn path_way(
    depth: nat,
    fs: FsView,
    path: WrittenPath,
    before: PointsView,
    result: SnapResult,
    after: PointsView,
) -> (way: (SnapResult, PointsView))
    requires
        path_snapshots(depth, fs, path, before, result, after),
        depth > 0,
        fs.contains_key(path.path),
    ensures
        item_snapshots(depth, fs, fs[path.path], before, way.0, way.1),
        completes(depth, fs, path.path, way.1, way.0, result, after),
{
    choose|own: SnapResult, mid: PointsView|
        {
            &&& #[trigger] step(own, mid)
            &&& item_snapshots(depth, fs, fs[path.path], before, own, mid)
            &&& completes(depth, fs, path.path, mid, own, result, after)
        }
}

/// The way that a walk takes over the children that the manifest adds at a path.
pub(crate) proof fn completion_way(
    depth: nat,
    fs: FsView,
    path: PathView,
    points: PointsView,
    snapshot: SnapshotView,
    result: SnapResult,
    after: PointsView,
) -> (whole: NodeResult)
    requires
        completes(depth, fs, path, points, Ok(Some(snapshot)), result, after),
        points.contains_key(path),
    ensures
        children_added(depth, fs, points[path].children, snapshot, points, whole, after),
        result == node_as_path(whole),
{
    choose|whole: NodeResult|
        {
            &&& #[trigger] node_step(whole, after)
            &&& children_added(depth, fs, points[path].children, snapshot, points, whole, after)
            &&& result == node_as_path(whole)
        }
}

/// Whether a directory whose init script gives `own` gives `result`.
pub(crate) open spec fn init_leads_to(
    depth: nat,
    fs: FsView,
    directory: DirectoryView,
    own: SnapResult,
    mid: PointsView,
    result: SnapResult,
    after: PointsView,
) -> bool {
    match own {
        Ok(Some(snapshot)) => entries_added(
            depth,
            fs,
            directory,
            directory.children,
            snapshot,
            mid,
            result,
            after,
        ),
        Ok(None) => result == Err::<Option<SnapshotView>, FailureView>(
            FailureView::Panic(PanicView::InitEmpty),
        ) && after == mid,
        Err(failure) => result == own && after == mid,
    }
}

/// The way that a walk over a directory takes past its init script.
pub(crate) proof fn init_way(
    depth: nat,
    fs: FsView,
    directory: DirectoryView,
    before: PointsView,
    result: SnapResult,
    after: PointsView,
) -> (way: (SnapResult, PointsView))
    requires
        item_snapshots(depth, fs, ItemView::Directory(directory), before, result, after),
        depth > 0,
        init_path(directory) is Some,
    ensures
        path_snapshots((depth - 1) as nat, fs, init_path(directory)->0, before, way.0, way.1),
        init_leads_to(depth, fs, directory, way.0, way.1, result, after),
{
    let init = init_path(directory)->0;
    choose|own: SnapResult, mid: PointsView|
        {
            &&& #[trigger] step(own, mid)
            &&& path_snapshots((depth - 1) as nat, fs, init, before, own, mid)
            &&& init_leads_to(depth, fs, directory, own, mid, result, after)
        }
}

/// Whether a directory of which one entry gives `own` gives `result`.
pub(crate) open spec fn entry_leads_to(
    depth: nat,
    fs: FsView,
    directory: DirectoryView,
    rest: Seq<WrittenPath>,
    snapshot: SnapshotView,
    own: SnapResult,
    mid: PointsView,
    result: SnapResult,
    after: PointsView,
) -> bool {
    match own {
        Ok(Some(child)) => entries_added(
            depth,
            fs,
            directory,
            rest.drop_first(),
            snapshot.with_child(child),
            mid,
            result,
            after,
        ),
        Ok(None) => entries_added(
            depth,
            fs,
            directory,
            rest.drop_first(),
            snapshot,
            mid,
            result,
            after,
        ),
        Err(failure) => result == own && after == mid,
    }
}

/// The way that a walk over a directory takes past an entry.
pub(crate) proof fn entry_way(
    depth: nat,
    fs: FsView,
    directory: DirectoryView,
    rest: Seq<WrittenPath>,
    snapshot: SnapshotView,
    points: PointsView,
    result: SnapResult,
    after: PointsView,
) -> (way: (SnapResult, PointsView))
    requires
        entries_added(depth, fs, directory, rest, snapshot, points, result, after),
        depth > 0,
        rest.len() > 0,
        name_text(rest[0].path) is Some,
        !is_init_name(name_text(rest[0].path)->0),
    ensures
        path_snapshots((depth - 1) as nat, fs, rest[0], points, way.0, way.1),
        entry_leads_to(depth, fs, directory, rest, snapshot, way.0, way.1, result, after),
{
    choose|own: SnapResult, mid: PointsView|
        {
            &&& #[trigger] step(own, mid)
            &&& path_snapshots((depth - 1) as nat, fs, rest[0], points, own, mid)
            &&& entry_leads_to(depth, fs, directory, rest, snapshot, own, mid, result, after)
        }
}

/// What is remembered after a sync point whose path gives `own`.
pub(crate) open spec fn sync_point_after(
    name: Seq<char>,
    path: WrittenPath,
    children: Seq<ChildView>,
    own: SnapResult,
    mid: PointsView,
) -> PointsView {
    if own matches Ok(Some(_)) {
        mid.insert(path.path, SyncPointView { instance_name: name, children })
    } else {
        mid
    }
}

/// The way that a walk over a sync point takes.
pub(crate) proof fn sync_point_way(
    depth: nat,
    fs: FsView,
    name: Seq<char>,
    path: WrittenPath,
    children: Seq<ChildView>,
    before: PointsView,
    result: NodeResult,
    after: PointsView,
) -> (way: (SnapResult, PointsView))
    requires
        node_snapshots(
            depth,
            fs,
            name,
            NodeView::SyncPoint { path, children },
            before,
            result,
            after,
        ),
        depth > 0,
    ensures
        path_snapshots((depth - 1) as nat, fs, path, before, way.0, way.1),
        result == sync_point_result(name, way.0),
        after == sync_point_after(name, path, children, way.0, way.1),
{
    choose|own: SnapResult, mid: PointsView|
        {
            &&& #[trigger] step(own, mid)
            &&& path_snapshots((depth - 1) as nat, fs, path, before, own, mid)
            &&& result == sync_point_result(name, own)
            &&& after == sync_point_after(name, path, children, own, mid)
        }
}

/// Whether an instance of which one manifest child gives `own` becomes `result`.
pub(crate) open spec fn child_leads_to(
    depth: nat,
    fs: FsView,
    rest: Seq<ChildView>,
    snapshot: SnapshotView,
    own: NodeResult,
    mid: PointsView,
    result: NodeResult,
    after: PointsView,
) -> bool {
    match own {
        Ok(child) => children_added(
            depth,
            fs,
            rest.drop_first(),
            snapshot.with_child(child),
            mid,
            result,
            after,
        ),
        Err(panic) => result == own && after == mid,
    }
}

/// The way that a walk over manifest nodes takes past the first of them.
pub(crate) proof fn child_way(
    depth: nat,
    fs: FsView,
    rest: Seq<ChildView>,
    snapshot: SnapshotView,
    points: PointsView,
    result: NodeResult,
    after: PointsView,
) -> (way: (NodeResult, PointsView))
    requires
        children_added(depth, fs, rest, snapshot, points, result, after),
        rest.len() > 0,
    ensures
        node_snapshots(depth, fs, rest[0].name, rest[0].node, points, way.0, way.1),
        child_leads_to(depth, fs, rest, snapshot, way.0, way.1, result, after),
{
    choose|own: NodeResult, mid: PointsView|
        {
            &&& #[trigger] node_step(own, mid)
            &&& node_snapshots(depth, fs, rest[0].name, rest[0].node, points, own, mid)
            &&& child_leads_to(depth, fs, rest, snapshot, own, mid, result, after)
        }
}

/// The instance that a manifest node describes, before its children are added.
pub open spec fn bare_instance(name: Seq<char>, node: NodeView) -> SnapshotView {
    SnapshotView {
        name,
        class_name: node->class_name,
        properties: node->properties,
        children: Seq::empty(),
        source_path: None,
        metadata: Some(node->metadata),
    }
}

} // verus!
