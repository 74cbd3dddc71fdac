//! What walks do to the sync points that are remembered.
use crate::imfs::{DirectoryView, FsView, ItemView};
use crate::laws::ways::{
    bare_instance, child_way, completion_way, entry_way, init_way, path_way, sync_point_way,
};
use crate::path::{name_text, PathView, WrittenPath};
use crate::project::{children_mention, mentions, ChildView, NodeView};
use crate::rbx_snapshot::SnapshotView;
use crate::sync_point::{unmentioned, PointsView};
use crate::walk::{
    children_added, entries_added, folder, init_path, is_init_name, item_snapshots, node_snapshots,
    path_snapshots, NodeResult, SnapResult,
};
use vstd::prelude::*;

verus! {

/// Whether the same is remembered of `path`, and nothing new leads to it.
pub open spec fn unchanged_at(before: PointsView, after: PointsView, path: PathView) -> bool {
    &&& unmentioned(after, path)
    &&& after.contains_key(path) <==> before.contains_key(path)
    &&& before.contains_key(path) ==> after[path] == before[path]
}

/// A walk changes nothing that is remembered of a path that no manifest node
/// leads to.
pub proof fn law_unmentioned_unchanged(
    depth: nat,
    fs: FsView,
    path: WrittenPath,
    before: PointsView,
    result: SnapResult,
    after: PointsView,
    place: PathView,
)
    requires
        path_snapshots(depth, fs, path, before, result, after),
        unmentioned(before, place),
    ensures
        unchanged_at(before, after, place),
    decreases depth, 4nat, 0nat, path,
{
    if depth > 0 && fs.contains_key(path.path) {
        let (own, mid) = path_way(depth, fs, path, before, result, after);
        law_unmentioned_unchanged_item(depth, fs, fs[path.path], before, own, mid, place);
        if let Ok(Some(snapshot)) = own {
            if mid.contains_key(path.path) {
                let whole = completion_way(depth, fs, path.path, mid, snapshot, result, after);
                law_unmentioned_unchanged_children(
                    depth,
                    fs,
                    mid[path.path].children,
                    snapshot,
                    mid,
                    whole,
                    after, place,
                );
            }
        }
    }
}

pub(crate) proof fn law_unmentioned_unchanged_item(
    depth: nat,
    fs: FsView,
    item: ItemView,
    before: PointsView,
    result: SnapResult,
    after: PointsView,
    place: PathView,
)
    requires
        item_snapshots(depth, fs, item, before, result, after),
        unmentioned(before, place),
    ensures
        unchanged_at(before, after, place),
    decreases depth, 3nat, 0nat, item,
{
    if let ItemView::Directory(directory) = item {
        if depth > 0 {
            if let Some(init) = init_path(directory) {
                let (own, mid) = init_way(depth, fs, directory, before, result, after);
                law_unmentioned_unchanged((depth - 1) as nat, fs, init, before, own, mid, place);
                if let Ok(Some(snapshot)) = own {
                    law_unmentioned_unchanged_entries(
                        depth,
                        fs,
                        directory,
                        directory.children,
                        snapshot,
                        mid,
                        result,
                        after, place,
                    );
                }
            } else {
                law_unmentioned_unchanged_entries(
                    depth,
                    fs,
                    directory,
                    directory.children,
                    folder(directory.path.path),
                    before,
                    result,
                    after, place,
                );
            }
        }
    }
}

proof fn law_unmentioned_unchanged_entries(
    depth: nat,
    fs: FsView,
    directory: DirectoryView,
    rest: Seq<WrittenPath>,
    snapshot: SnapshotView,
    points: PointsView,
    result: SnapResult,
    after: PointsView,
    place: PathView,
)
    requires
        entries_added(depth, fs, directory, rest, snapshot, points, result, after),
        unmentioned(points, place),
    ensures
        unchanged_at(points, after, place),
    decreases depth, 2nat, rest.len(), rest,
{
    if rest.len() > 0 && name_text(rest[0].path) is Some {
        let tail = rest.drop_first();
        if is_init_name(name_text(rest[0].path)->0) {
            law_unmentioned_unchanged_entries(depth, fs, directory, tail, snapshot, points, result, after, place);
        } else if depth > 0 {
            let (own, mid) = entry_way(
                depth,
                fs,
                directory,
                rest,
                snapshot,
                points,
                result,
                after,
            );
            law_unmentioned_unchanged((depth - 1) as nat, fs, rest[0], points, own, mid, place);
            if let Ok(Some(child)) = own {
                let grown = snapshot.with_child(child);
                law_unmentioned_unchanged_entries(depth, fs, directory, tail, grown, mid, result, after, place);
            } else if own is Ok {
                law_unmentioned_unchanged_entries(depth, fs, directory, tail, snapshot, mid, result, after, place);
            }
        }
    }
}

pub(crate) proof fn law_unmentioned_unchanged_node(
    depth: nat,
    fs: FsView,
    name: Seq<char>,
    node: NodeView,
    before: PointsView,
    result: NodeResult,
    after: PointsView,
    place: PathView,
)
    requires
        node_snapshots(depth, fs, name, node, before, result, after),
        unmentioned(before, place),
        !mentions(node, place),
    ensures
        unchanged_at(before, after, place),
    decreases depth, 0nat, 0nat, node,
{
    match node {
        NodeView::Instance { children, .. } => {
            law_unmentioned_unchanged_children(
                depth,
                fs,
                children,
                bare_instance(name, node),
                before,
                result,
                after, place,
            );
        },
        NodeView::SyncPoint { path, children } => {
            if depth > 0 {
                let (own, mid) = sync_point_way(
                    depth,
                    fs,
                    name,
                    path,
                    children,
                    before,
                    result,
                    after,
                );
                law_unmentioned_unchanged((depth - 1) as nat, fs, path, before, own, mid, place);
            }
        },
    }
}

proof fn law_unmentioned_unchanged_children(
    depth: nat,
    fs: FsView,
    rest: Seq<ChildView>,
    snapshot: SnapshotView,
    points: PointsView,
    result: NodeResult,
    after: PointsView,
    place: PathView,
)
    requires
        children_added(depth, fs, rest, snapshot, points, result, after),
        unmentioned(points, place),
        !children_mention(rest, place),
    ensures
        unchanged_at(points, after, place),
    decreases depth, 0nat, 0nat, rest,
{
    if rest.len() > 0 {
        let (own, mid) = child_way(depth, fs, rest, snapshot, points, result, after);
        assert(!mentions(rest[0].node, place));
        law_unmentioned_unchanged_node(depth, fs, rest[0].name, rest[0].node, points, own, mid, place);
        if let Ok(child) = own {
            let grown = snapshot.with_child(child);
            assert forall|i: int| 0 <= i < rest.drop_first().len() implies !mentions(
                (#[trigger] rest.drop_first()[i]).node,
                place,
            ) by {
                assert(!mentions(rest[i + 1].node, place));
            }
            law_unmentioned_unchanged_children(depth, fs, rest.drop_first(), grown, mid, result, after, place);
        }
    }
}

/// A walk forgets no sync point.
pub proof fn law_points_stay(
    depth: nat,
    fs: FsView,
    path: WrittenPath,
    before: PointsView,
    result: SnapResult,
    after: PointsView,
    place: PathView,
)
    requires
        path_snapshots(depth, fs, path, before, result, after),
        before.contains_key(place),
    ensures
        after.contains_key(place),
    decreases depth, 4nat, 0nat, path,
{
    if depth > 0 && fs.contains_key(path.path) {
        let (own, mid) = path_way(depth, fs, path, before, result, after);
        law_points_stay_item(depth, fs, fs[path.path], before, own, mid, place);
        if let Ok(Some(snapshot)) = own {
            if mid.contains_key(path.path) {
                let whole = completion_way(depth, fs, path.path, mid, snapshot, result, after);
                law_points_stay_children(
                    depth,
                    fs,
                    mid[path.path].children,
                    snapshot,
                    mid,
                    whole,
                    after, place,
                );
            }
        }
    }
}

proof fn law_points_stay_item(
    depth: nat,
    fs: FsView,
    item: ItemView,
    before: PointsView,
    result: SnapResult,
    after: PointsView,
    place: PathView,
)
    requires
        item_snapshots(depth, fs, item, before, result, after),
        before.contains_key(place),
    ensures
        after.contains_key(place),
    decreases depth, 3nat, 0nat, item,
{
    if let ItemView::Directory(directory) = item {
        if depth > 0 {
            if let Some(init) = init_path(directory) {
                let (own, mid) = init_way(depth, fs, directory, before, result, after);
                law_points_stay((depth - 1) as nat, fs, init, before, own, mid, place);
                if let Ok(Some(snapshot)) = own {
                    law_points_stay_entries(
                        depth,
                        fs,
                        directory,
                        directory.children,
                        snapshot,
                        mid,
                        result,
                        after, place,
                    );
                }
            } else {
                law_points_stay_entries(
                    depth,
                    fs,
                    directory,
                    directory.children,
                    folder(directory.path.path),
                    before,
                    result,
                    after, place,
                );
            }
        }
    }
}

proof fn law_points_stay_entries(
    depth: nat,
    fs: FsView,
    directory: DirectoryView,
    rest: Seq<WrittenPath>,
    snapshot: SnapshotView,
    points: PointsView,
    result: SnapResult,
    after: PointsView,
    place: PathView,
)
    requires
        entries_added(depth, fs, directory, rest, snapshot, points, result, after),
        points.contains_key(place),
    ensures
        after.contains_key(place),
    decreases depth, 2nat, rest.len(), rest,
{
    if rest.len() > 0 && name_text(rest[0].path) is Some {
        let tail = rest.drop_first();
        if is_init_name(name_text(rest[0].path)->0) {
            law_points_stay_entries(depth, fs, directory, tail, snapshot, points, result, after, place);
        } else if depth > 0 {
            let (own, mid) = entry_way(
                depth,
                fs,
                directory,
                rest,
                snapshot,
                points,
                result,
                after,
            );
            law_points_stay((depth - 1) as nat, fs, rest[0], points, own, mid, place);
            if let Ok(Some(child)) = own {
                let grown = snapshot.with_child(child);
                law_points_stay_entries(depth, fs, directory, tail, grown, mid, result, after, place);
            } else if own is Ok {
                law_points_stay_entries(depth, fs, directory, tail, snapshot, mid, result, after, place);
            }
        }
    }
}

proof fn law_points_stay_node(
    depth: nat,
    fs: FsView,
    name: Seq<char>,
    node: NodeView,
    before: PointsView,
    result: NodeResult,
    after: PointsView,
    place: PathView,
)
    requires
        node_snapshots(depth, fs, name, node, before, result, after),
        before.contains_key(place),
    ensures
        after.contains_key(place),
    decreases depth, 0nat, 0nat, node,
{
    match node {
        NodeView::Instance { children, .. } => {
            law_points_stay_children(
                depth,
                fs,
                children,
                bare_instance(name, node),
                before,
                result,
                after, place,
            );
        },
        NodeView::SyncPoint { path, children } => {
            if depth > 0 {
                let (own, mid) = sync_point_way(
                    depth,
                    fs,
                    name,
                    path,
                    children,
                    before,
                    result,
                    after,
                );
                law_points_stay((depth - 1) as nat, fs, path, before, own, mid, place);
            }
        },
    }
}

proof fn law_points_stay_children(
    depth: nat,
    fs: FsView,
    rest: Seq<ChildView>,
    snapshot: SnapshotView,
    points: PointsView,
    result: NodeResult,
    after: PointsView,
    place: PathView,
)
    requires
        children_added(depth, fs, rest, snapshot, points, result, after),
        points.contains_key(place),
    ensures
        after.contains_key(place),
    decreases depth, 0nat, 0nat, rest,
{
    if rest.len() > 0 {
        let (own, mid) = child_way(depth, fs, rest, snapshot, points, result, after);
        law_points_stay_node(depth, fs, rest[0].name, rest[0].node, points, own, mid, place);
        if let Ok(child) = own {
            let grown = snapshot.with_child(child);
            law_points_stay_children(depth, fs, rest.drop_first(), grown, mid, result, after, place);
        }
    }
}

} // verus!
