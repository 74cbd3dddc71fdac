//! The bound on the depth of a walk.
use crate::failure::{FailureView, PanicView};
use crate::imfs::{DirectoryView, FsView, ItemView};
use crate::laws::ways::{
    bare_instance, child_leads_to, child_way, completion_way, entry_leads_to, entry_way,
    init_leads_to, init_way, path_way, sync_point_way,
};
use crate::path::{name_text, WrittenPath};
use crate::project::{ChildView, NodeView};
use crate::rbx_snapshot::SnapshotView;
use crate::sync_point::PointsView;
use crate::walk::{
    children_added, completes, entries_added, folder, init_path, is_init_name, item_snapshots,
    node_snapshots, node_step, path_snapshots, step, NodeResult, SnapResult,
};
use vstd::prelude::*;

verus! {

/// Whether a walk ran into the bound on its depth.
pub open spec fn hit_bound(result: SnapResult) -> bool {
    result == Err::<Option<SnapshotView>, FailureView>(FailureView::Panic(PanicView::TooDeep))
}

/// Whether a walk over manifest nodes ran into the bound on its depth.
pub open spec fn node_hit_bound(result: NodeResult) -> bool {
    result == Err::<SnapshotView, PanicView>(PanicView::TooDeep)
}

/// The bound on the depth matters only to walks that run into it: any other result
/// is also a result of the walk with a higher bound.
pub proof fn law_depth(
    depth: nat,
    deeper: nat,
    fs: FsView,
    path: WrittenPath,
    before: PointsView,
    result: SnapResult,
    after: PointsView,
)
    requires
        path_snapshots(depth, fs, path, before, result, after),
        !hit_bound(result),
        depth <= deeper,
    ensures
        path_snapshots(deeper, fs, path, before, result, after),
    decreases depth, 4nat, 0nat, path,
{
    if fs.contains_key(path.path) {
        let (own, mid) = path_way(depth, fs, path, before, result, after);
        assert(step(own, mid));
        lemma_item(depth, deeper, fs, fs[path.path], before, own, mid);
        if let Ok(Some(snapshot)) = own {
            if mid.contains_key(path.path) {
                let whole = completion_way(depth, fs, path.path, mid, snapshot, result, after);
                assert(node_step(whole, after));
                let children = mid[path.path].children;
                lemma_children(depth, deeper, fs, children, snapshot, mid, whole, after);
            }
        }
        assert(completes(deeper, fs, path.path, mid, own, result, after));
    }
}

pub(crate) proof fn lemma_item(
    depth: nat,
    deeper: nat,
    fs: FsView,
    item: ItemView,
    before: PointsView,
    result: SnapResult,
    after: PointsView,
)
    requires
        item_snapshots(depth, fs, item, before, result, after),
        !hit_bound(result),
        0 < depth <= deeper,
    ensures
        item_snapshots(deeper, fs, item, before, result, after),
    decreases depth, 3nat, 0nat, item,
{
    if let ItemView::Directory(directory) = item {
        let entries = directory.children;
        if let Some(init) = init_path(directory) {
            let (own, mid) = init_way(depth, fs, directory, before, result, after);
            assert(step(own, mid));
            law_depth(
                (depth - 1) as nat,
                (deeper - 1) as nat,
                fs,
                init,
                before,
                own,
                mid,
            );
            if let Ok(Some(snapshot)) = own {
                lemma_entries(
                    depth,
                    deeper,
                    fs,
                    directory,
                    entries,
                    snapshot,
                    mid,
                    result,
                    after,
                );
            }
            assert(init_leads_to(deeper, fs, directory, own, mid, result, after));
        } else {
            let snapshot = folder(directory.path.path);
            lemma_entries(
                depth,
                deeper,
                fs,
                directory,
                entries,
                snapshot,
                before,
                result,
                after,
            );
        }
    }
}

proof fn lemma_entries(
    depth: nat,
    deeper: nat,
    fs: FsView,
    directory: DirectoryView,
    rest: Seq<WrittenPath>,
    snapshot: SnapshotView,
    points: PointsView,
    result: SnapResult,
    after: PointsView,
)
    requires
        entries_added(depth, fs, directory, rest, snapshot, points, result, after),
        !hit_bound(result),
        0 < depth <= deeper,
    ensures
        entries_added(deeper, fs, directory, rest, snapshot, points, result, after),
    decreases depth, 2nat, rest.len(), rest,
{
    if rest.len() > 0 && name_text(rest[0].path) is Some {
        let tail = rest.drop_first();
        if is_init_name(name_text(rest[0].path)->0) {
            lemma_entries(
                depth,
                deeper,
                fs,
                directory,
                tail,
                snapshot,
                points,
                result,
                after,
            );
        } else {
            let (own, mid) = entry_way(
                depth,
                fs,
                directory,
                rest,
                snapshot,
                points,
                result,
                after,
            );
            assert(step(own, mid));
            law_depth(
                (depth - 1) as nat,
                (deeper - 1) as nat,
                fs,
                rest[0],
                points,
                own,
                mid,
            );
            if let Ok(Some(child)) = own {
                let grown = snapshot.with_child(child);
                lemma_entries(depth, deeper, fs, directory, tail, grown, mid, result, after);
            } else if own is Ok {
                lemma_entries(depth, deeper, fs, directory, tail, snapshot, mid, result, after);
            }
            assert(entry_leads_to(
                deeper,
                fs,
                directory,
                rest,
                snapshot,
                own,
                mid,
                result,
                after,
            ));
        }
    }
}

/// The same for manifest nodes.
pub proof fn law_node_depth(
    depth: nat,
    deeper: nat,
    fs: FsView,
    name: Seq<char>,
    node: NodeView,
    before: PointsView,
    result: NodeResult,
    after: PointsView,
)
    requires
        node_snapshots(depth, fs, name, node, before, result, after),
        !node_hit_bound(result),
        depth <= deeper,
    ensures
        node_snapshots(deeper, fs, name, node, before, result, after),
    decreases depth, 0nat, 0nat, node,
{
    match node {
        NodeView::Instance { children, .. } => {
            let base = bare_instance(name, node);
            lemma_children(depth, deeper, fs, children, base, before, result, after);
        },
        NodeView::SyncPoint { path, children } => {
            let (own, mid) = sync_point_way(
                depth,
                fs,
                name,
                path,
                children,
                before,
                result,
                after,
            );
            assert(step(own, mid));
            law_depth((depth - 1) as nat, (deeper - 1) as nat, fs, path, before, own, mid);
        },
    }
}

proof fn lemma_children(
    depth: nat,
    deeper: nat,
    fs: FsView,
    rest: Seq<ChildView>,
    snapshot: SnapshotView,
    points: PointsView,
    result: NodeResult,
    after: PointsView,
)
    requires
        children_added(depth, fs, rest, snapshot, points, result, after),
        !node_hit_bound(result),
        depth <= deeper,
    ensures
        children_added(deeper, fs, rest, snapshot, points, result, after),
    decreases depth, 0nat, 0nat, rest,
{
    if rest.len() > 0 {
        let (own, mid) = child_way(depth, fs, rest, snapshot, points, result, after);
        assert(node_step(own, mid));
        law_node_depth(depth, deeper, fs, rest[0].name, rest[0].node, points, own, mid);
        if let Ok(child) = own {
            let grown = snapshot.with_child(child);
            let tail = rest.drop_first();
            lemma_children(depth, deeper, fs, tail, grown, mid, result, after);
        }
        assert(child_leads_to(deeper, fs, rest, snapshot, own, mid, result, after));
    }
}

} // verus!
