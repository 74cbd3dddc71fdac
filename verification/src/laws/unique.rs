//! Walks without chance in them.
use crate::file_type::{classify, FileType};
use crate::imfs::{DirectoryView, FileView, FsView, ItemView};
use crate::laws::ways::{
    bare_instance, child_way, completion_way, entry_way, init_way, path_way, sync_point_way,
};
use crate::model::binary_outcomes;
use crate::path::{name_text, PathView, WrittenPath};
use crate::project::{ChildView, NodeView};
use crate::rbx_snapshot::SnapshotView;
use crate::sync_point::PointsView;
use crate::walk::{
    children_added, entries_added, folder, init_path, is_init_name, item_snapshots, node_snapshots,
    path_snapshots, NodeResult, SnapResult,
};
use vstd::prelude::*;

verus! {

/// Whether a file, if it is a binary model, can be decoded in one way at most. The
/// decoder puts children in no fixed order.
pub open spec fn is_sure_model(file: FileView) -> bool {
    classify(file.path.path) matches Some((_, FileType::BinaryModel)) ==> forall|
        left: Result<Seq<SnapshotView>, Seq<char>>,
        right: Result<Seq<SnapshotView>, Seq<char>>,
    |
        #[trigger] binary_outcomes(file.contents).contains(left)
            && #[trigger] binary_outcomes(file.contents).contains(right) ==> left == right
}

/// Whether every binary model in the file system can be decoded in one way at most.
pub open spec fn sure_models(fs: FsView) -> bool {
    forall|path: PathView| #[trigger]
        fs.contains_key(path) ==> match fs[path] {
            ItemView::File(file) => is_sure_model(file),
            ItemView::Directory(_) => true,
        }
}

/// Where every binary model can be decoded in one way at most, the snapshot of a path
/// is determined by the file system and the sync points that are remembered, and so
/// are the sync points that are remembered after it.
pub proof fn law_unique(
    depth: nat,
    fs: FsView,
    path: WrittenPath,
    before: PointsView,
    result: SnapResult,
    after: PointsView,
    other_result: SnapResult,
    other_after: PointsView,
)
    requires
        sure_models(fs),
        path_snapshots(depth, fs, path, before, result, after),
        path_snapshots(depth, fs, path, before, other_result, other_after),
    ensures
        result == other_result,
        after == other_after,
    decreases depth, 4nat, 0nat, path,
{
    if depth > 0 && fs.contains_key(path.path) {
        let (own, mid) = path_way(depth, fs, path, before, result, after);
        let (other, other_mid) = path_way(depth, fs, path, before, other_result, other_after);
        lemma_item(depth, fs, path.path, before, own, mid, other, other_mid);
        if let Ok(Some(snapshot)) = own {
            if mid.contains_key(path.path) {
                let children = mid[path.path].children;
                let whole = completion_way(depth, fs, path.path, mid, snapshot, result, after);
                let other_whole = completion_way(
                    depth,
                    fs,
                    path.path,
                    mid,
                    snapshot,
                    other_result,
                    other_after,
                );
                lemma_children(
                    depth,
                    fs,
                    children,
                    snapshot,
                    mid,
                    whole,
                    after,
                    other_whole,
                    other_after,
                );
            }
        }
    }
}

pub(crate) proof fn lemma_item(
    depth: nat,
    fs: FsView,
    path: PathView,
    before: PointsView,
    result: SnapResult,
    after: PointsView,
    other_result: SnapResult,
    other_after: PointsView,
)
    requires
        sure_models(fs),
        fs.contains_key(path),
        item_snapshots(depth, fs, fs[path], before, result, after),
        item_snapshots(depth, fs, fs[path], before, other_result, other_after),
    ensures
        result == other_result,
        after == other_after,
    decreases depth, 3nat, 0nat, path,
{
    if let ItemView::Directory(directory) = fs[path] {
        let entries = directory.children;
        if depth == 0 {
        } else if let Some(init) = init_path(directory) {
            let (own, mid) = init_way(depth, fs, directory, before, result, after);
            let (other, other_mid) = init_way(
                depth,
                fs,
                directory,
                before,
                other_result,
                other_after,
            );
            law_unique((depth - 1) as nat, fs, init, before, own, mid, other, other_mid);
            if let Ok(Some(snapshot)) = own {
                lemma_entries(
                    depth,
                    fs,
                    directory,
                    entries,
                    snapshot,
                    mid,
                    result,
                    after,
                    other_result,
                    other_after,
                );
            }
        } else {
            lemma_entries(
                depth,
                fs,
                directory,
                entries,
                folder(directory.path.path),
                before,
                result,
                after,
                other_result,
                other_after,
            );
        }
    }
}

proof fn lemma_entries(
    depth: nat,
    fs: FsView,
    directory: DirectoryView,
    rest: Seq<WrittenPath>,
    snapshot: SnapshotView,
    points: PointsView,
    result: SnapResult,
    after: PointsView,
    other_result: SnapResult,
    other_after: PointsView,
)
    requires
        sure_models(fs),
        entries_added(depth, fs, directory, rest, snapshot, points, result, after),
        entries_added(depth, fs, directory, rest, snapshot, points, other_result, other_after),
    ensures
        result == other_result,
        after == other_after,
    decreases depth, 2nat, rest.len(), rest,
{
    if rest.len() > 0 && name_text(rest[0].path) is Some {
        let tail = rest.drop_first();
        if is_init_name(name_text(rest[0].path)->0) {
            lemma_entries(
                depth,
                fs,
                directory,
                tail,
                snapshot,
                points,
                result,
                after,
                other_result,
                other_after,
            );
        } else if depth > 0 {
            let (own, mid) = entry_way(
                depth,
                fs,
                directory,
                rest,
                snapshot,
                points,
                result,
                after,
            );
            let (other, other_mid) = entry_way(
                depth,
                fs,
                directory,
                rest,
                snapshot,
                points,
                other_result,
                other_after,
            );
            law_unique((depth - 1) as nat, fs, rest[0], points, own, mid, other, other_mid);
            if own is Ok {
                let grown = if let Ok(Some(child)) = own {
                    snapshot.with_child(child)
                } else {
                    snapshot
                };
                lemma_entries(
                    depth,
                    fs,
                    directory,
                    tail,
                    grown,
                    mid,
                    result,
                    after,
                    other_result,
                    other_after,
                );
            }
        }
    }
}

/// The same for manifest nodes.
pub proof fn law_node_unique(
    depth: nat,
    fs: FsView,
    name: Seq<char>,
    node: NodeView,
    before: PointsView,
    result: NodeResult,
    after: PointsView,
    other_result: NodeResult,
    other_after: PointsView,
)
    requires
        sure_models(fs),
        node_snapshots(depth, fs, name, node, before, result, after),
        node_snapshots(depth, fs, name, node, before, other_result, other_after),
    ensures
        result == other_result,
        after == other_after,
    decreases depth, 0nat, 0nat, node,
{
    match node {
        NodeView::Instance { children, .. } => {
            lemma_children(
                depth,
                fs,
                children,
                bare_instance(name, node),
                before,
                result,
                after,
                other_result,
                other_after,
            );
        },
        NodeView::SyncPoint { path, children } => {
            if depth > 0 {
                let (own, mid) = sync_point_way(
                    depth,
                    fs,
                    name,
                    path,
                    children,
                    before,
                    result,
                    after,
                );
                let (other, other_mid) = sync_point_way(
                    depth,
                    fs,
                    name,
                    path,
                    children,
                    before,
                    other_result,
                    other_after,
                );
                law_unique((depth - 1) as nat, fs, path, before, own, mid, other, other_mid);
            }
        },
    }
}

proof fn lemma_children(
    depth: nat,
    fs: FsView,
    rest: Seq<ChildView>,
    snapshot: SnapshotView,
    points: PointsView,
    result: NodeResult,
    after: PointsView,
    other_result: NodeResult,
    other_after: PointsView,
)
    requires
        sure_models(fs),
        children_added(depth, fs, rest, snapshot, points, result, after),
        children_added(depth, fs, rest, snapshot, points, other_result, other_after),
    ensures
        result == other_result,
        after == other_after,
    decreases depth, 0nat, 0nat, rest,
{
    if rest.len() > 0 {
        let name = rest[0].name;
        let node = rest[0].node;
        let (own, mid) = child_way(depth, fs, rest, snapshot, points, result, after);
        let (other, other_mid) = child_way(
            depth,
            fs,
            rest,
            snapshot,
            points,
            other_result,
            other_after,
        );
        law_node_unique(depth, fs, name, node, points, own, mid, other, other_mid);
        if let Ok(child) = own {
            let grown = snapshot.with_child(child);
            lemma_children(
                depth,
                fs,
                rest.drop_first(),
                grown,
                mid,
                result,
                after,
                other_result,
                other_after,
            );
        }
    }
}

} // verus!
