//! Snapshots come from what there is.
use crate::file_type::{classify, FileType};
use crate::imfs::{fs_keyed, DirectoryView, FileView, FsView, ItemView};
use crate::laws::paths::{forest_sources, lemma_paths_concat, lemma_sources, sources};
use crate::laws::ways::{
    bare_instance, child_way, completion_way, entry_way, init_way, path_way, sync_point_way,
};
use crate::model::{is_binary_outcome, is_unsourced};
use crate::path::{name_text, PathView, WrittenPath};
use crate::project::{ChildView, NodeView};
use crate::rbx_snapshot::SnapshotView;
use crate::sync_point::PointsView;
use crate::walk::{
    children_added, entries_added, file_snapshots, folder, init_path, is_init_name, item_snapshots,
    node_snapshots, path_snapshots, NodeResult, SnapResult,
};
use vstd::prelude::*;

verus! {

/// Whether a result holds no instance from a path.
pub open spec fn absent(result: SnapResult, place: PathView) -> bool {
    result matches Ok(Some(snapshot)) ==> !sources(snapshot).contains(place)
}

/// Whether the result of a manifest node holds no instance from a path.
pub open spec fn node_absent(result: NodeResult, place: PathView) -> bool {
    result matches Ok(snapshot) ==> !sources(snapshot).contains(place)
}

proof fn lemma_child_sources(snapshot: SnapshotView, child: SnapshotView, place: PathView)
    requires
        !sources(snapshot).contains(place),
        !sources(child).contains(place),
    ensures
        !sources(snapshot.with_child(child)).contains(place),
{
    let grown = snapshot.with_child(child);
    lemma_sources(snapshot, place);
    lemma_sources(grown, place);
    assert(grown.children.drop_last() =~= snapshot.children);
    lemma_paths_concat(forest_sources(snapshot.children), sources(child), place);
}

proof fn lemma_named_sources(snapshot: SnapshotView, result: SnapResult, place: PathView)
    requires
        !sources(snapshot).contains(place),
        result matches Ok(Some(named)) ==> named.children == snapshot.children
            && named.source_path == snapshot.source_path,
    ensures
        absent(result, place),
{
    if let Ok(Some(named)) = result {
        lemma_sources(snapshot, place);
        lemma_sources(named, place);
    }
}

/// What comes from no path has no sources.
pub(crate) proof fn lemma_no_sources(snapshot: SnapshotView)
    requires
        is_unsourced(snapshot),
    ensures
        sources(snapshot) == Seq::<PathView>::empty(),
    decreases snapshot,
{
    lemma_no_forest_sources(snapshot.children);
}

proof fn lemma_no_forest_sources(snapshots: Seq<SnapshotView>)
    requires
        forall|i: int| 0 <= i < snapshots.len() ==> is_unsourced(#[trigger] snapshots[i]),
    ensures
        forest_sources(snapshots) == Seq::<PathView>::empty(),
    decreases snapshots,
{
    if snapshots.len() > 0 {
        lemma_no_forest_sources(snapshots.drop_last());
        lemma_no_sources(snapshots[snapshots.len() - 1]);
        assert(forest_sources(snapshots) =~= Seq::<PathView>::empty());
    }
}

/// The only source of the snapshot of a file is the file.
proof fn lemma_file_sources(
    file: FileView,
    points: PointsView,
    result: SnapResult,
    place: PathView,
)
    requires
        file_snapshots(file, points, result),
        place != file.path.path,
    ensures
        absent(result, place),
{
    if let Ok(Some(snapshot)) = result {
        lemma_sources(snapshot, place);
        if let Some((_, FileType::BinaryModel)) = classify(file.path.path) {
            let outcome = choose|outcome: Result<Seq<SnapshotView>, Seq<char>>|
                {
                    &&& #[trigger] is_binary_outcome(file.contents, outcome)
                    &&& match outcome {
                        Ok(forest) => forest.len() == 1 && snapshot == forest[0].named(
                            snapshot.name,
                        ),
                        Err(_) => false,
                    }
                };
            if let Ok(forest) = outcome {
                lemma_no_sources(forest[0]);
                lemma_sources(forest[0], place);
            }
        } else {
            assert(forest_sources(snapshot.children) =~= Seq::empty());
        }
    }
}

/// A path without an entry does not come up in a snapshot.
proof fn lemma_absent(
    depth: nat,
    fs: FsView,
    path: WrittenPath,
    before: PointsView,
    result: SnapResult,
    after: PointsView,
    place: PathView,
)
    requires
        path_snapshots(depth, fs, path, before, result, after),
        fs_keyed(fs),
        !fs.contains_key(place),
    ensures
        absent(result, place),
    decreases depth, 4nat, 0nat, path,
{
    if depth > 0 && fs.contains_key(path.path) {
        let (own, mid) = path_way(depth, fs, path, before, result, after);
        lemma_absent_item(depth, fs, fs[path.path], before, own, mid, place);
        if let Ok(Some(snapshot)) = own {
            if mid.contains_key(path.path) {
                let children = mid[path.path].children;
                let whole = completion_way(depth, fs, path.path, mid, snapshot, result, after);
                lemma_absent_children(depth, fs, children, snapshot, mid, whole, after, place);
            }
        }
    }
}

proof fn lemma_absent_item(
    depth: nat,
    fs: FsView,
    item: ItemView,
    before: PointsView,
    result: SnapResult,
    after: PointsView,
    place: PathView,
)
    requires
        item_snapshots(depth, fs, item, before, result, after),
        fs_keyed(fs),
        !fs.contains_key(place),
        fs.contains_key(item.path()),
    ensures
        absent(result, place),
    decreases depth, 3nat, 0nat, item,
{
    if let ItemView::File(file) = item {
        lemma_file_sources(file, before, result, place);
    }
    if let ItemView::Directory(directory) = item {
        if depth > 0 {
            let all = directory.children;
            if let Some(init) = init_path(directory) {
                let (own, mid) = init_way(depth, fs, directory, before, result, after);
                lemma_absent((depth - 1) as nat, fs, init, before, own, mid, place);
                if let Ok(Some(snapshot)) = own {
                    lemma_absent_entries(
                        depth,
                        fs,
                        directory,
                        all,
                        snapshot,
                        mid,
                        result,
                        after,
                        place,
                    );
                }
            } else {
                let own = folder(directory.path.path);
                lemma_sources(own, place);
                assert(forest_sources(own.children) =~= Seq::empty());
                lemma_absent_entries(depth, fs, directory, all, own, before, result, after, place);
            }
        }
    }
}

proof fn lemma_absent_entries(
    depth: nat,
    fs: FsView,
    directory: DirectoryView,
    rest: Seq<WrittenPath>,
    snapshot: SnapshotView,
    points: PointsView,
    result: SnapResult,
    after: PointsView,
    place: PathView,
)
    requires
        entries_added(depth, fs, directory, rest, snapshot, points, result, after),
        fs_keyed(fs),
        !fs.contains_key(place),
        !sources(snapshot).contains(place),
    ensures
        absent(result, place),
    decreases depth, 2nat, rest.len(), rest,
{
    if rest.len() == 0 {
        lemma_named_sources(snapshot, result, place);
    }
    if rest.len() > 0 && name_text(rest[0].path) is Some {
        let tail = rest.drop_first();
        if is_init_name(name_text(rest[0].path)->0) {
            lemma_absent_entries(depth, fs, directory, tail, snapshot, points, result, after, place);
        } else if depth > 0 {
            let (own, mid) = entry_way(
                depth,
                fs,
                directory,
                rest,
                snapshot,
                points,
                result,
                after,
            );
            lemma_absent((depth - 1) as nat, fs, rest[0], points, own, mid, place);
            if let Ok(Some(child)) = own {
                let grown = snapshot.with_child(child);
                lemma_child_sources(snapshot, child, place);
                lemma_absent_entries(depth, fs, directory, tail, grown, mid, result, after, place);
            } else if own is Ok {
                lemma_absent_entries(depth, fs, directory, tail, snapshot, mid, result, after, place);
            }
        }
    }
}

proof fn lemma_absent_node(
    depth: nat,
    fs: FsView,
    name: Seq<char>,
    node: NodeView,
    before: PointsView,
    result: NodeResult,
    after: PointsView,
    place: PathView,
)
    requires
        node_snapshots(depth, fs, name, node, before, result, after),
        fs_keyed(fs),
        !fs.contains_key(place),
    ensures
        node_absent(result, place),
    decreases depth, 0nat, 0nat, node,
{
    match node {
        NodeView::Instance { children, .. } => {
            let own = bare_instance(name, node);
            lemma_sources(own, place);
            assert(forest_sources(own.children) =~= Seq::empty());
            lemma_absent_children(depth, fs, children, own, before, result, after, place);
        },
        NodeView::SyncPoint { path, children } => {
            if depth > 0 {
                let (own, mid) = sync_point_way(
                    depth,
                    fs,
                    name,
                    path,
                    children,
                    before,
                    result,
                    after,
                );
                lemma_absent((depth - 1) as nat, fs, path, before, own, mid, place);
                if let Ok(Some(snapshot)) = own {
                    lemma_sources(snapshot, place);
                    lemma_sources(snapshot.named(name), place);
                }
            }
        },
    }
}

proof fn lemma_absent_children(
    depth: nat,
    fs: FsView,
    rest: Seq<ChildView>,
    snapshot: SnapshotView,
    points: PointsView,
    result: NodeResult,
    after: PointsView,
    place: PathView,
)
    requires
        children_added(depth, fs, rest, snapshot, points, result, after),
        fs_keyed(fs),
        !fs.contains_key(place),
        !sources(snapshot).contains(place),
    ensures
        node_absent(result, place),
    decreases depth, 0nat, 0nat, rest,
{
    if rest.len() > 0 {
        let (own, mid) = child_way(depth, fs, rest, snapshot, points, result, after);
        lemma_absent_node(depth, fs, rest[0].name, rest[0].node, points, own, mid, place);
        if let Ok(child) = own {
            let tail = rest.drop_first();
            let grown = snapshot.with_child(child);
            lemma_child_sources(snapshot, child, place);
            lemma_absent_children(depth, fs, tail, grown, mid, result, after, place);
        }
    }
}

/// Where each entry stands under its own path, every path that a snapshot holds an
/// instance from has an entry.
pub proof fn law_sources_exist(
    depth: nat,
    fs: FsView,
    path: WrittenPath,
    before: PointsView,
    snapshot: SnapshotView,
    after: PointsView,
    place: PathView,
)
    requires
        path_snapshots(depth, fs, path, before, Ok(Some(snapshot)), after),
        fs_keyed(fs),
        sources(snapshot).contains(place),
    ensures
        fs.contains_key(place),
{
    if !fs.contains_key(place) {
        lemma_absent(depth, fs, path, before, Ok(Some(snapshot)), after, place);
    }
}

/// The same for manifest nodes.
pub proof fn law_node_sources_exist(
    depth: nat,
    fs: FsView,
    name: Seq<char>,
    node: NodeView,
    before: PointsView,
    snapshot: SnapshotView,
    after: PointsView,
    place: PathView,
)
    requires
        node_snapshots(depth, fs, name, node, before, Ok(snapshot), after),
        fs_keyed(fs),
        sources(snapshot).contains(place),
    ensures
        fs.contains_key(place),
{
    if !fs.contains_key(place) {
        lemma_absent_node(depth, fs, name, node, before, Ok(snapshot), after, place);
    }
}

} // verus!
