//! Snapshots whose properties are texts.
use crate::file_type::{classify, FileType};
use crate::imfs::{DirectoryView, FileView, FsView, ItemView};
use crate::laws::quiet::is_textual;
use crate::laws::ways::{
    bare_instance, child_way, completion_way, entry_way, init_way, path_way, sync_point_way,
};
use crate::path::{name_text, PathView, WrittenPath};
use crate::project::{ChildView, NodeView};
use crate::rbx_snapshot::SnapshotView;
use crate::sync_point::PointsView;
use crate::value::{is_text, text_value};
use crate::walk::{
    children_added, entries_added, file_snapshots, folder, init_path, is_init_name, item_snapshots,
    node_snapshots, path_snapshots, NodeResult, SnapResult,
};
use vstd::prelude::*;

verus! {

/// Whether an entry is named as a binary model.
pub open spec fn is_binary_model(item: ItemView) -> bool {
    match item {
        ItemView::File(file) => classify(file.path.path) matches Some((_, FileType::BinaryModel)),
        ItemView::Directory(_) => false,
    }
}

/// Whether there are no binary models in the file system. These hold values of other
/// types.
pub open spec fn no_binary_models(fs: FsView) -> bool {
    forall|path: PathView| #[trigger] fs.contains_key(path) ==> !is_binary_model(fs[path])
}

/// Whether a manifest node, and everything below it, gives texts only.
pub open spec fn node_textual(node: NodeView) -> bool
    decreases node,
{
    match node {
        NodeView::Instance { children, properties, .. } => {
            &&& forall|name: Seq<char>| #[trigger]
                properties.contains_key(name) ==> is_text(properties[name])
            &&& children_textual(children)
        },
        NodeView::SyncPoint { children, .. } => children_textual(children),
    }
}

/// Whether manifest nodes, and everything below them, give texts only.
pub open spec fn children_textual(children: Seq<ChildView>) -> bool
    decreases children,
{
    forall|i: int| 0 <= i < children.len() ==> node_textual((#[trigger] children[i]).node)
}

/// Whether the manifest nodes that are remembered give texts only.
pub open spec fn points_textual(points: PointsView) -> bool {
    forall|key: PathView| #[trigger]
        points.contains_key(key) ==> children_textual(points[key].children)
}

/// Whether all the properties in a result are texts.
pub open spec fn gives_textual(result: SnapResult) -> bool {
    result matches Ok(Some(snapshot)) ==> is_textual(snapshot)
}

proof fn lemma_child_textual(snapshot: SnapshotView, child: SnapshotView)
    requires
        is_textual(snapshot),
        is_textual(child),
    ensures
        is_textual(snapshot.with_child(child)),
{
    let grown = snapshot.with_child(child);
    assert forall|i: int| 0 <= i < grown.children.len() implies is_textual(
        #[trigger] grown.children[i],
    ) by {
        if i < snapshot.children.len() {
            assert(is_textual(snapshot.children[i]));
        }
    }
}

proof fn lemma_named_textual(snapshot: SnapshotView, result: SnapResult)
    requires
        is_textual(snapshot),
        result matches Ok(Some(named)) ==> named == snapshot.named(named.name),
    ensures
        gives_textual(result),
{
    if let Ok(Some(named)) = result {
        assert forall|i: int| 0 <= i < named.children.len() implies is_textual(
            #[trigger] named.children[i],
        ) by {
            assert(is_textual(snapshot.children[i]));
        }
    }
}

proof fn lemma_file_textual(file: FileView, points: PointsView, result: SnapResult)
    requires
        file_snapshots(file, points, result),
        !is_binary_model(ItemView::File(file)),
    ensures
        gives_textual(result),
{
    if let Ok(Some(snapshot)) = result {
        assert forall|name: Seq<char>| #[trigger]
            snapshot.properties.contains_key(name) implies is_text(snapshot.properties[name]) by {
            let text = choose|text: Seq<char>| snapshot.properties[name] == text_value(text);
        }
    }
}

/// Where there are no binary models, and the manifest gives texts only, all the properties
/// in a snapshot are texts.
pub proof fn law_textual(
    depth: nat,
    fs: FsView,
    path: WrittenPath,
    before: PointsView,
    result: SnapResult,
    after: PointsView,
)
    requires
        path_snapshots(depth, fs, path, before, result, after),
        no_binary_models(fs),
        points_textual(before),
    ensures
        gives_textual(result),
        points_textual(after),
    decreases depth, 4nat, 0nat, path,
{
    if depth > 0 && fs.contains_key(path.path) {
        let (own, mid) = path_way(depth, fs, path, before, result, after);
        law_textual_item(depth, fs, fs[path.path], before, own, mid);
        if let Ok(Some(snapshot)) = own {
            if mid.contains_key(path.path) {
                let children = mid[path.path].children;
                let whole = completion_way(depth, fs, path.path, mid, snapshot, result, after);
                law_textual_children(depth, fs, children, snapshot, mid, whole, after);
            }
        }
    }
}

proof fn law_textual_item(
    depth: nat,
    fs: FsView,
    item: ItemView,
    before: PointsView,
    result: SnapResult,
    after: PointsView,
)
    requires
        item_snapshots(depth, fs, item, before, result, after),
        no_binary_models(fs),
        points_textual(before),
        !is_binary_model(item),
    ensures
        gives_textual(result),
        points_textual(after),
    decreases depth, 3nat, 0nat, item,
{
    if let ItemView::File(file) = item {
        lemma_file_textual(file, before, result);
    }
    if let ItemView::Directory(directory) = item {
        if depth > 0 {
            let all = directory.children;
            if let Some(init) = init_path(directory) {
                let (own, mid) = init_way(depth, fs, directory, before, result, after);
                law_textual((depth - 1) as nat, fs, init, before, own, mid);
                if let Ok(Some(snapshot)) = own {
                    law_textual_entries(
                        depth,
                        fs,
                        directory,
                        all,
                        snapshot,
                        mid,
                        result,
                        after,
                                        );
                }
            } else {
                let own = folder(directory.path.path);
                law_textual_entries(depth, fs, directory, all, own, before, result, after);
            }
        }
    }
}

proof fn law_textual_entries(
    depth: nat,
    fs: FsView,
    directory: DirectoryView,
    rest: Seq<WrittenPath>,
    snapshot: SnapshotView,
    points: PointsView,
    result: SnapResult,
    after: PointsView,
)
    requires
        entries_added(depth, fs, directory, rest, snapshot, points, result, after),
        no_binary_models(fs),
        points_textual(points),
        is_textual(snapshot),
    ensures
        gives_textual(result),
        points_textual(after),
    decreases depth, 2nat, rest.len(), rest,
{
    if rest.len() == 0 {
        lemma_named_textual(snapshot, result);
    }
    if rest.len() > 0 && name_text(rest[0].path) is Some {
        let tail = rest.drop_first();
        if is_init_name(name_text(rest[0].path)->0) {
            law_textual_entries(depth, fs, directory, tail, snapshot, points, result, after);
        } else if depth > 0 {
            let (own, mid) = entry_way(
                depth,
                fs,
                directory,
                rest,
                snapshot,
                points,
                result,
                after,
            );
            law_textual((depth - 1) as nat, fs, rest[0], points, own, mid);
            if let Ok(Some(child)) = own {
                let grown = snapshot.with_child(child);
                lemma_child_textual(snapshot, child);
                law_textual_entries(depth, fs, directory, tail, grown, mid, result, after);
            } else if own is Ok {
                law_textual_entries(depth, fs, directory, tail, snapshot, mid, result, after);
            }
        }
    }
}

proof fn law_textual_node(
    depth: nat,
    fs: FsView,
    name: Seq<char>,
    node: NodeView,
    before: PointsView,
    result: NodeResult,
    after: PointsView,
)
    requires
        node_snapshots(depth, fs, name, node, before, result, after),
        no_binary_models(fs),
        points_textual(before),
        node_textual(node),
    ensures
        result matches Ok(snapshot) ==> is_textual(snapshot),
        points_textual(after),
    decreases depth, 0nat, 0nat, node,
{
    match node {
        NodeView::Instance { children, .. } => {
            let own = bare_instance(name, node);
            law_textual_children(depth, fs, children, own, before, result, after);
        },
        NodeView::SyncPoint { path, children } => {
            if depth > 0 {
                let (own, mid) = sync_point_way(
                    depth,
                    fs,
                    name,
                    path,
                    children,
                    before,
                    result,
                    after,
                );
                law_textual((depth - 1) as nat, fs, path, before, own, mid);
                if let Ok(Some(snapshot)) = own {
                    lemma_named_textual(snapshot, Ok(Some(snapshot.named(name))));
                }
            }
        },
    }
}

proof fn law_textual_children(
    depth: nat,
    fs: FsView,
    rest: Seq<ChildView>,
    snapshot: SnapshotView,
    points: PointsView,
    result: NodeResult,
    after: PointsView,
)
    requires
        children_added(depth, fs, rest, snapshot, points, result, after),
        no_binary_models(fs),
        points_textual(points),
        children_textual(rest),
        is_textual(snapshot),
    ensures
        result matches Ok(grown) ==> is_textual(grown),
        points_textual(after),
    decreases depth, 0nat, 0nat, rest,
{
    if rest.len() > 0 {
        let (own, mid) = child_way(depth, fs, rest, snapshot, points, result, after);
        assert(node_textual(rest[0].node));
        law_textual_node(depth, fs, rest[0].name, rest[0].node, points, own, mid);
        if let Ok(child) = own {
            let tail = rest.drop_first();
            let grown = snapshot.with_child(child);
            lemma_child_textual(snapshot, child);
            assert(children_textual(tail)) by {
                assert forall|i: int| 0 <= i < tail.len() implies node_textual(
                    (#[trigger] tail[i]).node,
                ) by {
                    assert(node_textual(rest[i + 1].node));
                }
            }
            law_textual_children(depth, fs, tail, grown, mid, result, after);
        }
    }
}

} // verus!
