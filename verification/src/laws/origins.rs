//! Where the sync points come from that walks remember.
use crate::imfs::{DirectoryView, FsView, ItemView};
use crate::laws::points::{law_unmentioned_unchanged, unchanged_at};
use crate::laws::ways::{
    bare_instance, child_way, completion_way, entry_way, init_way, path_way, sync_point_way,
};
use crate::path::{name_text, PathView, WrittenPath};
use crate::project::{
    children_mention, children_sync_free, mentions, sync_free, ChildView, NodeView,
};
use crate::rbx_snapshot::SnapshotView;
use crate::sync_point::{PointsView, SyncPointView};
use crate::walk::{
    children_added, entries_added, folder, init_path, is_init_name, item_snapshots, node_snapshots,
    path_snapshots, NodeResult, SnapResult,
};
use vstd::prelude::*;

verus! {

/// Whether a manifest node of this name, or one below it, is a sync point at `place`
/// with the name and the children of `view`.
pub open spec fn node_holds(
    name: Seq<char>,
    node: NodeView,
    place: PathView,
    view: SyncPointView,
) -> bool
    decreases node,
{
    match node {
        NodeView::Instance { children, .. } => children_hold(children, place, view),
        NodeView::SyncPoint { path, children } => {
            ||| path.path == place && name == view.instance_name && children == view.children
            ||| children_hold(children, place, view)
        },
    }
}

/// Whether one of the manifest nodes, or one below them, is a sync point at `place`
/// with the name and the children of `view`.
pub open spec fn children_hold(children: Seq<ChildView>, place: PathView, view: SyncPointView) -> bool
    decreases children,
{
    exists|i: int|
        0 <= i < children.len() && node_holds(
            (#[trigger] children[i]).name,
            children[i].node,
            place,
            view,
        )
}

/// Whether `view` is not what is remembered of `place`, and no manifest node that is
/// remembered says it.
spec fn foreign(points: PointsView, place: PathView, view: SyncPointView) -> bool {
    &&& !(points.contains_key(place) && points[place] == view)
    &&& forall|key: PathView| #[trigger]
        points.contains_key(key) ==> !children_hold(points[key].children, place, view)
}

/// What is found nowhere among the sync points does not come up in a walk.
proof fn lemma_foreign(
    depth: nat,
    fs: FsView,
    path: WrittenPath,
    before: PointsView,
    result: SnapResult,
    after: PointsView,
    place: PathView,
    view: SyncPointView,
)
    requires
        path_snapshots(depth, fs, path, before, result, after),
        foreign(before, place, view),
    ensures
        foreign(after, place, view),
    decreases depth, 4nat, 0nat, path,
{
    if depth > 0 && fs.contains_key(path.path) {
        let (own, mid) = path_way(depth, fs, path, before, result, after);
        lemma_foreign_item(depth, fs, fs[path.path], before, own, mid, place, view);
        if let Ok(Some(snapshot)) = own {
            if mid.contains_key(path.path) {
                let children = mid[path.path].children;
                let whole = completion_way(depth, fs, path.path, mid, snapshot, result, after);
                lemma_foreign_children(depth, fs, children, snapshot, mid, whole, after, place, view);
            }
        }
    }
}

proof fn lemma_foreign_item(
    depth: nat,
    fs: FsView,
    item: ItemView,
    before: PointsView,
    result: SnapResult,
    after: PointsView,
    place: PathView,
    view: SyncPointView,
)
    requires
        item_snapshots(depth, fs, item, before, result, after),
        foreign(before, place, view),
    ensures
        foreign(after, place, view),
    decreases depth, 3nat, 0nat, item,
{
    if let ItemView::Directory(directory) = item {
        if depth > 0 {
            let all = directory.children;
            if let Some(init) = init_path(directory) {
                let (own, mid) = init_way(depth, fs, directory, before, result, after);
                lemma_foreign((depth - 1) as nat, fs, init, before, own, mid, place, view);
                if let Ok(Some(snapshot)) = own {
                    lemma_foreign_entries(
                        depth,
                        fs,
                        directory,
                        all,
                        snapshot,
                        mid,
                        result,
                        after,
                        place, view,
                    );
                }
            } else {
                let own = folder(directory.path.path);
                lemma_foreign_entries(depth, fs, directory, all, own, before, result, after, place, view);
            }
        }
    }
}

proof fn lemma_foreign_entries(
    depth: nat,
    fs: FsView,
    directory: DirectoryView,
    rest: Seq<WrittenPath>,
    snapshot: SnapshotView,
    points: PointsView,
    result: SnapResult,
    after: PointsView,
    place: PathView,
    view: SyncPointView,
)
    requires
        entries_added(depth, fs, directory, rest, snapshot, points, result, after),
        foreign(points, place, view),
    ensures
        foreign(after, place, view),
    decreases depth, 2nat, rest.len(), rest,
{
    if rest.len() > 0 && name_text(rest[0].path) is Some {
        let tail = rest.drop_first();
        if is_init_name(name_text(rest[0].path)->0) {
            lemma_foreign_entries(depth, fs, directory, tail, snapshot, points, result, after, place, view);
        } else if depth > 0 {
            let (own, mid) = entry_way(
                depth,
                fs,
                directory,
                rest,
                snapshot,
                points,
                result,
                after,
            );
            lemma_foreign((depth - 1) as nat, fs, rest[0], points, own, mid, place, view);
            if let Ok(Some(child)) = own {
                let grown = snapshot.with_child(child);
                lemma_foreign_entries(depth, fs, directory, tail, grown, mid, result, after, place, view);
            } else if own is Ok {
                lemma_foreign_entries(depth, fs, directory, tail, snapshot, mid, result, after, place, view);
            }
        }
    }
}

proof fn lemma_foreign_node(
    depth: nat,
    fs: FsView,
    name: Seq<char>,
    node: NodeView,
    before: PointsView,
    result: NodeResult,
    after: PointsView,
    place: PathView,
    view: SyncPointView,
)
    requires
        node_snapshots(depth, fs, name, node, before, result, after),
        foreign(before, place, view),
        !node_holds(name, node, place, view),
    ensures
        foreign(after, place, view),
    decreases depth, 0nat, 0nat, node,
{
    match node {
        NodeView::Instance { children, .. } => {
            let own = bare_instance(name, node);
            lemma_foreign_children(depth, fs, children, own, before, result, after, place, view);
        },
        NodeView::SyncPoint { path, children } => {
            if depth > 0 {
                let (own, mid) = sync_point_way(
                    depth,
                    fs,
                    name,
                    path,
                    children,
                    before,
                    result,
                    after,
                );
                lemma_foreign((depth - 1) as nat, fs, path, before, own, mid, place, view);
            }
        },
    }
}

proof fn lemma_foreign_children(
    depth: nat,
    fs: FsView,
    rest: Seq<ChildView>,
    snapshot: SnapshotView,
    points: PointsView,
    result: NodeResult,
    after: PointsView,
    place: PathView,
    view: SyncPointView,
)
    requires
        children_added(depth, fs, rest, snapshot, points, result, after),
        foreign(points, place, view),
        !children_hold(rest, place, view),
    ensures
        foreign(after, place, view),
    decreases depth, 0nat, 0nat, rest,
{
    if rest.len() > 0 {
        let (own, mid) = child_way(depth, fs, rest, snapshot, points, result, after);
        assert(!node_holds(rest[0].name, rest[0].node, place, view));
        lemma_foreign_node(depth, fs, rest[0].name, rest[0].node, points, own, mid, place, view);
        if let Ok(child) = own {
            let tail = rest.drop_first();
            let grown = snapshot.with_child(child);
            assert(!children_hold(tail, place, view)) by {
                assert forall|i: int| 0 <= i < tail.len() implies !node_holds(
                    (#[trigger] tail[i]).name,
                    tail[i].node,
                    place,
                    view,
                ) by {
                    assert(!node_holds(rest[i + 1].name, rest[i + 1].node, place, view));
                }
            }
            lemma_foreign_children(depth, fs, tail, grown, mid, result, after, place, view);
        }
    }
}

/// What a walk comes to remember of a path, or remembers in place of something else,
/// is the name and the children of a sync point at that path, found among the manifest
/// nodes that were remembered before.
pub proof fn law_new_points(
    depth: nat,
    fs: FsView,
    path: WrittenPath,
    before: PointsView,
    result: SnapResult,
    after: PointsView,
    place: PathView,
) -> (key: PathView)
    requires
        path_snapshots(depth, fs, path, before, result, after),
        after.contains_key(place),
        !(before.contains_key(place) && before[place] == after[place]),
    ensures
        before.contains_key(key),
        children_hold(before[key].children, place, after[place]),
{
    let view = after[place];
    if forall|key: PathView| #[trigger]
        before.contains_key(key) ==> !children_hold(before[key].children, place, view) {
        lemma_foreign(depth, fs, path, before, result, after, place, view);
    }
    choose|key: PathView| #[trigger]
        before.contains_key(key) && children_hold(before[key].children, place, view)
}

/// Whether no sync point is found among the manifest nodes that are remembered.
pub open spec fn points_sync_free(points: PointsView) -> bool {
    forall|key: PathView| #[trigger]
        points.contains_key(key) ==> children_sync_free(points[key].children)
}

proof fn lemma_free_mentions(node: NodeView, place: PathView)
    requires
        sync_free(node),
    ensures
        !mentions(node, place),
    decreases node,
{
    if let NodeView::Instance { children, .. } = node {
        lemma_free_children_mention(children, place);
    }
}

proof fn lemma_free_children_mention(children: Seq<ChildView>, place: PathView)
    requires
        children_sync_free(children),
    ensures
        !children_mention(children, place),
    decreases children,
{
    assert forall|i: int| 0 <= i < children.len() implies !mentions(
        (#[trigger] children[i]).node,
        place,
    ) by {
        lemma_free_mentions(children[i].node, place);
    }
}

/// Where no sync point is found among the manifest nodes that are remembered, a walk
/// changes nothing that is remembered.
pub proof fn law_points_unchanged(
    depth: nat,
    fs: FsView,
    path: WrittenPath,
    before: PointsView,
    result: SnapResult,
    after: PointsView,
)
    requires
        path_snapshots(depth, fs, path, before, result, after),
        points_sync_free(before),
    ensures
        after == before,
{
    assert forall|place: PathView| unchanged_at(before, after, place) by {
        assert forall|key: PathView| #[trigger] before.contains_key(key) implies !children_mention(
            before[key].children,
            place,
        ) by {
            lemma_free_children_mention(before[key].children, place);
        }
        law_unmentioned_unchanged(depth, fs, path, before, result, after, place);
    }
    assert forall|place: PathView| #[trigger] after.contains_key(place) <==> before.contains_key(
        place,
    ) by {
        assert(unchanged_at(before, after, place));
    }
    assert forall|place: PathView| #[trigger] after.contains_key(place) implies after[place]
        == before[place] by {
        assert(unchanged_at(before, after, place));
    }
    assert(after =~= before);
}

} // verus!
