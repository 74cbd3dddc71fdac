//! What a walk depends on.
use crate::failure::PanicView;
use crate::imfs::{fs_valid, DirectoryView, FsView, ItemView};
use crate::laws::origins::{law_points_unchanged, points_sync_free};
use crate::laws::ways::{
    bare_instance, child_leads_to, child_way, completion_way, entry_leads_to, entry_way,
    init_leads_to, init_way, path_way,
};
use crate::path::{name_text, starts_with, PathView, WrittenPath};
use crate::project::{children_sync_free, sync_free, ChildView, NodeView};
use crate::rbx_snapshot::SnapshotView;
use crate::sync_point::PointsView;
use crate::walk::{
    children_added, completes, directory_snapshots, entries_added, folder, init_path, is_init_name,
    item_snapshots, node_snapshots, node_step, path_snapshots, step, NodeResult, SnapResult,
};
use vstd::prelude::*;

verus! {

/// Whether two file systems have the same at a path and below it.
pub open spec fn same_below(fs: FsView, other: FsView, path: PathView) -> bool {
    forall|place: PathView|
        #![trigger fs.contains_key(place)]
        #![trigger other.contains_key(place)]
        #![trigger fs[place]]
        #![trigger other[place]]
        starts_with(place, path) ==> {
            &&& fs.contains_key(place) == other.contains_key(place)
            &&& fs.contains_key(place) ==> fs[place] == other[place]
        }
}

/// Whether the same is remembered of a path and what lies below it.
pub open spec fn same_points_below(points: PointsView, other: PointsView, path: PathView) -> bool {
    forall|place: PathView|
        #![trigger points.contains_key(place)]
        #![trigger other.contains_key(place)]
        #![trigger points[place]]
        #![trigger other[place]]
        starts_with(place, path) ==> {
            &&& points.contains_key(place) == other.contains_key(place)
            &&& points.contains_key(place) ==> points[place] == other[place]
        }
}

proof fn lemma_below_below(place: PathView, middle: PathView, path: PathView)
    requires
        starts_with(place, middle),
        starts_with(middle, path),
    ensures
        starts_with(place, path),
{
    assert(place.take(path.len() as int) =~= place.take(middle.len() as int).take(
        path.len() as int,
    ));
}

proof fn lemma_same_further_below(fs: FsView, other: FsView, path: PathView, below: PathView)
    requires
        same_below(fs, other, path),
        starts_with(below, path),
    ensures
        same_below(fs, other, below),
{
    assert forall|place: PathView|
        #![trigger fs.contains_key(place)]
        #![trigger other.contains_key(place)]
        #![trigger fs[place]]
        #![trigger other[place]]
        starts_with(place, below) implies {
        &&& fs.contains_key(place) == other.contains_key(place)
        &&& fs.contains_key(place) ==> fs[place] == other[place]
    } by {
        lemma_below_below(place, below, path);
    }
}

proof fn lemma_points_further_below(
    points: PointsView,
    other: PointsView,
    path: PathView,
    below: PathView,
)
    requires
        same_points_below(points, other, path),
        starts_with(below, path),
    ensures
        same_points_below(points, other, below),
{
    assert forall|place: PathView|
        #![trigger points.contains_key(place)]
        #![trigger other.contains_key(place)]
        #![trigger points[place]]
        #![trigger other[place]]
        starts_with(place, below) implies {
        &&& points.contains_key(place) == other.contains_key(place)
        &&& points.contains_key(place) ==> points[place] == other[place]
    } by {
        lemma_below_below(place, below, path);
    }
}

pub(crate) proof fn lemma_self_below(path: PathView)
    ensures
        starts_with(path, path),
{
    assert(path.take(path.len() as int) =~= path);
}

/// The instance that a manifest node without sync points describes.
pub open spec fn described(name: Seq<char>, node: NodeView) -> SnapshotView
    decreases node,
{
    SnapshotView {
        name,
        class_name: node->class_name,
        properties: node->properties,
        children: match node {
            NodeView::Instance { children, .. } => all_described(children),
            NodeView::SyncPoint { .. } => Seq::empty(),
        },
        source_path: None,
        metadata: Some(node->metadata),
    }
}

/// The instances that manifest nodes without sync points describe.
pub open spec fn all_described(children: Seq<ChildView>) -> Seq<SnapshotView>
    decreases children,
{
    Seq::new(
        children.len(),
        |i: int|
            if 0 <= i < children.len() {
                described(children[i].name, children[i].node)
            } else {
                arbitrary()
            },
    )
}

/// The snapshot with more children behind the others.
pub open spec fn with_more(snapshot: SnapshotView, more: Seq<SnapshotView>) -> SnapshotView {
    SnapshotView { children: snapshot.children + more, ..snapshot }
}

/// A manifest node without sync points gives what it describes, and nothing comes to be
/// remembered.
pub proof fn law_described(
    depth: nat,
    fs: FsView,
    name: Seq<char>,
    node: NodeView,
    before: PointsView,
    result: NodeResult,
    after: PointsView,
)
    requires
        sync_free(node),
    ensures
        node_snapshots(depth, fs, name, node, before, result, after) <==> {
            &&& result == Ok::<SnapshotView, PanicView>(described(name, node))
            &&& after == before
        },
    decreases node,
{
    if let NodeView::Instance { children, .. } = node {
        let bare = bare_instance(name, node);
        lemma_all_described(depth, fs, children, bare, before, result, after);
        assert(with_more(bare, all_described(children)).children =~= all_described(children));
        assert(with_more(bare, all_described(children)) == described(name, node));
    }
}

pub(crate) proof fn lemma_all_described(
    depth: nat,
    fs: FsView,
    rest: Seq<ChildView>,
    snapshot: SnapshotView,
    points: PointsView,
    result: NodeResult,
    after: PointsView,
)
    requires
        children_sync_free(rest),
    ensures
        children_added(depth, fs, rest, snapshot, points, result, after) <==> {
            &&& result == Ok::<SnapshotView, PanicView>(
                with_more(snapshot, all_described(rest)),
            )
            &&& after == points
        },
    decreases rest,
{
    if rest.len() == 0 {
        assert(with_more(snapshot, all_described(rest)).children =~= snapshot.children);
    } else {
        let tail = rest.drop_first();
        let first = described(rest[0].name, rest[0].node);
        let grown = snapshot.with_child(first);
        assert(sync_free(rest[0].node));
        assert forall|i: int| 0 <= i < tail.len() implies sync_free((#[trigger] tail[i]).node) by {
            assert(sync_free(rest[i + 1].node));
        }
        assert(with_more(grown, all_described(tail)).children =~= with_more(
            snapshot,
            all_described(rest),
        ).children);
        if children_added(depth, fs, rest, snapshot, points, result, after) {
            let (own, mid) = child_way(depth, fs, rest, snapshot, points, result, after);
            law_described(depth, fs, rest[0].name, rest[0].node, points, own, mid);
            lemma_all_described(depth, fs, tail, grown, points, result, after);
        }
        if result == Ok::<SnapshotView, PanicView>(
            with_more(snapshot, all_described(rest)),
        ) && after == points {
            let own: NodeResult = Ok(first);
            law_described(depth, fs, rest[0].name, rest[0].node, points, own, points);
            lemma_all_described(depth, fs, tail, grown, points, result, after);
            assert(node_step(own, points));
            assert(child_leads_to(depth, fs, rest, snapshot, own, points, result, after));
            assert(children_added(depth, fs, rest, snapshot, points, result, after));
        }
    }
}

/// A walk over a path depends only on what is at the path and below it, and on what is
/// remembered of these, where no sync point leads it elsewhere.
pub proof fn law_walk_stays_below(
    depth: nat,
    fs: FsView,
    other: FsView,
    path: WrittenPath,
    before: PointsView,
    other_before: PointsView,
    result: SnapResult,
    after: PointsView,
)
    requires
        fs_valid(fs),
        same_below(fs, other, path.path),
        same_points_below(before, other_before, path.path),
        points_sync_free(before),
        points_sync_free(other_before),
        path_snapshots(depth, fs, path, before, result, after),
    ensures
        path_snapshots(depth, other, path, other_before, result, other_before),
    decreases depth, 4nat, 0nat, path,
{
    lemma_self_below(path.path);
    assert(fs.contains_key(path.path) == other.contains_key(path.path));
    if depth > 0 && fs.contains_key(path.path) {
        let (own, mid) = path_way(depth, fs, path, before, result, after);
        lemma_item_unchanged(depth, fs, fs[path.path], before, own, mid);
        lemma_item(depth, fs, other, path.path, before, other_before, own);
        assert(step(own, other_before));
        assert(before.contains_key(path.path) == other_before.contains_key(path.path));
        if let Ok(Some(snapshot)) = own {
            if before.contains_key(path.path) {
                let children = before[path.path].children;
                assert(other_before[path.path] == before[path.path]);
                let whole = completion_way(depth, fs, path.path, mid, snapshot, result, after);
                lemma_all_described(depth, fs, children, snapshot, mid, whole, after);
                lemma_all_described(
                    depth,
                    other,
                    children,
                    snapshot,
                    other_before,
                    whole,
                    other_before,
                );
                assert(node_step(whole, other_before));
            }
        }
        assert(completes(depth, other, path.path, other_before, own, result, other_before));
        assert(item_snapshots(depth, other, other[path.path], other_before, own, other_before));
    }
}

/// Where no sync point is remembered, walking an entry changes nothing that is.
pub(crate) proof fn lemma_item_unchanged(
    depth: nat,
    fs: FsView,
    item: ItemView,
    before: PointsView,
    result: SnapResult,
    after: PointsView,
)
    requires
        points_sync_free(before),
        item_snapshots(depth, fs, item, before, result, after),
    ensures
        after == before,
{
    if let ItemView::Directory(directory) = item {
        if depth > 0 {
            let all = directory.children;
            if let Some(init) = init_path(directory) {
                let (own, mid) = init_way(depth, fs, directory, before, result, after);
                law_points_unchanged((depth - 1) as nat, fs, init, before, own, mid);
                if let Ok(Some(snapshot)) = own {
                    lemma_entries_unchanged(
                        depth,
                        fs,
                        directory,
                        all,
                        snapshot,
                        mid,
                        result,
                        after,
                    );
                }
            } else {
                let own = folder(directory.path.path);
                lemma_entries_unchanged(depth, fs, directory, all, own, before, result, after);
            }
        }
    }
}

pub(crate) proof fn lemma_entries_unchanged(
    depth: nat,
    fs: FsView,
    directory: DirectoryView,
    rest: Seq<WrittenPath>,
    snapshot: SnapshotView,
    points: PointsView,
    result: SnapResult,
    after: PointsView,
)
    requires
        points_sync_free(points),
        entries_added(depth, fs, directory, rest, snapshot, points, result, after),
    ensures
        after == points,
    decreases rest.len(),
{
    if rest.len() > 0 && name_text(rest[0].path) is Some {
        let tail = rest.drop_first();
        if is_init_name(name_text(rest[0].path)->0) {
            lemma_entries_unchanged(depth, fs, directory, tail, snapshot, points, result, after);
        } else if depth > 0 {
            let (own, mid) = entry_way(
                depth,
                fs,
                directory,
                rest,
                snapshot,
                points,
                result,
                after,
            );
            law_points_unchanged((depth - 1) as nat, fs, rest[0], points, own, mid);
            if let Ok(Some(child)) = own {
                let grown = snapshot.with_child(child);
                lemma_entries_unchanged(depth, fs, directory, tail, grown, mid, result, after);
            } else if own is Ok {
                lemma_entries_unchanged(depth, fs, directory, tail, snapshot, mid, result, after);
            }
        }
    }
}

proof fn lemma_item(
    depth: nat,
    fs: FsView,
    other: FsView,
    path: PathView,
    before: PointsView,
    other_before: PointsView,
    result: SnapResult,
)
    requires
        fs_valid(fs),
        fs.contains_key(path),
        same_below(fs, other, path),
        same_points_below(before, other_before, path),
        points_sync_free(before),
        points_sync_free(other_before),
        item_snapshots(depth, fs, fs[path], before, result, before),
    ensures
        item_snapshots(depth, other, fs[path], other_before, result, other_before),
    decreases depth, 3nat, 0nat, path,
{
    lemma_self_below(path);
    assert(fs[path].path() == path);
    assert(before.contains_key(path) == other_before.contains_key(path));
    if let ItemView::Directory(directory) = fs[path] {
        if depth > 0 {
            let all = directory.children;
            assert(directory.well_formed());
            assert forall|i: int| 0 <= i < all.len() implies {
                &&& same_below(fs, other, (#[trigger] all[i]).path)
                &&& same_points_below(before, other_before, all[i].path)
            } by {
                lemma_entry_below(all[i].path, path);
                lemma_same_further_below(fs, other, path, all[i].path);
                lemma_points_further_below(before, other_before, path, all[i].path);
            }
            if let Some(init) = init_path(directory) {
                let (own, mid) = init_way(depth, fs, directory, before, result, before);
                law_points_unchanged((depth - 1) as nat, fs, init, before, own, mid);
                assert(directory.entries().contains(init.path));
                let i = choose|i: int|
                    0 <= i < all.len() && directory.entries()[i] == init.path;
                assert(same_below(fs, other, all[i].path));
                law_walk_stays_below(
                    (depth - 1) as nat,
                    fs,
                    other,
                    init,
                    before,
                    other_before,
                    own,
                    mid,
                );
                assert(step(own, other_before));
                if let Ok(Some(snapshot)) = own {
                    lemma_entries(
                        depth,
                        fs,
                        other,
                        directory,
                        all,
                        snapshot,
                        before,
                        other_before,
                        result,
                    );
                }
                assert(init_leads_to(
                    depth,
                    other,
                    directory,
                    own,
                    other_before,
                    result,
                    other_before,
                ));
                assert(directory_snapshots(
                    depth,
                    other,
                    directory,
                    other_before,
                    result,
                    other_before,
                ));
            } else {
                lemma_entries(
                    depth,
                    fs,
                    other,
                    directory,
                    all,
                    folder(directory.path.path),
                    before,
                    other_before,
                    result,
                );
            }
        }
    }
}

pub(crate) proof fn lemma_entry_below(entry: PathView, path: PathView)
    requires
        entry.len() > 0,
        entry.drop_last() == path,
    ensures
        starts_with(entry, path),
{
    assert(entry.take(path.len() as int) =~= path);
}

pub(crate) proof fn lemma_entries(
    depth: nat,
    fs: FsView,
    other: FsView,
    directory: DirectoryView,
    rest: Seq<WrittenPath>,
    snapshot: SnapshotView,
    points: PointsView,
    other_points: PointsView,
    result: SnapResult,
)
    requires
        fs_valid(fs),
        points_sync_free(points),
        points_sync_free(other_points),
        forall|i: int|
            0 <= i < rest.len() ==> {
                &&& same_below(fs, other, (#[trigger] rest[i]).path)
                &&& same_points_below(points, other_points, rest[i].path)
            },
        points.contains_key(directory.path.path) == other_points.contains_key(directory.path.path),
        points.contains_key(directory.path.path) ==> points[directory.path.path]
            == other_points[directory.path.path],
        entries_added(depth, fs, directory, rest, snapshot, points, result, points),
    ensures
        entries_added(depth, other, directory, rest, snapshot, other_points, result, other_points),
    decreases depth, 2nat, rest.len(), rest,
{
    if rest.len() > 0 && name_text(rest[0].path) is Some {
        let tail = rest.drop_first();
        assert forall|i: int| 0 <= i < tail.len() implies {
            &&& same_below(fs, other, (#[trigger] tail[i]).path)
            &&& same_points_below(points, other_points, tail[i].path)
        } by {
            assert(same_below(fs, other, rest[i + 1].path));
        }
        if is_init_name(name_text(rest[0].path)->0) {
            lemma_entries(
                depth,
                fs,
                other,
                directory,
                tail,
                snapshot,
                points,
                other_points,
                result,
            );
        } else if depth > 0 {
            let (own, mid) = entry_way(
                depth,
                fs,
                directory,
                rest,
                snapshot,
                points,
                result,
                points,
            );
            law_points_unchanged((depth - 1) as nat, fs, rest[0], points, own, mid);
            assert(same_below(fs, other, rest[0].path));
            law_walk_stays_below(
                (depth - 1) as nat,
                fs,
                other,
                rest[0],
                points,
                other_points,
                own,
                mid,
            );
            assert(step(own, other_points));
            if own is Ok {
                let grown = match own {
                    Ok(Some(child)) => snapshot.with_child(child),
                    _ => snapshot,
                };
                lemma_entries(
                    depth,
                    fs,
                    other,
                    directory,
                    tail,
                    grown,
                    points,
                    other_points,
                    result,
                );
            }
            assert(entry_leads_to(
                depth,
                other,
                directory,
                rest,
                snapshot,
                own,
                other_points,
                result,
                other_points,
            ));
        }
    }
}

} // verus!
