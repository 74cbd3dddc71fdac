//! Snapshots of one place, taken twice.
use crate::file_type::{classify, FileType};
use crate::imfs::{fs_valid, DirectoryView, FileView, FsView, ItemView};
use crate::laws::depth;
use crate::laws::frame::{
    all_described, lemma_all_described, lemma_entries, lemma_entries_unchanged,
    lemma_item_unchanged, law_walk_stays_below, same_below, same_points_below, with_more,
};
use crate::laws::names::plain_paths;
use crate::laws::order::{law_items_agree, law_same_as_itself, law_same_with_child, law_walks_agree};
use crate::laws::origins::{law_points_unchanged, points_sync_free};
use crate::laws::unique;
use crate::laws::unique::sure_models;
use crate::laws::ways::{
    completion_way, entry_leads_to, entry_way, init_leads_to, init_way, path_way, sync_point_way,
};
use crate::model::is_binary_outcome;
use crate::path::{name_text, starts_with, PathView, WrittenPath};
use crate::project::{children_sync_free, ChildView, NodeView};
use crate::rbx_snapshot::{same_but_order, SnapshotView};
use crate::sync_point::{PointsView, SyncPointView};
use crate::walk::{
    directory_snapshots, entries_added, file_snapshots, folder, init_path, is_init_name,
    item_snapshots, node_snapshots, path_snapshots, step, SnapResult,
};
use vstd::prelude::*;

verus! {

/// Init scripts among the entries make no difference to what the entries add.
proof fn lemma_without_init_scripts(
    depth: nat,
    fs: FsView,
    directory: DirectoryView,
    other: DirectoryView,
    rest: Seq<WrittenPath>,
    snapshot: SnapshotView,
    points: PointsView,
    result: SnapResult,
    after: PointsView,
)
    requires
        directory.path == other.path,
    ensures
        entries_added(depth, fs, directory, rest, snapshot, points, result, after)
            <==> entries_added(
            depth,
            fs,
            other,
            plain_paths(rest),
            snapshot,
            points,
            result,
            after,
        ),
    decreases rest.len(),
{
    if rest.len() > 0 {
        let tail = rest.drop_first();
        if name_text(rest[0].path) is None {
            assert(plain_paths(rest)[0] == rest[0]);
        } else if is_init_name(name_text(rest[0].path)->0) {
            lemma_without_init_scripts(
                depth,
                fs,
                directory,
                other,
                tail,
                snapshot,
                points,
                result,
                after,
            );
        } else {
            let plain = plain_paths(rest);
            assert(plain[0] == rest[0]);
            assert(plain.drop_first() =~= plain_paths(tail));
            if depth > 0 {
                if entries_added(depth, fs, directory, rest, snapshot, points, result, after) {
                    let (own, mid) = entry_way(
                        depth,
                        fs,
                        directory,
                        rest,
                        snapshot,
                        points,
                        result,
                        after,
                    );
                    let grown = grown_by(snapshot, own);
                    lemma_without_init_scripts(
                        depth,
                        fs,
                        directory,
                        other,
                        tail,
                        grown,
                        mid,
                        result,
                        after,
                    );
                    assert(step(own, mid));
                    assert(entry_leads_to(
                        depth,
                        fs,
                        other,
                        plain,
                        snapshot,
                        own,
                        mid,
                        result,
                        after,
                    ));
                }
                if entries_added(depth, fs, other, plain, snapshot, points, result, after) {
                    let (own, mid) = entry_way(
                        depth,
                        fs,
                        other,
                        plain,
                        snapshot,
                        points,
                        result,
                        after,
                    );
                    let grown = grown_by(snapshot, own);
                    lemma_without_init_scripts(
                        depth,
                        fs,
                        directory,
                        other,
                        tail,
                        grown,
                        mid,
                        result,
                        after,
                    );
                    assert(step(own, mid));
                    assert(entry_leads_to(
                        depth,
                        fs,
                        directory,
                        rest,
                        snapshot,
                        own,
                        mid,
                        result,
                        after,
                    ));
                }
            }
        }
    }
}

/// A directory once an entry has given `own`.
spec fn grown_by(snapshot: SnapshotView, own: SnapResult) -> SnapshotView {
    match own {
        Ok(Some(child)) => snapshot.with_child(child),
        _ => snapshot,
    }
}

/// Only the first init script counts: where two directories at one path have the same
/// first init script and the same other entries, and two file systems have the same at
/// these and below them, the directories give the same. The other init scripts are
/// neither read nor made children of, and cannot fail.
pub proof fn law_first_init_script_counts(
    depth: nat,
    fs: FsView,
    directory: DirectoryView,
    other_fs: FsView,
    other: DirectoryView,
    before: PointsView,
    result: SnapResult,
    after: PointsView,
)
    requires
        fs_valid(fs),
        points_sync_free(before),
        directory.path == other.path,
        init_path(directory) is Some,
        init_path(directory) == init_path(other),
        plain_paths(directory.children) == plain_paths(other.children),
        same_below(fs, other_fs, (init_path(directory)->0).path),
        forall|i: int|
            0 <= i < plain_paths(directory.children).len() ==> same_below(
                fs,
                other_fs,
                (#[trigger] plain_paths(directory.children)[i]).path,
            ),
        directory_snapshots(depth, fs, directory, before, result, after),
    ensures
        directory_snapshots(depth, other_fs, other, before, result, after),
{
    if depth > 0 {
        let init = init_path(directory)->0;
        let plain = plain_paths(directory.children);
        assert(item_snapshots(
            depth,
            fs,
            ItemView::Directory(directory),
            before,
            result,
            after,
        ));
        let (own, mid) = init_way(depth, fs, directory, before, result, after);
        law_points_unchanged((depth - 1) as nat, fs, init, before, own, mid);
        law_walk_stays_below((depth - 1) as nat, fs, other_fs, init, before, before, own, mid);
        assert(step(own, before));
        if let Ok(Some(snapshot)) = own {
            let all = directory.children;
            lemma_entries_unchanged(depth, fs, directory, all, snapshot, mid, result, after);
            lemma_without_init_scripts(
                depth,
                fs,
                directory,
                other,
                all,
                snapshot,
                before,
                result,
                before,
            );
            assert forall|i: int| 0 <= i < plain.len() implies {
                &&& same_below(fs, other_fs, (#[trigger] plain[i]).path)
                &&& same_points_below(before, before, plain[i].path)
            } by {}
            lemma_entries(depth, fs, other_fs, other, plain, snapshot, before, before, result);
            lemma_without_init_scripts(
                depth,
                other_fs,
                other,
                other,
                other.children,
                snapshot,
                before,
                result,
                before,
            );
        }
        assert(init_leads_to(depth, other_fs, other, own, before, result, after));
    }
}

/// The snapshot of a file bears the name that is remembered of it, and is else the same.
proof fn lemma_renamed_file(
    file: FileView,
    before: PointsView,
    view: SyncPointView,
    snapshot: SnapshotView,
)
    requires
        file_snapshots(file, before, Ok(Some(snapshot))),
    ensures
        file_snapshots(
            file,
            before.insert(file.path.path, view),
            Ok(Some(snapshot.named(view.instance_name))),
        ),
{
    if let Some((_, FileType::BinaryModel)) = classify(file.path.path) {
        let outcome = choose|outcome: Result<Seq<SnapshotView>, Seq<char>>|
            {
                &&& #[trigger] is_binary_outcome(file.contents, outcome)
                &&& match outcome {
                    Ok(forest) => forest.len() == 1 && snapshot == forest[0].named(snapshot.name),
                    Err(_) => false,
                }
            };
        assert(is_binary_outcome(file.contents, outcome));
        let forest = outcome->Ok_0;
        assert(snapshot.named(view.instance_name) == forest[0].named(view.instance_name));
    }
}

/// What entries add to a directory does not depend on what is remembered of the
/// directory, but for its name.
proof fn lemma_renamed_entries(
    depth: nat,
    fs: FsView,
    directory: DirectoryView,
    rest: Seq<WrittenPath>,
    snapshot: SnapshotView,
    before: PointsView,
    view: SyncPointView,
    grown: SnapshotView,
)
    requires
        fs_valid(fs),
        points_sync_free(before),
        children_sync_free(view.children),
        forall|i: int|
            0 <= i < rest.len() ==> (#[trigger] rest[i]).path.len() > 0
                && rest[i].path.drop_last() == directory.path.path,
        entries_added(depth, fs, directory, rest, snapshot, before, Ok(Some(grown)), before),
    ensures
        entries_added(
            depth,
            fs,
            directory,
            rest,
            snapshot,
            before.insert(directory.path.path, view),
            Ok(Some(grown.named(view.instance_name))),
            before.insert(directory.path.path, view),
        ),
    decreases rest.len(),
{
    let points = before.insert(directory.path.path, view);
    let renamed: SnapResult = Ok(Some(grown.named(view.instance_name)));
    if rest.len() > 0 {
        let tail = rest.drop_first();
        assert forall|i: int| 0 <= i < tail.len() implies (#[trigger] tail[i]).path.len() > 0
            && tail[i].path.drop_last() == directory.path.path by {
            assert(rest[i + 1].path.len() > 0);
        }
        if is_init_name(name_text(rest[0].path)->0) {
            lemma_renamed_entries(depth, fs, directory, tail, snapshot, before, view, grown);
        } else {
            let (own, mid) = entry_way(
                depth,
                fs,
                directory,
                rest,
                snapshot,
                before,
                Ok(Some(grown)),
                before,
            );
            law_points_unchanged((depth - 1) as nat, fs, rest[0], before, own, mid);
            lemma_walk_below_directory(
                (depth - 1) as nat,
                fs,
                directory.path.path,
                rest[0],
                before,
                view,
                own,
            );
            lemma_renamed_entries(
                depth,
                fs,
                directory,
                tail,
                grown_by(snapshot, own),
                before,
                view,
                grown,
            );
            assert(step(own, points));
            assert(entry_leads_to(
                depth,
                fs,
                directory,
                rest,
                snapshot,
                own,
                points,
                renamed,
                points,
            ));
        }
    }
}

/// What is remembered of a directory makes no difference to walks over its entries.
proof fn lemma_walk_below_directory(
    depth: nat,
    fs: FsView,
    path: PathView,
    entry: WrittenPath,
    before: PointsView,
    view: SyncPointView,
    own: SnapResult,
)
    requires
        fs_valid(fs),
        points_sync_free(before),
        children_sync_free(view.children),
        entry.path.len() > 0,
        entry.path.drop_last() == path,
        path_snapshots(depth, fs, entry, before, own, before),
    ensures
        path_snapshots(depth, fs, entry, before.insert(path, view), own, before.insert(path, view)),
{
    let points = before.insert(path, view);
    assert forall|place: PathView| starts_with(place, entry.path) implies place != path by {}
    assert(same_points_below(before, points, entry.path));
    assert(points_sync_free(points));
    law_walk_stays_below(depth, fs, fs, entry, before, points, own, before);
}

/// The snapshot of an entry bears the name that is remembered of its path, and is else
/// the same.
proof fn lemma_renamed_item(
    depth: nat,
    fs: FsView,
    path: PathView,
    before: PointsView,
    view: SyncPointView,
    snapshot: SnapshotView,
)
    requires
        fs_valid(fs),
        fs.contains_key(path),
        points_sync_free(before),
        children_sync_free(view.children),
        item_snapshots(depth, fs, fs[path], before, Ok(Some(snapshot)), before),
    ensures
        item_snapshots(
            depth,
            fs,
            fs[path],
            before.insert(path, view),
            Ok(Some(snapshot.named(view.instance_name))),
            before.insert(path, view),
        ),
{
    let points = before.insert(path, view);
    let renamed: SnapResult = Ok(Some(snapshot.named(view.instance_name)));
    assert(fs[path].path() == path);
    match fs[path] {
        ItemView::File(file) => {
            lemma_renamed_file(file, before, view, snapshot);
        },
        ItemView::Directory(directory) => {
            let all = directory.children;
            assert(directory.well_formed());
            if let Some(init) = init_path(directory) {
                let (own, mid) = init_way(
                    depth,
                    fs,
                    directory,
                    before,
                    Ok(Some(snapshot)),
                    before,
                );
                law_points_unchanged((depth - 1) as nat, fs, init, before, own, mid);
                assert(init.path.drop_last() =~= path);
                lemma_walk_below_directory(
                    (depth - 1) as nat,
                    fs,
                    path,
                    init,
                    before,
                    view,
                    own,
                );
                let script = own->Ok_0->Some_0;
                lemma_renamed_entries(
                    depth,
                    fs,
                    directory,
                    all,
                    script,
                    before,
                    view,
                    snapshot,
                );
                assert(step(own, points));
                assert(init_leads_to(depth, fs, directory, own, points, renamed, points));
            } else {
                let own = folder(directory.path.path);
                lemma_renamed_entries(depth, fs, directory, all, own, before, view, snapshot);
            }
        },
    }
}

/// More children behind snapshots that are the same but for the order of children leave them
/// so.
proof fn lemma_same_with_more(left: SnapshotView, right: SnapshotView, more: Seq<SnapshotView>)
    requires
        same_but_order(left, right),
    ensures
        same_but_order(with_more(left, more), with_more(right, more)),
    decreases more.len(),
{
    if more.len() == 0 {
        assert(with_more(left, more).children =~= left.children);
        assert(with_more(right, more).children =~= right.children);
    } else {
        let fewer = more.drop_last();
        lemma_same_with_more(left, right, fewer);
        law_same_as_itself(more.last());
        law_same_with_child(
            with_more(left, fewer),
            with_more(right, fewer),
            more.last(),
            more.last(),
        );
        assert(with_more(left, more).children =~= with_more(left, fewer).with_child(
            more.last(),
        ).children);
        assert(with_more(right, more).children =~= with_more(right, fewer).with_child(
            more.last(),
        ).children);
    }
}

/// What stands at a sync point is found anew for a second snapshot, and gets one child more
/// for each child that the manifest gives the sync point.
proof fn lemma_second(
    depth: nat,
    fs: FsView,
    name: Seq<char>,
    path: WrittenPath,
    children: Seq<ChildView>,
    before: PointsView,
    first: SnapshotView,
    mid: PointsView,
    later_depth: nat,
    second: SnapshotView,
    after: PointsView,
) -> (found: (nat, SnapshotView))
    requires
        fs_valid(fs),
        points_sync_free(before),
        !before.contains_key(path.path),
        children_sync_free(children),
        node_snapshots(
            depth,
            fs,
            name,
            NodeView::SyncPoint { path, children },
            before,
            Ok(first),
            mid,
        ),
        path_snapshots(later_depth, fs, path, mid, Ok(Some(second)), after),
    ensures
        fs.contains_key(path.path),
        item_snapshots(found.0, fs, fs[path.path], mid, Ok(Some(first)), mid),
        item_snapshots(found.0, fs, fs[path.path], mid, Ok(Some(found.1)), mid),
        second == with_more(found.1, all_described(children)),
        all_described(children).len() == children.len(),
        after == mid,
{
    let view = SyncPointView { instance_name: name, children };
    let (own, points) = sync_point_way(depth, fs, name, path, children, before, Ok(first), mid);
    let less = (depth - 1) as nat;
    law_points_unchanged(less, fs, path, before, own, points);
    let snapshot = own->Ok_0->Some_0;
    let (item, item_points) = path_way(less, fs, path, before, own, points);
    lemma_item_unchanged(less, fs, fs[path.path], before, item, item_points);
    assert(item == own);
    assert(mid == before.insert(path.path, view));
    lemma_renamed_item(less, fs, path.path, before, view, snapshot);
    assert(points_sync_free(mid));
    let (later, later_points) = path_way(
        later_depth,
        fs,
        path,
        mid,
        Ok(Some(second)),
        after,
    );
    lemma_item_unchanged(later_depth, fs, fs[path.path], mid, later, later_points);
    let deep = less + later_depth;
    depth::lemma_item(less, deep, fs, fs[path.path], mid, Ok(Some(first)), mid);
    depth::lemma_item(later_depth, deep, fs, fs[path.path], mid, later, mid);
    let twin = later->Ok_0->Some_0;
    let whole = completion_way(later_depth, fs, path.path, mid, twin, Ok(Some(second)), after);
    lemma_all_described(later_depth, fs, children, twin, mid, whole, after);
    (deep, twin)
}

/// A second snapshot of a sync point is the first, with one child more for each child that
/// the manifest gives the sync point, but for the order of children, and leaves what is
/// remembered as it is. The children are described in full, and nothing was remembered of
/// the path before.
pub proof fn law_second_snapshot_agrees(
    depth: nat,
    fs: FsView,
    name: Seq<char>,
    path: WrittenPath,
    children: Seq<ChildView>,
    before: PointsView,
    first: SnapshotView,
    mid: PointsView,
    later_depth: nat,
    second: SnapshotView,
    after: PointsView,
)
    requires
        fs_valid(fs),
        points_sync_free(before),
        !before.contains_key(path.path),
        children_sync_free(children),
        node_snapshots(
            depth,
            fs,
            name,
            NodeView::SyncPoint { path, children },
            before,
            Ok(first),
            mid,
        ),
        path_snapshots(later_depth, fs, path, mid, Ok(Some(second)), after),
    ensures
        same_but_order(with_more(first, all_described(children)), second),
        second.children.len() == first.children.len() + children.len(),
        after == mid,
{
    let (deep, twin) = lemma_second(
        depth,
        fs,
        name,
        path,
        children,
        before,
        first,
        mid,
        later_depth,
        second,
        after,
    );
    law_items_agree(deep, fs, fs[path.path], mid, Ok(Some(first)), mid, Ok(Some(twin)), mid);
    lemma_same_with_more(first, twin, all_described(children));
}

/// A third snapshot of a path from where the second has left off is the same as the second,
/// but for the order of children, if the second has left what is remembered as it was.
pub proof fn law_third_snapshot_agrees(
    depth: nat,
    fs: FsView,
    path: WrittenPath,
    before: PointsView,
    second: SnapshotView,
    last_depth: nat,
    third: SnapshotView,
    last: PointsView,
)
    requires
        path_snapshots(depth, fs, path, before, Ok(Some(second)), before),
        path_snapshots(last_depth, fs, path, before, Ok(Some(third)), last),
    ensures
        same_but_order(second, third),
        last == before,
{
    let deep = depth + last_depth;
    depth::law_depth(depth, deep, fs, path, before, Ok(Some(second)), before);
    depth::law_depth(last_depth, deep, fs, path, before, Ok(Some(third)), last);
    law_walks_agree(
        deep,
        fs,
        path,
        before,
        Ok(Some(second)),
        before,
        Ok(Some(third)),
        last,
    );
}

/// A second snapshot of a sync point is the first, with one child behind the others for
/// each child that the manifest gives the sync point, and leaves what is remembered as it
/// is. The children are described in full, nothing was remembered of the path before,
/// and binary models can be decoded in one way at most.
pub proof fn law_second_snapshot(
    depth: nat,
    fs: FsView,
    name: Seq<char>,
    path: WrittenPath,
    children: Seq<ChildView>,
    before: PointsView,
    first: SnapshotView,
    mid: PointsView,
    later_depth: nat,
    second: SnapshotView,
    after: PointsView,
)
    requires
        fs_valid(fs),
        sure_models(fs),
        points_sync_free(before),
        !before.contains_key(path.path),
        children_sync_free(children),
        node_snapshots(
            depth,
            fs,
            name,
            NodeView::SyncPoint { path, children },
            before,
            Ok(first),
            mid,
        ),
        path_snapshots(later_depth, fs, path, mid, Ok(Some(second)), after),
    ensures
        second == with_more(first, all_described(children)),
        second.children.len() == first.children.len() + children.len(),
        after == mid,
{
    let (deep, twin) = lemma_second(
        depth,
        fs,
        name,
        path,
        children,
        before,
        first,
        mid,
        later_depth,
        second,
        after,
    );
    unique::lemma_item(deep, fs, path.path, mid, Ok(Some(first)), mid, Ok(Some(twin)), mid);
}

/// A third snapshot of a sync point is the same as the second.
pub proof fn law_third_snapshot(
    depth: nat,
    fs: FsView,
    name: Seq<char>,
    path: WrittenPath,
    children: Seq<ChildView>,
    before: PointsView,
    first: SnapshotView,
    mid: PointsView,
    later_depth: nat,
    second: SnapshotView,
    after: PointsView,
    last_depth: nat,
    third: SnapshotView,
    last: PointsView,
)
    requires
        fs_valid(fs),
        sure_models(fs),
        points_sync_free(before),
        !before.contains_key(path.path),
        children_sync_free(children),
        node_snapshots(
            depth,
            fs,
            name,
            NodeView::SyncPoint { path, children },
            before,
            Ok(first),
            mid,
        ),
        path_snapshots(later_depth, fs, path, mid, Ok(Some(second)), after),
        path_snapshots(last_depth, fs, path, after, Ok(Some(third)), last),
    ensures
        third == second,
        last == after,
{
    law_second_snapshot(
        depth,
        fs,
        name,
        path,
        children,
        before,
        first,
        mid,
        later_depth,
        second,
        after,
    );
    law_second_snapshot(
        depth,
        fs,
        name,
        path,
        children,
        before,
        first,
        mid,
        last_depth,
        third,
        last,
    );
}

} // verus!
