//! Names and shapes of snapshots.
use crate::file_type::classify;
use crate::imfs::{fs_keyed, DirectoryView, FsView, ItemView};
use crate::laws::points::{law_unmentioned_unchanged, law_unmentioned_unchanged_item};
use crate::laws::ways::{
    bare_instance, child_way, completion_way, entry_way, init_way, path_way, sync_point_way,
};
use crate::path::{bare_paths, name_text, WrittenPath};
use crate::project::{children_valid, node_valid, ChildView, NodeView};
use crate::rbx_snapshot::SnapshotView;
use crate::sync_point::{unmentioned, PointsView, SyncPointView};
use crate::walk::{
    children_added, directory_snapshots, entries_added, folder, init_path, is_init_name, name_at,
    node_snapshots, path_snapshots,
};
use vstd::prelude::*;

verus! {

/// Whether `grown` is `snapshot` with perhaps another name, and perhaps more
/// children behind its own.
pub open spec fn grows_to(snapshot: SnapshotView, grown: SnapshotView) -> bool {
    &&& grown.class_name == snapshot.class_name
    &&& grown.properties == snapshot.properties
    &&& grown.source_path == snapshot.source_path
    &&& grown.metadata == snapshot.metadata
    &&& snapshot.children.len() <= grown.children.len()
    &&& grown.children.take(snapshot.children.len() as int) == snapshot.children
}

proof fn lemma_grows(snapshot: SnapshotView, child: SnapshotView, grown: SnapshotView)
    requires
        grows_to(snapshot.with_child(child), grown),
    ensures
        grows_to(snapshot, grown),
{
    let count = snapshot.children.len() as int;
    assert(grown.children.take(count) =~= grown.children.take(count + 1).take(count));
    assert(snapshot.with_child(child).children.take(count) =~= snapshot.children);
}

/// Manifest nodes that are added leave an instance as it is, but for its children.
proof fn lemma_children_grow(
    depth: nat,
    fs: FsView,
    rest: Seq<ChildView>,
    snapshot: SnapshotView,
    points: PointsView,
    grown: SnapshotView,
    after: PointsView,
)
    requires
        children_added(depth, fs, rest, snapshot, points, Ok(grown), after),
    ensures
        grows_to(snapshot, grown),
        grown.name == snapshot.name,
        grown.children.len() == snapshot.children.len() + rest.len(),
    decreases rest.len(),
{
    if rest.len() > 0 {
        let (own, mid) = child_way(depth, fs, rest, snapshot, points, Ok(grown), after);
        if let Ok(child) = own {
            let next = snapshot.with_child(child);
            lemma_children_grow(depth, fs, rest.drop_first(), next, mid, grown, after);
            lemma_grows(snapshot, child, grown);
        }
    } else {
        assert(grown.children.take(snapshot.children.len() as int) =~= snapshot.children);
    }
}

/// The paths whose names are not those of init scripts, in order.
pub open spec fn plain_paths(paths: Seq<WrittenPath>) -> Seq<WrittenPath>
    decreases paths.len(),
{
    if paths.len() == 0 {
        Seq::empty()
    } else if name_text(paths[0].path) matches Some(name) && is_init_name(name) {
        plain_paths(paths.drop_first())
    } else {
        seq![paths[0]] + plain_paths(paths.drop_first())
    }
}

/// The snapshots that there are, in order.
pub open spec fn given(owns: Seq<Option<SnapshotView>>) -> Seq<SnapshotView>
    decreases owns.len(),
{
    if owns.len() == 0 {
        Seq::empty()
    } else {
        match owns[0] {
            Some(snapshot) => seq![snapshot] + given(owns.drop_first()),
            None => given(owns.drop_first()),
        }
    }
}

/// Whether the paths, walked one after the other, give `owns`, where `stages` are the
/// sync points remembered before, between and after the walks.
pub open spec fn walked_in_turn(
    depth: nat,
    fs: FsView,
    paths: Seq<WrittenPath>,
    owns: Seq<Option<SnapshotView>>,
    stages: Seq<PointsView>,
) -> bool {
    &&& owns.len() == paths.len()
    &&& stages.len() == paths.len() + 1
    &&& forall|k: int|
        0 <= k < paths.len() ==> path_snapshots(
            depth,
            fs,
            paths[k],
            stages[k],
            Ok(#[trigger] owns[k]),
            stages[k + 1],
        )
}

/// The children that entries add to a directory are the snapshots of the entries that
/// are no init scripts and give an instance.
proof fn lemma_entries_line(
    depth: nat,
    fs: FsView,
    directory: DirectoryView,
    rest: Seq<WrittenPath>,
    snapshot: SnapshotView,
    points: PointsView,
    grown: SnapshotView,
    after: PointsView,
) -> (line: (Seq<Option<SnapshotView>>, Seq<PointsView>))
    requires
        depth > 0,
        entries_added(depth, fs, directory, rest, snapshot, points, Ok(Some(grown)), after),
    ensures
        walked_in_turn((depth - 1) as nat, fs, plain_paths(rest), line.0, line.1),
        line.1[0] == points,
        line.1.last() == after,
        grown.children == snapshot.children + given(line.0),
    decreases rest.len(),
{
    if rest.len() == 0 {
        let line = (Seq::<Option<SnapshotView>>::empty(), seq![points]);
        assert(grown.children =~= snapshot.children + given(line.0));
        line
    } else {
        let tail = rest.drop_first();
        if is_init_name(name_text(rest[0].path)->0) {
            lemma_entries_line(depth, fs, directory, tail, snapshot, points, grown, after)
        } else {
            let (own, mid) = entry_way(
                depth,
                fs,
                directory,
                rest,
                snapshot,
                points,
                Ok(Some(grown)),
                after,
            );
            let first = own->Ok_0;
            let next = match first {
                Some(child) => snapshot.with_child(child),
                None => snapshot,
            };
            let later = lemma_entries_line(depth, fs, directory, tail, next, mid, grown, after);
            let owns = seq![first] + later.0;
            let stages = seq![points] + later.1;
            assert(owns.drop_first() =~= later.0);
            assert forall|k: int| 0 <= k < owns.len() implies path_snapshots(
                (depth - 1) as nat,
                fs,
                plain_paths(rest)[k],
                stages[k],
                Ok(#[trigger] owns[k]),
                stages[k + 1],
            ) by {
                if k > 0 {
                    assert(owns[k] == later.0[k - 1]);
                    assert(stages[k + 1] == later.1[k]);
                }
            }
            assert(grown.children =~= snapshot.children + given(owns));
            (owns, stages)
        }
    }
}

/// Where no path occurs twice, none does among the plain ones.
pub proof fn law_plain_paths_once(paths: Seq<WrittenPath>)
    requires
        bare_paths(paths).no_duplicates(),
    ensures
        bare_paths(plain_paths(paths)).no_duplicates(),
        forall|path: WrittenPath| #[trigger]
            plain_paths(paths).contains(path) ==> paths.contains(path),
    decreases paths.len(),
{
    if paths.len() > 0 {
        let tail = paths.drop_first();
        let plain = plain_paths(paths);
        let later = plain_paths(tail);
        assert forall|i: int, j: int|
            0 <= i < tail.len() && 0 <= j < tail.len() && i != j implies bare_paths(tail)[i]
            != bare_paths(tail)[j] by {
            assert(bare_paths(paths)[i + 1] != bare_paths(paths)[j + 1]);
        }
        law_plain_paths_once(tail);
        assert forall|path: WrittenPath| #[trigger] plain.contains(path) implies paths.contains(
            path,
        ) by {
            let k = choose|k: int| 0 <= k < plain.len() && plain[k] == path;
            if later.contains(path) {
                let l = choose|l: int| 0 <= l < tail.len() && tail[l] == path;
                assert(paths[l + 1] == path);
            } else {
                if k > 0 {
                    assert(later[k - 1] == path);
                }
                assert(paths[0] == path);
            }
        }
        if !(name_text(paths[0].path) matches Some(name) && is_init_name(name)) {
            assert forall|i: int, j: int| 0 <= i < j < plain.len() implies bare_paths(plain)[i]
                != bare_paths(plain)[j] by {
                assert(plain[j] == later[j - 1]);
                if i == 0 {
                    assert(later.contains(later[j - 1]));
                    let l = choose|l: int| 0 <= l < tail.len() && tail[l] == later[j - 1];
                    assert(bare_paths(paths)[l + 1] != bare_paths(paths)[0]);
                } else {
                    assert(plain[i] == later[i - 1]);
                    assert(bare_paths(later)[i - 1] != bare_paths(later)[j - 1]);
                }
            }
        }
    }
}

/// Entries that are added leave a directory as it is, but for its name and its
/// children.
proof fn lemma_entries_grow(
    depth: nat,
    fs: FsView,
    directory: DirectoryView,
    rest: Seq<WrittenPath>,
    snapshot: SnapshotView,
    points: PointsView,
    grown: SnapshotView,
    after: PointsView,
)
    requires
        entries_added(depth, fs, directory, rest, snapshot, points, Ok(Some(grown)), after),
    ensures
        grows_to(snapshot, grown),
        after.contains_key(directory.path.path) || name_text(directory.path.path) is Some,
        grown.name == name_at(after, directory.path.path, name_text(directory.path.path)->0),
    decreases rest.len(),
{
    if rest.len() > 0 && name_text(rest[0].path) is Some {
        let tail = rest.drop_first();
        if is_init_name(name_text(rest[0].path)->0) {
            lemma_entries_grow(depth, fs, directory, tail, snapshot, points, grown, after);
        } else if depth > 0 {
            let (own, mid) = entry_way(
                depth,
                fs,
                directory,
                rest,
                snapshot,
                points,
                Ok(Some(grown)),
                after,
            );
            if let Ok(Some(child)) = own {
                let next = snapshot.with_child(child);
                lemma_entries_grow(depth, fs, directory, tail, next, mid, grown, after);
                lemma_grows(snapshot, child, grown);
            } else if own is Ok {
                lemma_entries_grow(depth, fs, directory, tail, snapshot, mid, grown, after);
            }
        }
    } else {
        assert(grown.children.take(snapshot.children.len() as int) =~= snapshot.children);
    }
}

/// A directory with an init script is what that script is: it has its class, its
/// properties, its source and its children. Behind these it has one child for each entry
/// that is no init script and gives an instance: the entries are walked in turn, and what
/// they give is in their order.
pub proof fn law_init_decides(
    depth: nat,
    fs: FsView,
    directory: DirectoryView,
    before: PointsView,
    snapshot: SnapshotView,
    after: PointsView,
) -> (way: (SnapshotView, Seq<Option<SnapshotView>>, Seq<PointsView>))
    requires
        directory_snapshots(depth, fs, directory, before, Ok(Some(snapshot)), after),
        init_path(directory) is Some,
    ensures
        path_snapshots(
            (depth - 1) as nat,
            fs,
            init_path(directory)->0,
            before,
            Ok(Some(way.0)),
            way.2[0],
        ),
        walked_in_turn(
            (depth - 1) as nat,
            fs,
            plain_paths(directory.children),
            way.1,
            way.2,
        ),
        way.2.last() == after,
        grows_to(way.0, snapshot),
        snapshot.children == way.0.children + given(way.1),
{
    let (own, mid) = init_way(depth, fs, directory, before, Ok(Some(snapshot)), after);
    let init = own->Ok_0->Some_0;
    let all = directory.children;
    lemma_entries_grow(depth, fs, directory, all, init, mid, snapshot, after);
    let line = lemma_entries_line(depth, fs, directory, all, init, mid, snapshot, after);
    (init, line.0, line.1)
}

/// A directory without an init script is a folder without properties, with one child for
/// each entry that gives an instance: the entries are walked in turn, and what they give
/// is in their order.
pub proof fn law_folder(
    depth: nat,
    fs: FsView,
    directory: DirectoryView,
    before: PointsView,
    snapshot: SnapshotView,
    after: PointsView,
) -> (line: (Seq<Option<SnapshotView>>, Seq<PointsView>))
    requires
        directory_snapshots(depth, fs, directory, before, Ok(Some(snapshot)), after),
        init_path(directory) is None,
    ensures
        snapshot.class_name == "Folder"@,
        snapshot.properties == Map::<Seq<char>, rbx_tree::RbxValue>::empty(),
        snapshot.source_path == Some(directory.path.path),
        snapshot.metadata is None,
        walked_in_turn(
            (depth - 1) as nat,
            fs,
            plain_paths(directory.children),
            line.0,
            line.1,
        ),
        line.1[0] == before,
        line.1.last() == after,
        snapshot.children == given(line.0),
{
    let own = folder(directory.path.path);
    let all = directory.children;
    lemma_entries_grow(depth, fs, directory, all, own, before, snapshot, after);
    let line = lemma_entries_line(depth, fs, directory, all, own, before, snapshot, after);
    assert(snapshot.children =~= given(line.0));
    line
}

/// The name of an instance that comes from a path: the one that is remembered of
/// the path, or else the one that the path itself gives.
proof fn lemma_name(
    depth: nat,
    fs: FsView,
    path: WrittenPath,
    before: PointsView,
    snapshot: SnapshotView,
    after: PointsView,
)
    requires
        path_snapshots(depth, fs, path, before, Ok(Some(snapshot)), after),
        fs_keyed(fs),
        unmentioned(before, path.path),
    ensures
        fs.contains_key(path.path),
        snapshot.name == name_at(before, path.path, own_name(fs[path.path])),
{
    let (own, mid) = path_way(depth, fs, path, before, Ok(Some(snapshot)), after);
    law_unmentioned_unchanged_item(depth, fs, fs[path.path], before, own, mid, path.path);
    assert(fs[path.path].path() == path.path);
    let base = own->Ok_0->Some_0;
    if mid.contains_key(path.path) {
        let whole = completion_way(depth, fs, path.path, mid, base, Ok(Some(snapshot)), after);
        lemma_children_grow(depth, fs, mid[path.path].children, base, mid, snapshot, after);
    }
    if let ItemView::Directory(directory) = fs[path.path] {
        if init_path(directory) is Some {
            let (init, points) = init_way(depth, fs, directory, before, own, mid);
            let script = init->Ok_0->Some_0;
            lemma_entries_grow(
                depth,
                fs,
                directory,
                directory.children,
                script,
                points,
                base,
                mid,
            );
        } else {
            lemma_entries_grow(
                depth,
                fs,
                directory,
                directory.children,
                folder(directory.path.path),
                before,
                base,
                mid,
            );
        }
    }
}

/// The name that an entry of the file system gives its instance: for a file what
/// stands before its extension, for a directory its name.
pub open spec fn own_name(item: ItemView) -> Seq<char> {
    match item {
        ItemView::File(file) => match classify(file.path.path) {
            Some((stem, _)) => stem,
            None => Seq::empty(),
        },
        ItemView::Directory(directory) => name_text(directory.path.path)->0,
    }
}

/// A name that the manifest gave to a path is not lost: as long as no other sync
/// point leads there, every snapshot of the path bears it.
pub proof fn law_remembered_name(
    depth: nat,
    fs: FsView,
    path: WrittenPath,
    before: PointsView,
    snapshot: SnapshotView,
    after: PointsView,
)
    requires
        path_snapshots(depth, fs, path, before, Ok(Some(snapshot)), after),
        fs_keyed(fs),
        unmentioned(before, path.path),
        before.contains_key(path.path),
    ensures
        snapshot.name == before[path.path].instance_name,
        after.contains_key(path.path),
        after[path.path] == before[path.path],
{
    lemma_name(depth, fs, path, before, snapshot, after);
    law_unmentioned_unchanged(depth, fs, path, before, Ok(Some(snapshot)), after, path.path);
}

/// A path of which nothing is remembered, and to which no sync point leads, gives
/// an instance with the name of the file, without its extension, or of the
/// directory.
pub proof fn law_own_name(
    depth: nat,
    fs: FsView,
    path: WrittenPath,
    before: PointsView,
    snapshot: SnapshotView,
    after: PointsView,
)
    requires
        path_snapshots(depth, fs, path, before, Ok(Some(snapshot)), after),
        fs_keyed(fs),
        unmentioned(before, path.path),
        !before.contains_key(path.path),
    ensures
        fs.contains_key(path.path),
        snapshot.name == own_name(fs[path.path]),
        !after.contains_key(path.path),
{
    lemma_name(depth, fs, path, before, snapshot, after);
    law_unmentioned_unchanged(depth, fs, path, before, Ok(Some(snapshot)), after, path.path);
}

/// A sync point gives its instance the name from the manifest, and is remembered
/// with that name and its children.
pub proof fn law_sync_point(
    depth: nat,
    fs: FsView,
    name: Seq<char>,
    path: WrittenPath,
    children: Seq<ChildView>,
    before: PointsView,
    snapshot: SnapshotView,
    after: PointsView,
)
    requires
        node_snapshots(
            depth,
            fs,
            name,
            NodeView::SyncPoint { path, children },
            before,
            Ok(snapshot),
            after,
        ),
    ensures
        snapshot.name == name,
        after.contains_key(path.path),
        after[path.path] == (SyncPointView { instance_name: name, children }),
{
    let (own, mid) = sync_point_way(
        depth,
        fs,
        name,
        path,
        children,
        before,
        Ok(snapshot),
        after,
    );
}

/// Once a sync point was constructed, every later snapshot of its path, also of
/// another state of the file system, bears the name from the manifest, as long as
/// no other sync point leads to the path.
pub proof fn law_sync_point_name_is_kept(
    depth: nat,
    fs: FsView,
    name: Seq<char>,
    path: WrittenPath,
    children: Seq<ChildView>,
    before: PointsView,
    first: SnapshotView,
    mid: PointsView,
    later_depth: nat,
    later_fs: FsView,
    later: SnapshotView,
    after: PointsView,
)
    requires
        node_snapshots(
            depth,
            fs,
            name,
            NodeView::SyncPoint { path, children },
            before,
            Ok(first),
            mid,
        ),
        path_snapshots(later_depth, later_fs, path, mid, Ok(Some(later)), after),
        fs_keyed(later_fs),
        unmentioned(mid, path.path),
    ensures
        later.name == name,
        first.name == name,
{
    law_sync_point(depth, fs, name, path, children, before, first, mid);
    law_remembered_name(later_depth, later_fs, path, mid, later, after);
}

/// An instance that the manifest describes in full has the name, class, properties
/// and metadata from there, no source, and one child for each child there, under its
/// name.
pub proof fn law_described_instance(
    depth: nat,
    fs: FsView,
    name: Seq<char>,
    node: NodeView,
    before: PointsView,
    snapshot: SnapshotView,
    after: PointsView,
)
    requires
        node is Instance,
        node_snapshots(depth, fs, name, node, before, Ok(snapshot), after),
    ensures
        snapshot.name == name,
        snapshot.class_name == node->class_name,
        snapshot.properties == node->properties,
        snapshot.metadata == Some(node->metadata),
        snapshot.source_path is None,
        snapshot.children.len() == node->Instance_children.len(),
        forall|i: int|
            0 <= i < snapshot.children.len() ==> (#[trigger] snapshot.children[i]).name
                == node->Instance_children[i].name,
{
    lemma_children_named(
        depth,
        fs,
        node->Instance_children,
        bare_instance(name, node),
        before,
        snapshot,
        after,
    );
    lemma_children_grow(
        depth,
        fs,
        node->Instance_children,
        bare_instance(name, node),
        before,
        snapshot,
        after,
    );
}

/// Manifest nodes that are added bear their names.
proof fn lemma_children_named(
    depth: nat,
    fs: FsView,
    rest: Seq<ChildView>,
    snapshot: SnapshotView,
    points: PointsView,
    grown: SnapshotView,
    after: PointsView,
)
    requires
        children_added(depth, fs, rest, snapshot, points, Ok(grown), after),
    ensures
        grown.children.len() == snapshot.children.len() + rest.len(),
        forall|i: int|
            0 <= i < rest.len() ==> grown.children[snapshot.children.len() + i].name == (
            #[trigger] rest[i]).name,
    decreases rest.len(),
{
    if rest.len() > 0 {
        let (own, mid) = child_way(depth, fs, rest, snapshot, points, Ok(grown), after);
        let child = own->Ok_0;
        let next = snapshot.with_child(child);
        match rest[0].node {
            NodeView::Instance { children, .. } => {
                let bare = bare_instance(rest[0].name, rest[0].node);
                lemma_children_grow(depth, fs, children, bare, points, child, mid);
            },
            NodeView::SyncPoint { path, children } => {
                let way = sync_point_way(
                    depth,
                    fs,
                    rest[0].name,
                    path,
                    children,
                    points,
                    own,
                    mid,
                );
            },
        }
        lemma_children_named(depth, fs, rest.drop_first(), next, mid, grown, after);
        lemma_children_grow(depth, fs, rest.drop_first(), next, mid, grown, after);
        assert forall|i: int| 0 <= i < rest.len() implies grown.children[snapshot.children.len()
            + i].name == (#[trigger] rest[i]).name by {
            if i > 0 {
                assert(rest.drop_first()[i - 1] == rest[i]);
            } else {
                let count = next.children.len() as int;
                assert(grown.children.take(count)[count - 1] == grown.children[count - 1]);
            }
        }
    }
}

/// Where no two children of a manifest node have the same name, no two children of the
/// instance that it describes have.
pub proof fn law_distinct_names(
    depth: nat,
    fs: FsView,
    name: Seq<char>,
    node: NodeView,
    before: PointsView,
    snapshot: SnapshotView,
    after: PointsView,
)
    requires
        node is Instance,
        node_valid(node),
        node_snapshots(depth, fs, name, node, before, Ok(snapshot), after),
    ensures
        forall|i: int, j: int|
            0 <= i < j < snapshot.children.len() ==> (#[trigger] snapshot.children[i]).name != (
            #[trigger] snapshot.children[j]).name,
{
    law_described_instance(depth, fs, name, node, before, snapshot, after);
    assert(children_valid(node->Instance_children));
}

} // verus!
