//! Init scripts.
use crate::failure::{FailureView, PanicView};
use crate::file_type::{classify_name, ends_with, FileType};
use crate::imfs::{fs_keyed, DirectoryView, FsView, ItemView};
use crate::laws::ways::{
    bare_instance, child_way, completion_way, entry_way, init_way, path_way, sync_point_way,
};
use crate::path::{name_text, WrittenPath};
use crate::project::{ChildView, NodeView};
use crate::rbx_snapshot::SnapshotView;
use crate::sync_point::PointsView;
use crate::walk::{
    children_added, entries_added, folder, init_path, is_init_name, item_snapshots, node_snapshots,
    path_snapshots, NodeResult, SnapResult, INIT_CLIENT_SCRIPT, INIT_SCRIPT, INIT_SERVER_SCRIPT,
};
use vstd::prelude::*;

verus! {

/// A directory always gives an instance or a failure.
proof fn lemma_entries_give(
    depth: nat,
    fs: FsView,
    directory: DirectoryView,
    rest: Seq<WrittenPath>,
    snapshot: SnapshotView,
    points: PointsView,
    result: SnapResult,
    after: PointsView,
)
    requires
        entries_added(depth, fs, directory, rest, snapshot, points, result, after),
    ensures
        result != Ok::<Option<SnapshotView>, FailureView>(None),
    decreases rest.len(),
{
    if rest.len() > 0 && name_text(rest[0].path) is Some {
        let tail = rest.drop_first();
        if is_init_name(name_text(rest[0].path)->0) {
            lemma_entries_give(depth, fs, directory, tail, snapshot, points, result, after);
        } else if depth > 0 {
            let (own, mid) = entry_way(
                depth,
                fs,
                directory,
                rest,
                snapshot,
                points,
                result,
                after,
            );
            if let Ok(Some(child)) = own {
                let grown = snapshot.with_child(child);
                lemma_entries_give(depth, fs, directory, tail, grown, mid, result, after);
            } else if own is Ok {
                lemma_entries_give(depth, fs, directory, tail, snapshot, mid, result, after);
            }
        }
    }
}

/// Whether a file of this name is a script.
pub open spec fn is_script_name(name: Seq<char>) -> bool {
    match classify_name(name) {
        Some((_, FileType::ModuleScript)) => true,
        Some((_, FileType::ServerScript)) => true,
        Some((_, FileType::ClientScript)) => true,
        _ => false,
    }
}

/// Files with the names of init scripts are scripts.
pub proof fn law_init_names_are_scripts(name: Seq<char>)
    requires
        is_init_name(name),
    ensures
        is_script_name(name),
{
    reveal_strlit("init.lua");
    reveal_strlit("init.server.lua");
    reveal_strlit("init.client.lua");
    reveal_strlit(".lua");
    assert(INIT_SCRIPT@.skip(4) =~= ".lua"@);
    assert(INIT_SERVER_SCRIPT@.skip(11) =~= ".lua"@);
    assert(INIT_CLIENT_SCRIPT@.skip(11) =~= ".lua"@);
    assert(ends_with(INIT_SCRIPT@, ".lua"@));
    assert(ends_with(INIT_SERVER_SCRIPT@, ".lua"@));
    assert(ends_with(INIT_CLIENT_SCRIPT@, ".lua"@));
}

/// The path of an init script that exists gives an instance or a failure, never
/// nothing.
pub proof fn law_init_gives_an_instance(
    depth: nat,
    fs: FsView,
    path: WrittenPath,
    before: PointsView,
    result: SnapResult,
    after: PointsView,
)
    requires
        path_snapshots(depth, fs, path, before, result, after),
        fs_keyed(fs),
        name_text(path.path) is Some,
        is_init_name(name_text(path.path)->0),
    ensures
        result != Ok::<Option<SnapshotView>, FailureView>(None),
{
    law_init_names_are_scripts(name_text(path.path)->0);
    if depth > 0 && fs.contains_key(path.path) {
        let (own, mid) = path_way(depth, fs, path, before, result, after);
        assert(fs[path.path].path() == path.path);
        if let ItemView::Directory(directory) = fs[path.path] {
            if init_path(directory) is Some {
                let (init, points) = init_way(depth, fs, directory, before, own, mid);
                if let Ok(Some(snapshot)) = init {
                    lemma_entries_give(
                        depth,
                        fs,
                        directory,
                        directory.children,
                        snapshot,
                        points,
                        own,
                        mid,
                    );
                }
            } else {
                lemma_entries_give(
                    depth,
                    fs,
                    directory,
                    directory.children,
                    folder(directory.path.path),
                    before,
                    own,
                    mid,
                );
            }
        }
        if let Ok(Some(snapshot)) = own {
            if mid.contains_key(path.path) {
                let whole = completion_way(depth, fs, path.path, mid, snapshot, result, after);
            }
        }
    }
}

/// Where each entry stands under its own path, no walk comes by an init script
/// that gives nothing.
pub proof fn law_no_empty_init(
    depth: nat,
    fs: FsView,
    path: WrittenPath,
    before: PointsView,
    result: SnapResult,
    after: PointsView,
)
    requires
        path_snapshots(depth, fs, path, before, result, after),
        fs_keyed(fs),
    ensures
        result != Err::<Option<SnapshotView>, FailureView>(FailureView::Panic(PanicView::InitEmpty)),
    decreases depth, 4nat, 0nat, path,
{
    if depth > 0 && fs.contains_key(path.path) {
        let (own, mid) = path_way(depth, fs, path, before, result, after);
        law_no_empty_init_item(depth, fs, fs[path.path], before, own, mid);
        if let Ok(Some(snapshot)) = own {
            if mid.contains_key(path.path) {
                let whole = completion_way(depth, fs, path.path, mid, snapshot, result, after);
                law_no_empty_init_children(
                    depth,
                    fs,
                    mid[path.path].children,
                    snapshot,
                    mid,
                    whole,
                    after,
                );
            }
        }
    }
}

proof fn law_no_empty_init_item(
    depth: nat,
    fs: FsView,
    item: ItemView,
    before: PointsView,
    result: SnapResult,
    after: PointsView,
)
    requires
        item_snapshots(depth, fs, item, before, result, after),
        fs_keyed(fs),
    ensures
        result != Err::<Option<SnapshotView>, FailureView>(FailureView::Panic(PanicView::InitEmpty)),
    decreases depth, 3nat, 0nat, item,
{
    if let ItemView::Directory(directory) = item {
        if depth > 0 {
            if let Some(init) = init_path(directory) {
                let (own, mid) = init_way(depth, fs, directory, before, result, after);
                law_no_empty_init((depth - 1) as nat, fs, init, before, own, mid);
                law_init_gives_an_instance((depth - 1) as nat, fs, init, before, own, mid);
                if let Ok(Some(snapshot)) = own {
                    law_no_empty_init_entries(
                        depth,
                        fs,
                        directory,
                        directory.children,
                        snapshot,
                        mid,
                        result,
                        after,
                    );
                }
            } else {
                law_no_empty_init_entries(
                    depth,
                    fs,
                    directory,
                    directory.children,
                    folder(directory.path.path),
                    before,
                    result,
                    after,
                );
            }
        }
    }
}

proof fn law_no_empty_init_entries(
    depth: nat,
    fs: FsView,
    directory: DirectoryView,
    rest: Seq<WrittenPath>,
    snapshot: SnapshotView,
    points: PointsView,
    result: SnapResult,
    after: PointsView,
)
    requires
        entries_added(depth, fs, directory, rest, snapshot, points, result, after),
        fs_keyed(fs),
    ensures
        result != Err::<Option<SnapshotView>, FailureView>(FailureView::Panic(PanicView::InitEmpty)),
    decreases depth, 2nat, rest.len(), rest,
{
    if rest.len() > 0 && name_text(rest[0].path) is Some {
        let tail = rest.drop_first();
        if is_init_name(name_text(rest[0].path)->0) {
            law_no_empty_init_entries(depth, fs, directory, tail, snapshot, points, result, after);
        } else if depth > 0 {
            let (own, mid) = entry_way(
                depth,
                fs,
                directory,
                rest,
                snapshot,
                points,
                result,
                after,
            );
            law_no_empty_init((depth - 1) as nat, fs, rest[0], points, own, mid);
            if let Ok(Some(child)) = own {
                let grown = snapshot.with_child(child);
                law_no_empty_init_entries(depth, fs, directory, tail, grown, mid, result, after);
            } else if own is Ok {
                law_no_empty_init_entries(depth, fs, directory, tail, snapshot, mid, result, after);
            }
        }
    }
}

proof fn law_no_empty_init_node(
    depth: nat,
    fs: FsView,
    name: Seq<char>,
    node: NodeView,
    before: PointsView,
    result: NodeResult,
    after: PointsView,
)
    requires
        node_snapshots(depth, fs, name, node, before, result, after),
        fs_keyed(fs),
    ensures
        result != Err::<SnapshotView, PanicView>(PanicView::InitEmpty),
    decreases depth, 0nat, 0nat, node,
{
    match node {
        NodeView::Instance { children, .. } => {
            law_no_empty_init_children(
                depth,
                fs,
                children,
                bare_instance(name, node),
                before,
                result,
                after,
            );
        },
        NodeView::SyncPoint { path, children } => {
            if depth > 0 {
                let (own, mid) = sync_point_way(
                    depth,
                    fs,
                    name,
                    path,
                    children,
                    before,
                    result,
                    after,
                );
                law_no_empty_init((depth - 1) as nat, fs, path, before, own, mid);
            }
        },
    }
}

proof fn law_no_empty_init_children(
    depth: nat,
    fs: FsView,
    rest: Seq<ChildView>,
    snapshot: SnapshotView,
    points: PointsView,
    result: NodeResult,
    after: PointsView,
)
    requires
        children_added(depth, fs, rest, snapshot, points, result, after),
        fs_keyed(fs),
    ensures
        result != Err::<SnapshotView, PanicView>(PanicView::InitEmpty),
    decreases depth, 0nat, 0nat, rest,
{
    if rest.len() > 0 {
        let (own, mid) = child_way(depth, fs, rest, snapshot, points, result, after);
        law_no_empty_init_node(depth, fs, rest[0].name, rest[0].node, points, own, mid);
        if let Ok(child) = own {
            let grown = snapshot.with_child(child);
            law_no_empty_init_children(depth, fs, rest.drop_first(), grown, mid, result, after);
        }
    }
}

} // verus!
