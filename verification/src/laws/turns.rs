//! Walks, step by step: what is walked in turn, and what comes of it.
use crate::failure::{ErrorView, FailureView, PanicView};
use crate::imfs::{DirectoryView, FileView, FsView, ItemView};
use crate::laws::files::{law_init_names, law_other_scripts, law_text_files};
use crate::laws::names::{given, law_folder, law_init_decides, plain_paths, walked_in_turn};
use crate::laws::origins::{law_points_unchanged, points_sync_free};
use crate::laws::ways::{
    bare_instance, child_way, completion_way, entry_way, init_way, path_way, sync_point_way,
};
use crate::path::{join, name_text, PathPart, PathView, WrittenPath};
use crate::project::{ChildView, NodeView};
use crate::rbx_snapshot::SnapshotView;
use crate::sync_point::PointsView;
use crate::value::text_value;
use crate::walk::{
    children_added, directory_snapshots, entries_added, file_snapshots, folder, init_path,
    is_init_name, item_snapshots, node_snapshots, path_snapshots, NodeResult, SnapResult,
};
use vstd::prelude::*;
use vstd::utf8::decode_utf8;

verus! {

/// Whether a directory lists an entry of this name.
pub open spec fn lists(directory: DirectoryView, name: Seq<char>) -> bool {
    exists|i: int|
        0 <= i < directory.children.len() && (#[trigger] directory.children[i]).path
            == directory.path.path.push(PathPart::Normal(name))
}

proof fn lemma_lists(directory: DirectoryView, name: Seq<char>)
    ensures
        lists(directory, name) <==> directory.entries().contains(
            join(directory.path.path, name),
        ),
{
    let path = join(directory.path.path, name);
    if lists(directory, name) {
        let i = choose|i: int|
            0 <= i < directory.children.len() && (#[trigger] directory.children[i]).path
                == directory.path.path.push(PathPart::Normal(name));
        assert(directory.entries()[i] == path);
    }
    if directory.entries().contains(path) {
        let i = choose|i: int| 0 <= i < directory.entries().len() && directory.entries()[i] == path;
        assert(directory.children[i].path == path);
    }
}

/// What decides a directory is its `init.lua`, or if it lists none its `init.server.lua`, or
/// if it lists neither its `init.client.lua`.
pub proof fn law_init_path(directory: DirectoryView)
    ensures
        init_path(directory) == if lists(directory, "init.lua"@) {
            Some(directory.path.joined("init.lua"@))
        } else if lists(directory, "init.server.lua"@) {
            Some(directory.path.joined("init.server.lua"@))
        } else if lists(directory, "init.client.lua"@) {
            Some(directory.path.joined("init.client.lua"@))
        } else {
            None
        },
{
    lemma_lists(directory, "init.lua"@);
    lemma_lists(directory, "init.server.lua"@);
    lemma_lists(directory, "init.client.lua"@);
}

/// Whether two snapshots are the same but for their names.
pub open spec fn same_but_name(left: SnapshotView, right: SnapshotView) -> bool {
    &&& left.class_name == right.class_name
    &&& left.properties == right.properties
    &&& left.children == right.children
    &&& left.source_path == right.source_path
    &&& left.metadata == right.metadata
}

/// Whether `grown` is `snapshot` with some children behind its own.
pub open spec fn same_with_more(
    snapshot: SnapshotView,
    more: Seq<SnapshotView>,
    grown: SnapshotView,
) -> bool {
    &&& grown.name == snapshot.name
    &&& grown.class_name == snapshot.class_name
    &&& grown.properties == snapshot.properties
    &&& grown.source_path == snapshot.source_path
    &&& grown.metadata == snapshot.metadata
    &&& grown.children == snapshot.children + more
}

/// A snapshot under another name, and one with one more child, are else the same.
pub proof fn law_changed_snapshots(snapshot: SnapshotView, name: Seq<char>, child: SnapshotView)
    ensures
        snapshot.named(name).name == name,
        same_but_name(snapshot.named(name), snapshot),
        same_with_more(snapshot, seq![child], snapshot.with_child(child)),
{
    assert(snapshot.children.push(child) =~= snapshot.children + seq![child]);
}

/// Whether manifest nodes, walked one after the other, give `owns`, where `stages` are the
/// sync points remembered before, between and after the walks.
pub open spec fn nodes_in_turn(
    depth: nat,
    fs: FsView,
    nodes: Seq<ChildView>,
    owns: Seq<SnapshotView>,
    stages: Seq<PointsView>,
) -> bool {
    &&& owns.len() == nodes.len()
    &&& stages.len() == nodes.len() + 1
    &&& forall|k: int|
        0 <= k < nodes.len() ==> node_snapshots(
            depth,
            fs,
            nodes[k].name,
            nodes[k].node,
            stages[k],
            Ok(#[trigger] owns[k]),
            stages[k + 1],
        )
}

proof fn lemma_nodes_line(
    depth: nat,
    fs: FsView,
    rest: Seq<ChildView>,
    snapshot: SnapshotView,
    points: PointsView,
    grown: SnapshotView,
    after: PointsView,
) -> (line: (Seq<SnapshotView>, Seq<PointsView>))
    requires
        children_added(depth, fs, rest, snapshot, points, Ok(grown), after),
    ensures
        nodes_in_turn(depth, fs, rest, line.0, line.1),
        line.1[0] == points,
        line.1.last() == after,
        same_with_more(snapshot, line.0, grown),
    decreases rest.len(),
{
    if rest.len() == 0 {
        let line = (Seq::<SnapshotView>::empty(), seq![points]);
        assert(snapshot.children + line.0 =~= snapshot.children);
        line
    } else {
        let (own, mid) = child_way(depth, fs, rest, snapshot, points, Ok(grown), after);
        let child = own->Ok_0;
        let tail = rest.drop_first();
        let next = snapshot.with_child(child);
        let later = lemma_nodes_line(depth, fs, tail, next, mid, grown, after);
        let owns = seq![child] + later.0;
        let stages = seq![points] + later.1;
        assert forall|k: int| 0 <= k < rest.len() implies node_snapshots(
            depth,
            fs,
            rest[k].name,
            rest[k].node,
            stages[k],
            Ok(#[trigger] owns[k]),
            stages[k + 1],
        ) by {
            if k > 0 {
                assert(owns[k] == later.0[k - 1]);
                assert(tail[k - 1] == rest[k]);
                assert(stages[k + 1] == later.1[k]);
            }
        }
        assert(next.children + later.0 =~= snapshot.children + owns);
        (owns, stages)
    }
}

/// The failure of manifest nodes is that of the first that fails.
proof fn lemma_nodes_failure(
    depth: nat,
    fs: FsView,
    rest: Seq<ChildView>,
    snapshot: SnapshotView,
    points: PointsView,
    panic: PanicView,
    after: PointsView,
) -> (line: (Seq<SnapshotView>, Seq<PointsView>))
    requires
        children_added(depth, fs, rest, snapshot, points, Err(panic), after),
    ensures
        line.0.len() < rest.len(),
        nodes_in_turn(depth, fs, rest.take(line.0.len() as int), line.0, line.1),
        line.1[0] == points,
        node_snapshots(
            depth,
            fs,
            rest[line.0.len() as int].name,
            rest[line.0.len() as int].node,
            line.1.last(),
            Err(panic),
            after,
        ),
    decreases rest.len(),
{
    let (own, mid) = child_way(depth, fs, rest, snapshot, points, Err(panic), after);
    match own {
        Err(_) => (Seq::<SnapshotView>::empty(), seq![points]),
        Ok(child) => {
            let tail = rest.drop_first();
            let next = snapshot.with_child(child);
            let later = lemma_nodes_failure(depth, fs, tail, next, mid, panic, after);
            let owns = seq![child] + later.0;
            let stages = seq![points] + later.1;
            let walked = rest.take(owns.len() as int);
            assert forall|k: int| 0 <= k < walked.len() implies node_snapshots(
                depth,
                fs,
                walked[k].name,
                walked[k].node,
                stages[k],
                Ok(#[trigger] owns[k]),
                stages[k + 1],
            ) by {
                if k > 0 {
                    assert(owns[k] == later.0[k - 1]);
                    assert(tail.take(later.0.len() as int)[k - 1] == walked[k]);
                    assert(stages[k + 1] == later.1[k]);
                }
            }
            assert(rest[owns.len() as int] == tail[later.0.len() as int]);
            (owns, stages)
        },
    }
}

/// A node that the manifest describes has one child for each child there: these are walked
/// in turn, and what they give is in their order. If one of them fails, so does the node.
pub proof fn law_described_children(
    depth: nat,
    fs: FsView,
    name: Seq<char>,
    node: NodeView,
    before: PointsView,
    result: NodeResult,
    after: PointsView,
) -> (line: (Seq<SnapshotView>, Seq<PointsView>))
    requires
        node is Instance,
        node_snapshots(depth, fs, name, node, before, result, after),
    ensures
        line.1[0] == before,
        match result {
            Ok(snapshot) => {
                &&& snapshot.name == name
                &&& snapshot.class_name == node->class_name
                &&& snapshot.properties == node->properties
                &&& snapshot.metadata == Some(node->metadata)
                &&& snapshot.source_path is None
                &&& snapshot.children == line.0
                &&& nodes_in_turn(depth, fs, node->Instance_children, line.0, line.1)
                &&& line.1.last() == after
            },
            Err(panic) => {
                let failing = line.0.len() as int;
                &&& failing < node->Instance_children.len()
                &&& nodes_in_turn(
                    depth,
                    fs,
                    node->Instance_children.take(failing),
                    line.0,
                    line.1,
                )
                &&& node_snapshots(
                    depth,
                    fs,
                    node->Instance_children[failing].name,
                    node->Instance_children[failing].node,
                    line.1.last(),
                    Err(panic),
                    after,
                )
            },
        },
{
    let children = node->Instance_children;
    let bare = bare_instance(name, node);
    match result {
        Ok(snapshot) => {
            let line = lemma_nodes_line(depth, fs, children, bare, before, snapshot, after);
            assert(bare.children + line.0 =~= line.0);
            line
        },
        Err(panic) => lemma_nodes_failure(depth, fs, children, bare, before, panic, after),
    }
}

/// A sync point gives what its path gives, under the name from the manifest, and is
/// remembered with its name and its children. A path that gives nothing, or fails, is not
/// survived, and nothing is remembered then.
pub proof fn law_sync_point_gives(
    depth: nat,
    fs: FsView,
    name: Seq<char>,
    path: WrittenPath,
    children: Seq<ChildView>,
    before: PointsView,
    result: NodeResult,
    after: PointsView,
) -> (way: (SnapResult, PointsView))
    requires
        depth > 0,
        node_snapshots(
            depth,
            fs,
            name,
            NodeView::SyncPoint { path, children },
            before,
            result,
            after,
        ),
    ensures
        path_snapshots((depth - 1) as nat, fs, path, before, way.0, way.1),
        match way.0 {
            Ok(Some(own)) => {
                &&& result is Ok
                &&& (result->Ok_0).name == name
                &&& same_but_name(result->Ok_0, own)
                &&& after.dom() == way.1.dom().insert(path.path)
                &&& after[path.path].instance_name == name
                &&& after[path.path].children == children
                &&& forall|place: PathView|
                    place != path.path && #[trigger] after.contains_key(place) ==> after[place]
                        == way.1[place]
            },
            Ok(None) => result == Err::<SnapshotView, PanicView>(PanicView::SyncPointEmpty) && after
                == way.1,
            Err(FailureView::Error(error)) => result == Err::<SnapshotView, PanicView>(
                PanicView::SyncPointError(error),
            ) && after == way.1,
            Err(FailureView::Panic(panic)) => result == Err::<SnapshotView, PanicView>(panic)
                && after == way.1,
        },
{
    let way = sync_point_way(depth, fs, name, path, children, before, result, after);
    if let Ok(Some(own)) = way.0 {
        assert(after.dom() =~= way.1.dom().insert(path.path));
    }
    way
}

/// A walk that is not to go further gives up, whatever there is.
pub proof fn law_no_depth(
    fs: FsView,
    path: WrittenPath,
    before: PointsView,
    result: SnapResult,
    after: PointsView,
)
    ensures
        path_snapshots(0, fs, path, before, result, after) <==> result == Err::<
            Option<SnapshotView>,
            FailureView,
        >(FailureView::Panic(PanicView::TooDeep)) && after == before,
{
}

/// So do a walk over a directory and one over a sync point. A node that the manifest
/// describes without sync points needs no depth.
pub proof fn law_nothing_without_depth(
    fs: FsView,
    directory: DirectoryView,
    name: Seq<char>,
    path: WrittenPath,
    children: Seq<ChildView>,
    before: PointsView,
    result: SnapResult,
    node_result: NodeResult,
    after: PointsView,
)
    ensures
        directory_snapshots(0, fs, directory, before, result, after) <==> result == Err::<
            Option<SnapshotView>,
            FailureView,
        >(FailureView::Panic(PanicView::TooDeep)) && after == before,
        node_snapshots(
            0,
            fs,
            name,
            NodeView::SyncPoint { path, children },
            before,
            node_result,
            after,
        ) <==> node_result == Err::<SnapshotView, PanicView>(PanicView::TooDeep) && after == before,
{
}

/// A path without an entry is an error, and changes nothing that is remembered.
pub proof fn law_absent_path(
    depth: nat,
    fs: FsView,
    path: WrittenPath,
    before: PointsView,
    result: SnapResult,
    after: PointsView,
)
    requires
        depth > 0,
        !fs.contains_key(path.path),
        path_snapshots(depth, fs, path, before, result, after),
    ensures
        result == Err::<Option<SnapshotView>, FailureView>(
            FailureView::Error(ErrorView::DidNotExist(path)),
        ),
        after == before,
{
}

/// A path with an entry gives what the entry gives. If that is an instance, and the manifest
/// has children for the path, these are walked in turn, and what they give comes behind the
/// children of the entry. If one of them fails, so does the path.
pub proof fn law_path_gives(
    depth: nat,
    fs: FsView,
    path: WrittenPath,
    before: PointsView,
    result: SnapResult,
    after: PointsView,
) -> (way: (SnapResult, PointsView, Seq<SnapshotView>, Seq<PointsView>))
    requires
        depth > 0,
        fs.contains_key(path.path),
        path_snapshots(depth, fs, path, before, result, after),
    ensures
        match fs[path.path] {
            ItemView::File(file) => file_snapshots(file, before, way.0) && way.1 == before,
            ItemView::Directory(directory) => directory_snapshots(
                depth,
                fs,
                directory,
                before,
                way.0,
                way.1,
            ),
        },
        match way.0 {
            Ok(Some(own)) => if way.1.contains_key(path.path) {
                let children = way.1[path.path].children;
                &&& way.3[0] == way.1
                &&& match result {
                    Ok(Some(snapshot)) => {
                        &&& same_with_more(own, way.2, snapshot)
                        &&& nodes_in_turn(depth, fs, children, way.2, way.3)
                        &&& way.3.last() == after
                    },
                    Err(FailureView::Panic(panic)) => {
                        let failing = way.2.len() as int;
                        &&& failing < children.len()
                        &&& nodes_in_turn(depth, fs, children.take(failing), way.2, way.3)
                        &&& node_snapshots(
                            depth,
                            fs,
                            children[failing].name,
                            children[failing].node,
                            way.3.last(),
                            Err(panic),
                            after,
                        )
                    },
                    _ => false,
                }
            } else {
                result == way.0 && after == way.1
            },
            _ => result == way.0 && after == way.1,
        },
{
    let (own, mid) = path_way(depth, fs, path, before, result, after);
    if let Ok(Some(snapshot)) = own {
        if mid.contains_key(path.path) {
            let children = mid[path.path].children;
            let whole = completion_way(depth, fs, path.path, mid, snapshot, result, after);
            let line = match whole {
                Ok(grown) => lemma_nodes_line(depth, fs, children, snapshot, mid, grown, after),
                Err(panic) => lemma_nodes_failure(
                    depth,
                    fs,
                    children,
                    snapshot,
                    mid,
                    panic,
                    after,
                ),
            };
            (own, mid, line.0, line.1)
        } else {
            (own, mid, Seq::empty(), Seq::empty())
        }
    } else {
        (own, mid, Seq::empty(), Seq::empty())
    }
}

/// A directory gives an instance or a failure. The instance has the name that is remembered
/// of the directory after the walk, or else that of the directory.
pub proof fn law_directory_name(
    depth: nat,
    fs: FsView,
    directory: DirectoryView,
    before: PointsView,
    result: SnapResult,
    after: PointsView,
)
    requires
        directory_snapshots(depth, fs, directory, before, result, after),
    ensures
        match result {
            Ok(Some(snapshot)) => {
                let place = directory.path.path;
                if after.contains_key(place) {
                    snapshot.name == after[place].instance_name
                } else {
                    place.len() > 0 && place[place.len() - 1] == PathPart::Normal(snapshot.name)
                }
            },
            Ok(None) => false,
            Err(_) => true,
        },
{
    if depth > 0 {
        assert(item_snapshots(
            depth,
            fs,
            ItemView::Directory(directory),
            before,
            result,
            after,
        ));
        if init_path(directory) is Some {
            let (own, mid) = init_way(depth, fs, directory, before, result, after);
            if let Ok(Some(script)) = own {
                lemma_entries_named(
                    depth,
                    fs,
                    directory,
                    directory.children,
                    script,
                    mid,
                    result,
                    after,
                );
            }
        } else {
            lemma_entries_named(
                depth,
                fs,
                directory,
                directory.children,
                folder(directory.path.path),
                before,
                result,
                after,
            );
        }
    }
}

proof fn lemma_entries_named(
    depth: nat,
    fs: FsView,
    directory: DirectoryView,
    rest: Seq<WrittenPath>,
    snapshot: SnapshotView,
    points: PointsView,
    result: SnapResult,
    after: PointsView,
)
    requires
        entries_added(depth, fs, directory, rest, snapshot, points, result, after),
    ensures
        match result {
            Ok(Some(grown)) => {
                let place = directory.path.path;
                if after.contains_key(place) {
                    grown.name == after[place].instance_name
                } else {
                    place.len() > 0 && place[place.len() - 1] == PathPart::Normal(grown.name)
                }
            },
            Ok(None) => false,
            Err(_) => true,
        },
    decreases rest.len(),
{
    if rest.len() > 0 && name_text(rest[0].path) is Some {
        let tail = rest.drop_first();
        if is_init_name(name_text(rest[0].path)->0) {
            lemma_entries_named(depth, fs, directory, tail, snapshot, points, result, after);
        } else if depth > 0 {
            let (own, mid) = entry_way(
                depth,
                fs,
                directory,
                rest,
                snapshot,
                points,
                result,
                after,
            );
            if own is Ok {
                let grown = match own {
                    Ok(Some(child)) => snapshot.with_child(child),
                    _ => snapshot,
                };
                lemma_entries_named(depth, fs, directory, tail, grown, mid, result, after);
            }
        }
    }
}

/// Whether the walk over plain entries of a directory, from `points` on, fails: each of the
/// first ones gives an instance or nothing, and the next fails or has no readable name. If
/// there is no next one, the directory itself has no readable name.
pub open spec fn entries_fail(
    depth: nat,
    fs: FsView,
    directory: DirectoryView,
    points: PointsView,
    owns: Seq<Option<SnapshotView>>,
    stages: Seq<PointsView>,
    failure: FailureView,
    after: PointsView,
) -> bool {
    let plain = plain_paths(directory.children);
    let walked = owns.len() as int;
    let now = stages.last();
    &&& walked <= plain.len()
    &&& walked_in_turn((depth - 1) as nat, fs, plain.take(walked), owns, stages)
    &&& stages[0] == points
    &&& if walked == plain.len() {
        &&& !now.contains_key(directory.path.path)
        &&& name_text(directory.path.path) is None
        &&& failure == FailureView::Panic(PanicView::UnreadableName)
        &&& after == now
    } else if name_text(plain[walked].path) is None {
        failure == FailureView::Panic(PanicView::UnreadableName) && after == now
    } else {
        path_snapshots((depth - 1) as nat, fs, plain[walked], now, Err(failure), after)
    }
}

/// If a directory fails, then its init script has failed or given nothing, or an entry has
/// failed behind others that have not, or a name cannot be read.
pub proof fn law_directory_fails(
    depth: nat,
    fs: FsView,
    directory: DirectoryView,
    before: PointsView,
    failure: FailureView,
    after: PointsView,
) -> (way: (SnapResult, PointsView, Seq<Option<SnapshotView>>, Seq<PointsView>))
    requires
        depth > 0,
        directory_snapshots(depth, fs, directory, before, Err(failure), after),
    ensures
        match init_path(directory) {
            None => entries_fail(depth, fs, directory, before, way.2, way.3, failure, after),
            Some(init) => {
                &&& path_snapshots((depth - 1) as nat, fs, init, before, way.0, way.1)
                &&& match way.0 {
                    Ok(Some(_)) => entries_fail(
                        depth,
                        fs,
                        directory,
                        way.1,
                        way.2,
                        way.3,
                        failure,
                        after,
                    ),
                    Ok(None) => failure == FailureView::Panic(PanicView::InitEmpty) && after
                        == way.1,
                    Err(own) => failure == own && after == way.1,
                }
            },
        },
{
    assert(item_snapshots(
        depth,
        fs,
        ItemView::Directory(directory),
        before,
        Err(failure),
        after,
    ));
    let all = directory.children;
    if init_path(directory) is Some {
        let (own, mid) = init_way(depth, fs, directory, before, Err(failure), after);
        if let Ok(Some(script)) = own {
            let line = lemma_entries_fail(
                depth,
                fs,
                directory,
                all,
                script,
                mid,
                failure,
                after,
            );
            (own, mid, line.0, line.1)
        } else {
            (own, mid, Seq::empty(), Seq::empty())
        }
    } else {
        let line = lemma_entries_fail(
            depth,
            fs,
            directory,
            all,
            folder(directory.path.path),
            before,
            failure,
            after,
        );
        (Ok(None), before, line.0, line.1)
    }
}

proof fn lemma_entries_fail(
    depth: nat,
    fs: FsView,
    directory: DirectoryView,
    rest: Seq<WrittenPath>,
    snapshot: SnapshotView,
    points: PointsView,
    failure: FailureView,
    after: PointsView,
) -> (line: (Seq<Option<SnapshotView>>, Seq<PointsView>))
    requires
        depth > 0,
        entries_added(depth, fs, directory, rest, snapshot, points, Err(failure), after),
    ensures
        entries_fail(
            depth,
            fs,
            (DirectoryView { path: directory.path, children: rest }),
            points,
            line.0,
            line.1,
            failure,
            after,
        ),
    decreases rest.len(),
{
    let none = (Seq::<Option<SnapshotView>>::empty(), seq![points]);
    if rest.len() == 0 {
        assert(plain_paths(rest).take(0) =~= Seq::empty());
        none
    } else if name_text(rest[0].path) is None {
        assert(plain_paths(rest)[0] == rest[0]);
        assert(plain_paths(rest).take(0) =~= Seq::empty());
        none
    } else {
        let tail = rest.drop_first();
        if is_init_name(name_text(rest[0].path)->0) {
            lemma_entries_fail(depth, fs, directory, tail, snapshot, points, failure, after)
        } else {
            let plain = plain_paths(rest);
            let fewer = plain_paths(tail);
            assert(plain[0] == rest[0]);
            let (own, mid) = entry_way(
                depth,
                fs,
                directory,
                rest,
                snapshot,
                points,
                Err(failure),
                after,
            );
            match own {
                Err(_) => {
                    assert(plain.take(0) =~= Seq::empty());
                    none
                },
                Ok(first) => {
                    let next = match first {
                        Some(child) => snapshot.with_child(child),
                        None => snapshot,
                    };
                    let later = lemma_entries_fail(
                        depth,
                        fs,
                        directory,
                        tail,
                        next,
                        mid,
                        failure,
                        after,
                    );
                    let owns = seq![first] + later.0;
                    let stages = seq![points] + later.1;
                    let walked = plain.take(owns.len() as int);
                    assert forall|k: int| 0 <= k < walked.len() implies path_snapshots(
                        (depth - 1) as nat,
                        fs,
                        walked[k],
                        stages[k],
                        Ok(#[trigger] owns[k]),
                        stages[k + 1],
                    ) by {
                        if k > 0 {
                            assert(owns[k] == later.0[k - 1]);
                            assert(fewer.take(later.0.len() as int)[k - 1] == walked[k]);
                            assert(stages[k + 1] == later.1[k]);
                        }
                    }
                    assert(later.0.len() < fewer.len() ==> plain[owns.len() as int]
                        == fewer[later.0.len() as int]);
                    (owns, stages)
                },
            }
        }
    }
}

/// The plain entries of a directory are those whose names are not `init.lua`,
/// `init.server.lua` or `init.client.lua`, all of them and in their order.
pub proof fn law_plain_entries(paths: Seq<WrittenPath>, path: WrittenPath)
    ensures
        plain_paths(Seq::empty()) == Seq::<WrittenPath>::empty(),
        plain_paths(paths.push(path)) == if path.path.len() > 0 && (path.path[path.path.len() - 1]
            == PathPart::Normal("init.lua"@) || path.path[path.path.len() - 1] == PathPart::Normal(
            "init.server.lua"@,
        ) || path.path[path.path.len() - 1] == PathPart::Normal("init.client.lua"@)) {
            plain_paths(paths)
        } else {
            plain_paths(paths).push(path)
        },
    decreases paths.len(),
{
    let longer = paths.push(path);
    if paths.len() == 0 {
        assert(longer.drop_first() =~= Seq::empty());
        assert(plain_paths(longer.drop_first()) =~= Seq::empty());
        assert(longer[0] == path);
        if plain_paths(longer).len() > 0 {
            assert(plain_paths(longer) =~= plain_paths(paths).push(path));
        } else {
            assert(plain_paths(longer) =~= plain_paths(paths));
        }
    } else {
        let tail = paths.drop_first();
        law_plain_entries(tail, path);
        assert(longer.drop_first() =~= tail.push(path));
        assert(longer[0] == paths[0]);
        assert(seq![paths[0]] + plain_paths(tail).push(path) =~= (seq![paths[0]] + plain_paths(
            tail,
        )).push(path));
    }
}

/// Whether a path ends in the name of an init script.
pub open spec fn ends_in_init(path: PathView) -> bool {
    path.len() > 0 && {
        ||| path[path.len() - 1] == PathPart::Normal("init.lua"@)
        ||| path[path.len() - 1] == PathPart::Normal("init.server.lua"@)
        ||| path[path.len() - 1] == PathPart::Normal("init.client.lua"@)
    }
}

proof fn lemma_plain_at(paths: Seq<WrittenPath>, i: int) -> (k: int)
    requires
        0 <= i < paths.len(),
        !ends_in_init(paths[i].path),
    ensures
        0 <= k < plain_paths(paths).len(),
        plain_paths(paths)[k] == paths[i],
    decreases paths.len(),
{
    if i == 0 {
        0
    } else {
        let tail = paths.drop_first();
        let k = lemma_plain_at(tail, i - 1);
        if name_text(paths[0].path) matches Some(name) && is_init_name(name) {
            k
        } else {
            k + 1
        }
    }
}

proof fn lemma_given_at(owns: Seq<Option<SnapshotView>>, k: int)
    requires
        0 <= k < owns.len(),
        owns[k] is Some,
    ensures
        given(owns).contains(owns[k]->0),
    decreases owns.len(),
{
    let tail = owns.drop_first();
    if k == 0 {
        assert(given(owns)[0] == owns[0]->0);
    } else {
        lemma_given_at(tail, k - 1);
        let l = choose|l: int| 0 <= l < given(tail).len() && given(tail)[l] == owns[k]->0;
        if owns[0] is Some {
            assert(given(owns)[l + 1] == owns[k]->0);
        } else {
            assert(given(owns)[l] == owns[k]->0);
        }
    }
}

/// Every entry of a directory but `init.lua`, `init.server.lua` and `init.client.lua` is
/// walked, and what it gives is a child of the directory.
pub proof fn law_entries_are_children(
    depth: nat,
    fs: FsView,
    directory: DirectoryView,
    before: PointsView,
    snapshot: SnapshotView,
    after: PointsView,
    i: int,
) -> (way: (PointsView, Option<SnapshotView>, PointsView))
    requires
        directory_snapshots(depth, fs, directory, before, Ok(Some(snapshot)), after),
        0 <= i < directory.children.len(),
        !ends_in_init(directory.children[i].path),
    ensures
        depth > 0,
        path_snapshots(
            (depth - 1) as nat,
            fs,
            directory.children[i],
            way.0,
            Ok(way.1),
            way.2,
        ),
        way.1 is Some ==> snapshot.children.contains(way.1->0),
{
    let k = lemma_plain_at(directory.children, i);
    if init_path(directory) is Some {
        let (script, owns, stages) = law_init_decides(
            depth,
            fs,
            directory,
            before,
            snapshot,
            after,
        );
        assert(owns[k] == owns[k]);
        if owns[k] is Some {
            lemma_given_at(owns, k);
            let l = choose|l: int| 0 <= l < given(owns).len() && given(owns)[l] == owns[k]->0;
            assert(snapshot.children[script.children.len() + l] == owns[k]->0);
        }
        (stages[k], owns[k], stages[k + 1])
    } else {
        let (owns, stages) = law_folder(depth, fs, directory, before, snapshot, after);
        assert(owns[k] == owns[k]);
        if owns[k] is Some {
            lemma_given_at(owns, k);
        }
        (stages[k], owns[k], stages[k + 1])
    }
}

/// A directory has no other children than those of its init script and what its entries
/// give.
pub proof fn law_children_are_entries(
    depth: nat,
    fs: FsView,
    directory: DirectoryView,
    before: PointsView,
    snapshot: SnapshotView,
    after: PointsView,
) -> (way: (Seq<SnapshotView>, Seq<Option<SnapshotView>>, Seq<PointsView>))
    requires
        directory_snapshots(depth, fs, directory, before, Ok(Some(snapshot)), after),
    ensures
        depth > 0,
        way.1.len() == plain_paths(directory.children).len(),
        walked_in_turn(
            (depth - 1) as nat,
            fs,
            plain_paths(directory.children),
            way.1,
            way.2,
        ),
        snapshot.children == way.0 + given(way.1),
        init_path(directory) is None ==> way.0.len() == 0,
{
    if init_path(directory) is Some {
        let (script, owns, stages) = law_init_decides(
            depth,
            fs,
            directory,
            before,
            snapshot,
            after,
        );
        (script.children, owns, stages)
    } else {
        let (owns, stages) = law_folder(depth, fs, directory, before, snapshot, after);
        let none = Seq::<SnapshotView>::empty();
        assert(none + given(owns) =~= given(owns));
        (none, owns, stages)
    }
}

/// Where no sync points are found among what is remembered, every client script in a
/// directory but `init.client.lua` is a `LocalScript` there, under its name and with its
/// text.
pub proof fn law_client_scripts_are_children(
    depth: nat,
    fs: FsView,
    directory: DirectoryView,
    before: PointsView,
    snapshot: SnapshotView,
    after: PointsView,
    i: int,
    stem: Seq<char>,
    file: FileView,
) -> (child: SnapshotView)
    requires
        directory_snapshots(depth, fs, directory, before, Ok(Some(snapshot)), after),
        points_sync_free(before),
        0 <= i < directory.children.len(),
        directory.children[i].path.len() > 0,
        directory.children[i].path[directory.children[i].path.len() - 1] == PathPart::Normal(
            stem + ".client.lua"@,
        ),
        stem != "init"@,
        !before.contains_key(directory.children[i].path),
        fs.contains_key(directory.children[i].path),
        fs[directory.children[i].path] == ItemView::File(file),
        file.path.path == directory.children[i].path,
    ensures
        snapshot.children.contains(child),
        child.name == stem,
        child.class_name == "LocalScript"@,
        child.properties.dom() == set!["Source"@],
        child.properties["Source"@] == text_value(decode_utf8(file.contents)),
{
    let path = directory.children[i];
    let name = stem + ".client.lua"@;
    law_other_scripts(stem);
    law_init_names(name);
    let (own, later) = lemma_entry_from(depth, fs, directory, before, snapshot, after, i);
    let way = law_path_gives((depth - 1) as nat, fs, path, before, Ok(own), later);
    law_text_files(file, stem, before, way.0);
    own->0
}

/// Where no sync points are found among what is remembered, each entry is walked with the
/// same remembered.
proof fn lemma_entry_from(
    depth: nat,
    fs: FsView,
    directory: DirectoryView,
    before: PointsView,
    snapshot: SnapshotView,
    after: PointsView,
    i: int,
) -> (way: (Option<SnapshotView>, PointsView))
    requires
        directory_snapshots(depth, fs, directory, before, Ok(Some(snapshot)), after),
        points_sync_free(before),
        0 <= i < directory.children.len(),
        !ends_in_init(directory.children[i].path),
    ensures
        depth > 0,
        path_snapshots(
            (depth - 1) as nat,
            fs,
            directory.children[i],
            before,
            Ok(way.0),
            way.1,
        ),
        way.0 is Some ==> snapshot.children.contains(way.0->0),
{
    let plain = plain_paths(directory.children);
    let k = lemma_plain_at(directory.children, i);
    let (owns, stages, first) = if init_path(directory) is Some {
        let (script, owns, stages) = law_init_decides(
            depth,
            fs,
            directory,
            before,
            snapshot,
            after,
        );
        law_points_unchanged(
            (depth - 1) as nat,
            fs,
            init_path(directory)->0,
            before,
            Ok(Some(script)),
            stages[0],
        );
        (owns, stages, script.children)
    } else {
        let (owns, stages) = law_folder(depth, fs, directory, before, snapshot, after);
        assert(Seq::<SnapshotView>::empty() + given(owns) =~= given(owns));
        (owns, stages, Seq::<SnapshotView>::empty())
    };
    lemma_same_stages((depth - 1) as nat, fs, plain, owns, stages, k);
    assert(owns[k] == owns[k]);
    if owns[k] is Some {
        lemma_given_at(owns, k);
        let l = choose|l: int| 0 <= l < given(owns).len() && given(owns)[l] == owns[k]->0;
        assert(snapshot.children[first.len() + l] == owns[k]->0);
    }
    (owns[k], stages[k + 1])
}

proof fn lemma_same_stages(
    depth: nat,
    fs: FsView,
    paths: Seq<WrittenPath>,
    owns: Seq<Option<SnapshotView>>,
    stages: Seq<PointsView>,
    k: int,
)
    requires
        walked_in_turn(depth, fs, paths, owns, stages),
        points_sync_free(stages[0]),
        0 <= k <= paths.len(),
    ensures
        stages[k] == stages[0],
    decreases k,
{
    if k > 0 {
        lemma_same_stages(depth, fs, paths, owns, stages, k - 1);
        assert(owns[k - 1] == owns[k - 1]);
        law_points_unchanged(depth, fs, paths[k - 1], stages[k - 1], Ok(owns[k - 1]), stages[k]);
    }
}

} // verus!
