//! Looking ahead whether a walk meets a binary model that may not decode in good order.
use crate::file_type::{classify_file, FileType};
use crate::imfs::{DirectoryView, FileView, FsView, Imfs, ImfsDirectory, ImfsFile, ImfsItem};
use crate::laws::order::{law_items_agree, law_nodes_agree, law_walks_agree};
use crate::met::{
    children_meet_only, decodable, directory_meets_only, entries_meet_only, gives_instance,
    is_framed_model, item_meets_only, law_meets_better, law_meets_better_directory,
    law_meets_better_node, node_meets_only, path_meets_only, unframed,
};
use crate::model::{has_binary_header, result_view};
use crate::path::{name_text, FilePath, WrittenPath};
use crate::project::{children_view, ChildView, ProjectChild, ProjectNode};
use crate::snapshots::{
    construct_project_node, deciding_file, is_init, node_result_view,
    snapshot_instances_from_directory, snapshot_instances_from_file, snapshot_instances_from_imfs,
};
use crate::sync_point::{copy_points, points_view, PointsView, SyncPoints};
use crate::walk::{
    init_path, is_init_name, item_snapshots, node_snapshots, path_snapshots, NodeResult,
    SnapResult,
};
use vstd::prelude::*;

verus! {

/// Whether contents begin with the header of a binary model.
fn begins_as_model(contents: &Vec<u8>) -> (r: bool)
    ensures
        r == has_binary_header(contents@),
{
    let header: [u8; 16] = [
        60,
        114,
        111,
        98,
        108,
        111,
        120,
        33,
        137,
        255,
        13,
        10,
        26,
        10,
        0,
        0,
    ];
    if contents.len() < 16 {
        return false;
    }
    let ghost wanted = seq![60u8, 114, 111, 98, 108, 111, 120, 33, 137, 255, 13, 10, 26, 10, 0, 0];
    assert(header@ =~= wanted);
    let mut i: usize = 0;
    while i < 16
        invariant
            i <= 16,
            contents.len() >= 16,
            header@ == wanted,
            wanted.len() == 16,
            wanted == seq![60u8, 114, 111, 98, 108, 111, 120, 33, 137, 255, 13, 10, 26, 10, 0, 0],
            forall|j: int| 0 <= j < i ==> contents@[j] == #[trigger] wanted[j],
        decreases 16 - i,
    {
        if contents[i] != header[i] {
            assert(contents@.take(16)[i as int] != wanted[i as int]);
            return false;
        }
        assert(header@[i as int] == wanted[i as int]);
        i += 1;
    }
    assert(contents@.take(16) =~= wanted);
    true
}

/// Whether a file is named as a binary model and begins like one.
pub fn is_framed(file: &ImfsFile) -> (framed: bool)
    ensures
        framed == is_framed_model(file@),
{
    match classify_file(file) {
        Some((_, FileType::BinaryModel)) => begins_as_model(&file.contents),
        _ => false,
    }
}

/// Where a walk goes on past what a path has of its own, its manifest children decide
/// whether it meets good files only.
pub proof fn law_path_goes_on(
    good: spec_fn(FileView) -> bool,
    depth: nat,
    fs: FsView,
    path: WrittenPath,
    before: PointsView,
    own: SnapResult,
    mid: PointsView,
)
    requires
        depth > 0,
        fs.contains_key(path.path),
        item_meets_only(good, depth, fs, fs[path.path], before),
        item_snapshots(depth, fs, fs[path.path], before, own, mid),
    ensures
        path_meets_only(good, depth, fs, path, before) <==> (gives_instance(own)
            && mid.contains_key(path.path) ==> children_meet_only(
            good,
            depth,
            fs,
            mid[path.path].children,
            mid,
        )),
{
    assert forall|other: SnapResult, after: PointsView|
        #[trigger] item_snapshots(depth, fs, fs[path.path], before, other, after) implies after == mid
        && (gives_instance(other) <==> gives_instance(own)) by {
        law_items_agree(depth, fs, fs[path.path], before, own, mid, other, after);
    }
}

/// Where a walk goes on past an init script, the entries decide.
pub proof fn law_init_goes_on(
    good: spec_fn(FileView) -> bool,
    depth: nat,
    fs: FsView,
    directory: DirectoryView,
    before: PointsView,
    init: WrittenPath,
    own: SnapResult,
    mid: PointsView,
)
    requires
        depth > 0,
        init_path(directory) == Some(init),
        path_meets_only(good, (depth - 1) as nat, fs, init, before),
        path_snapshots((depth - 1) as nat, fs, init, before, own, mid),
    ensures
        directory_meets_only(good, depth, fs, directory, before) <==> (gives_instance(own)
            ==> entries_meet_only(good, depth, fs, directory.children, mid)),
{
    assert forall|other: SnapResult, after: PointsView|
        #[trigger] path_snapshots((depth - 1) as nat, fs, init, before, other, after) implies after
        == mid && (gives_instance(other) <==> gives_instance(own)) by {
        law_walks_agree((depth - 1) as nat, fs, init, before, own, mid, other, after);
    }
}

/// Where a walk goes on past an entry, the others decide.
pub proof fn law_entries_go_on(
    good: spec_fn(FileView) -> bool,
    depth: nat,
    fs: FsView,
    rest: Seq<WrittenPath>,
    points: PointsView,
    own: SnapResult,
    mid: PointsView,
)
    requires
        depth > 0,
        rest.len() > 0,
        name_text(rest[0].path) is Some,
        !is_init_name(name_text(rest[0].path)->0),
        path_meets_only(good, (depth - 1) as nat, fs, rest[0], points),
        path_snapshots((depth - 1) as nat, fs, rest[0], points, own, mid),
    ensures
        entries_meet_only(good, depth, fs, rest, points) <==> (own is Ok ==> entries_meet_only(
            good,
            depth,
            fs,
            rest.drop_first(),
            mid,
        )),
{
    assert forall|other: SnapResult, after: PointsView|
        #[trigger] path_snapshots((depth - 1) as nat, fs, rest[0], points, other, after) implies after
        == mid && (other is Ok <==> own is Ok) by {
        law_walks_agree((depth - 1) as nat, fs, rest[0], points, own, mid, other, after);
    }
}

/// Where a walk goes on past a manifest node, the others decide.
pub proof fn law_nodes_go_on(
    good: spec_fn(FileView) -> bool,
    depth: nat,
    fs: FsView,
    rest: Seq<ChildView>,
    points: PointsView,
    own: NodeResult,
    mid: PointsView,
)
    requires
        rest.len() > 0,
        node_meets_only(good, depth, fs, rest[0].node, points),
        node_snapshots(depth, fs, rest[0].name, rest[0].node, points, own, mid),
    ensures
        children_meet_only(good, depth, fs, rest, points) <==> (own is Ok ==> children_meet_only(
            good,
            depth,
            fs,
            rest.drop_first(),
            mid,
        )),
{
    let name = rest[0].name;
    let node = rest[0].node;
    assert forall|other: NodeResult, after: PointsView|
        #[trigger] node_snapshots(depth, fs, name, node, points, other, after) implies after == mid
        && (other is Ok <==> own is Ok) by {
        law_nodes_agree(depth, fs, name, node, points, own, mid, other, after);
    }
}

/// Whether a walk over `path` meets no framed model.
pub fn path_is_clear(
    imfs: &Imfs,
    path: &FilePath,
    sync_point_metadata: &SyncPoints,
    depth: usize,
) -> (clear: bool)
    ensures
        clear == path_meets_only(
            unframed(),
            depth as nat,
            imfs@,
            path.written(),
            points_view(*sync_point_metadata),
        ),
    decreases depth, 4nat, 0nat, path,
{
    if depth == 0 {
        return true;
    }
    let item = match imfs.get(path) {
        Some(item) => item,
        None => return true,
    };
    let ghost before = points_view(*sync_point_metadata);
    let mut points = copy_points(sync_point_metadata);
    let own = match item {
        ImfsItem::File(file) => {
            if is_framed(file) {
                return false;
            }
            snapshot_instances_from_file(file, &points)
        },
        ImfsItem::Directory(directory) => {
            if !directory_is_clear(imfs, directory, sync_point_metadata, depth) {
                return false;
            }
            proof {
                law_meets_better_directory(
                    unframed(),
                    decodable(),
                    depth as nat,
                    imfs@,
                    directory@,
                    before,
                );
            }
            snapshot_instances_from_directory(imfs, directory, &mut points, depth)
        },
    };
    proof {
        law_path_goes_on(
            unframed(),
            depth as nat,
            imfs@,
            path.written(),
            before,
            result_view(own),
            points_view(points),
        );
    }
    match own {
        Ok(Some(_)) => match points.get(path) {
            Some(metadata) => children_are_clear(imfs, &metadata.children, &points, depth),
            None => true,
        },
        _ => true,
    }
}

/// Whether a walk over a directory meets no framed model.
pub fn directory_is_clear(
    imfs: &Imfs,
    directory: &ImfsDirectory,
    sync_point_metadata: &SyncPoints,
    depth: usize,
) -> (clear: bool)
    ensures
        clear == directory_meets_only(
            unframed(),
            depth as nat,
            imfs@,
            directory@,
            points_view(*sync_point_metadata),
        ),
    decreases depth, 3nat, 0nat, directory,
{
    if depth == 0 {
        return true;
    }
    let ghost before = points_view(*sync_point_metadata);
    let mut points = copy_points(sync_point_metadata);
    if let Some(init) = deciding_file(directory) {
        if !path_is_clear(imfs, &init, sync_point_metadata, depth - 1) {
            return false;
        }
        proof {
            law_meets_better(
                unframed(),
                decodable(),
                (depth - 1) as nat,
                imfs@,
                init.written(),
                before,
            );
        }
        let own = snapshot_instances_from_imfs(imfs, &init, &mut points, depth - 1);
        proof {
            law_init_goes_on(
                unframed(),
                depth as nat,
                imfs@,
                directory@,
                before,
                init.written(),
                result_view(own),
                points_view(points),
            );
        }
        match own {
            Ok(Some(_)) => {},
            _ => return true,
        }
    }
    let ghost all = directory@.children;
    assert(all.skip(0) =~= all);
    let mut i: usize = 0;
    while i < directory.children.len()
        invariant
            depth > 0,
            i <= directory.children.len(),
            all == directory@.children,
            all.len() == directory.children.len(),
            before == points_view(*sync_point_metadata),
            directory_meets_only(unframed(), depth as nat, imfs@, directory@, before)
                <==> entries_meet_only(
                unframed(),
                depth as nat,
                imfs@,
                all.skip(i as int),
                points_view(points),
            ),
        decreases directory.children.len() - i,
    {
        let child_path = &directory.children[i];
        let ghost rest = all.skip(i as int);
        assert(rest[0] == child_path.written());
        assert(rest.drop_first() =~= all.skip(i + 1));
        let name = match child_path.name_text() {
            Some(name) => name,
            None => return true,
        };
        if !is_init(name) {
            if !path_is_clear(imfs, child_path, &points, depth - 1) {
                return false;
            }
            let ghost held = points_view(points);
            proof {
                law_meets_better(
                    unframed(),
                    decodable(),
                    (depth - 1) as nat,
                    imfs@,
                    child_path.written(),
                    held,
                );
            }
            let own = snapshot_instances_from_imfs(imfs, child_path, &mut points, depth - 1);
            proof {
                law_entries_go_on(
                    unframed(),
                    depth as nat,
                    imfs@,
                    rest,
                    held,
                    result_view(own),
                    points_view(points),
                );
            }
            if own.is_err() {
                return true;
            }
        }
        i += 1;
    }
    assert(all.skip(i as int).len() == 0);
    true
}

/// Whether a walk over a manifest node meets no framed model.
pub fn node_is_clear(
    imfs: &Imfs,
    project_node: &ProjectNode,
    sync_point_metadata: &SyncPoints,
    depth: usize,
) -> (clear: bool)
    ensures
        clear == node_meets_only(
            unframed(),
            depth as nat,
            imfs@,
            project_node@,
            points_view(*sync_point_metadata),
        ),
    decreases depth, 0nat, 0nat, project_node,
{
    match project_node {
        ProjectNode::Instance(node) => children_are_clear(
            imfs,
            &node.children,
            sync_point_metadata,
            depth,
        ),
        ProjectNode::SyncPoint(node) => depth == 0 || path_is_clear(
            imfs,
            &node.path,
            sync_point_metadata,
            depth - 1,
        ),
    }
}

/// Whether a walk over manifest nodes meets no framed model.
fn children_are_clear(
    imfs: &Imfs,
    children: &Vec<ProjectChild>,
    sync_point_metadata: &SyncPoints,
    depth: usize,
) -> (clear: bool)
    ensures
        clear == children_meet_only(
            unframed(),
            depth as nat,
            imfs@,
            children_view(children@),
            points_view(*sync_point_metadata),
        ),
    decreases depth, 0nat, 0nat, children,
{
    let ghost all = children_view(children@);
    let mut points = copy_points(sync_point_metadata);
    assert(all.skip(0) =~= all);
    let mut i: usize = 0;
    while i < children.len()
        invariant
            i <= children.len(),
            all == children_view(children@),
            all.len() == children.len(),
            children_meet_only(
                unframed(),
                depth as nat,
                imfs@,
                all,
                points_view(*sync_point_metadata),
            ) <==> children_meet_only(
                unframed(),
                depth as nat,
                imfs@,
                all.skip(i as int),
                points_view(points),
            ),
        decreases children.len() - i,
    {
        let child = &children[i];
        let ghost rest = all.skip(i as int);
        assert(rest[0] == all[i as int]);
        assert(rest[0].node == child.node@);
        assert(rest.drop_first() =~= all.skip(i + 1));
        assert(decreases_to!(children => children@[i as int]));
        if !node_is_clear(imfs, &child.node, &points, depth) {
            return false;
        }
        let ghost held = points_view(points);
        proof {
            law_meets_better_node(
                unframed(),
                decodable(),
                depth as nat,
                imfs@,
                child.node@,
                held,
            );
        }
        let own = construct_project_node(imfs, &child.name, &child.node, &mut points, depth);
        proof {
            law_nodes_go_on(
                unframed(),
                depth as nat,
                imfs@,
                rest,
                held,
                node_result_view(own),
                points_view(points),
            );
        }
        if own.is_err() {
            return true;
        }
        i += 1;
    }
    assert(all.skip(i as int).len() == 0);
    true
}

} // verus!
