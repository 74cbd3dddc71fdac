//! Which files a walk meets.
//!
//! A walk stops at the first failure, and goes into the manifest children of a path only if
//! there is an instance at that path. The predicates here follow it, whichever way it takes.
use crate::file_type::{classify, FileType};
use crate::imfs::{DirectoryView, FileView, FsView, ItemView};
use crate::model::{binary_decodes, has_binary_header};
use crate::path::{name_text, PathView, WrittenPath};
use crate::project::{ChildView, NodeView};
use crate::sync_point::PointsView;
use crate::walk::{
    init_path, is_init_name, item_snapshots, node_snapshots, path_snapshots, NodeResult,
    SnapResult,
};
use vstd::prelude::*;

verus! {

/// Whether a file, if it is a binary model, can be decoded without a panic.
pub open spec fn model_decodes(file: FileView) -> bool {
    classify(file.path.path) matches Some((_, FileType::BinaryModel)) ==> binary_decodes(file.contents)
}

/// Which files can be read without a panic of a decoder.
pub open spec fn decodable() -> spec_fn(FileView) -> bool {
    |file: FileView| model_decodes(file)
}

/// Whether a file is named as a binary model and begins like one.
pub open spec fn is_framed_model(file: FileView) -> bool {
    &&& classify(file.path.path) matches Some((_, FileType::BinaryModel))
    &&& has_binary_header(file.contents)
}

/// Which files are not binary models that begin like one.
pub open spec fn unframed() -> spec_fn(FileView) -> bool {
    |file: FileView| !is_framed_model(file)
}

/// Whether all the files that a walk over `path` meets are good.
pub open spec fn path_meets_only(
    good: spec_fn(FileView) -> bool,
    depth: nat,
    fs: FsView,
    path: WrittenPath,
    before: PointsView,
) -> bool
    decreases depth, 4nat, 0nat, path,
{
    depth > 0 && fs.contains_key(path.path) ==> {
        &&& item_meets_only(good, depth, fs, fs[path.path], before)
        &&& forall|own: SnapResult, mid: PointsView|
            #[trigger] item_snapshots(depth, fs, fs[path.path], before, own, mid) && gives_instance(own)
                && mid.contains_key(path.path) ==> children_meet_only(
                good,
                depth,
                fs,
                mid[path.path].children,
                mid,
            )
    }
}

/// Whether there is an instance in the result of a walk.
pub open spec fn gives_instance(result: SnapResult) -> bool {
    result matches Ok(Some(_))
}

/// Whether all the files that a walk over an entry of the file system meets, before it comes
/// to the children that the manifest adds, are good.
pub open spec fn item_meets_only(
    good: spec_fn(FileView) -> bool,
    depth: nat,
    fs: FsView,
    item: ItemView,
    before: PointsView,
) -> bool
    decreases depth, 3nat, 1nat, item,
{
    match item {
        ItemView::File(file) => good(file),
        ItemView::Directory(directory) => directory_meets_only(good, depth, fs, directory, before),
    }
}

/// Whether all the files that a walk over a directory meets are good.
pub open spec fn directory_meets_only(
    good: spec_fn(FileView) -> bool,
    depth: nat,
    fs: FsView,
    directory: DirectoryView,
    before: PointsView,
) -> bool
    decreases depth, 3nat, 0nat, directory,
{
    depth > 0 ==> match init_path(directory) {
        None => entries_meet_only(good, depth, fs, directory.children, before),
        Some(init) => {
            &&& path_meets_only(good, (depth - 1) as nat, fs, init, before)
            &&& forall|own: SnapResult, mid: PointsView|
                #[trigger] path_snapshots((depth - 1) as nat, fs, init, before, own, mid)
                    && gives_instance(own) ==> entries_meet_only(
                    good,
                    depth,
                    fs,
                    directory.children,
                    mid,
                )
        },
    }
}

/// Whether all the files that a walk over entries of a directory meets are good.
pub open spec fn entries_meet_only(
    good: spec_fn(FileView) -> bool,
    depth: nat,
    fs: FsView,
    rest: Seq<WrittenPath>,
    points: PointsView,
) -> bool
    decreases depth, 2nat, rest.len(), rest,
{
    rest.len() > 0 ==> match name_text(rest[0].path) {
        None => true,
        Some(name) => if is_init_name(name) {
            entries_meet_only(good, depth, fs, rest.drop_first(), points)
        } else {
            depth > 0 ==> {
                &&& path_meets_only(good, (depth - 1) as nat, fs, rest[0], points)
                &&& forall|own: SnapResult, mid: PointsView|
                    #[trigger] path_snapshots((depth - 1) as nat, fs, rest[0], points, own, mid)
                        && own is Ok ==> entries_meet_only(good, depth, fs, rest.drop_first(), mid)
            }
        },
    }
}

/// Whether all the files that a walk over a manifest node meets are good.
pub open spec fn node_meets_only(
    good: spec_fn(FileView) -> bool,
    depth: nat,
    fs: FsView,
    node: NodeView,
    before: PointsView,
) -> bool
    decreases depth, 0nat, 0nat, node,
{
    match node {
        NodeView::Instance { children, .. } => children_meet_only(good, depth, fs, children, before),
        NodeView::SyncPoint { path, .. } => depth > 0 ==> path_meets_only(
            good,
            (depth - 1) as nat,
            fs,
            path,
            before,
        ),
    }
}

/// Whether all the files that a walk over manifest nodes meets are good.
pub open spec fn children_meet_only(
    good: spec_fn(FileView) -> bool,
    depth: nat,
    fs: FsView,
    rest: Seq<ChildView>,
    points: PointsView,
) -> bool
    decreases depth, 0nat, 0nat, rest,
{
    rest.len() > 0 ==> {
        &&& node_meets_only(good, depth, fs, rest[0].node, points)
        &&& forall|own: NodeResult, mid: PointsView|
            #[trigger] node_snapshots(
                depth,
                fs,
                rest[0].name,
                rest[0].node,
                points,
                own,
                mid,
            ) && own is Ok ==> children_meet_only(good, depth, fs, rest.drop_first(), mid)
    }
}

/// Where all the files that a walk meets are good, and good files are better, they are
/// better.
pub proof fn law_meets_better(
    good: spec_fn(FileView) -> bool,
    better: spec_fn(FileView) -> bool,
    depth: nat,
    fs: FsView,
    path: WrittenPath,
    before: PointsView,
)
    requires
        forall|file: FileView| #[trigger] good(file) ==> better(file),
        path_meets_only(good, depth, fs, path, before),
    ensures
        path_meets_only(better, depth, fs, path, before),
    decreases depth, 4nat, 0nat, path,
{
    if depth > 0 && fs.contains_key(path.path) {
        law_meets_better_item(good, better, depth, fs, fs[path.path], before);
        assert forall|own: SnapResult, mid: PointsView|
            #[trigger] item_snapshots(depth, fs, fs[path.path], before, own, mid) && gives_instance(own)
                && mid.contains_key(path.path) implies children_meet_only(
            better,
            depth,
            fs,
            mid[path.path].children,
            mid,
        ) by {
            law_meets_better_children(good, better, depth, fs, mid[path.path].children, mid);
        }
    }
}

/// The same for an entry of the file system.
pub proof fn law_meets_better_item(
    good: spec_fn(FileView) -> bool,
    better: spec_fn(FileView) -> bool,
    depth: nat,
    fs: FsView,
    item: ItemView,
    before: PointsView,
)
    requires
        forall|file: FileView| #[trigger] good(file) ==> better(file),
        item_meets_only(good, depth, fs, item, before),
    ensures
        item_meets_only(better, depth, fs, item, before),
    decreases depth, 3nat, 1nat, item,
{
    if let ItemView::Directory(directory) = item {
        law_meets_better_directory(good, better, depth, fs, directory, before);
    }
}

/// The same for a directory.
pub proof fn law_meets_better_directory(
    good: spec_fn(FileView) -> bool,
    better: spec_fn(FileView) -> bool,
    depth: nat,
    fs: FsView,
    directory: DirectoryView,
    before: PointsView,
)
    requires
        forall|file: FileView| #[trigger] good(file) ==> better(file),
        directory_meets_only(good, depth, fs, directory, before),
    ensures
        directory_meets_only(better, depth, fs, directory, before),
    decreases depth, 3nat, 0nat, directory,
{
    let all = directory.children;
    if depth > 0 {
        if let Some(init) = init_path(directory) {
            law_meets_better(good, better, (depth - 1) as nat, fs, init, before);
            assert forall|own: SnapResult, mid: PointsView|
                #[trigger] path_snapshots((depth - 1) as nat, fs, init, before, own, mid)
                    && gives_instance(own) implies entries_meet_only(
                better,
                depth,
                fs,
                all,
                mid,
            ) by {
                law_meets_better_entries(good, better, depth, fs, all, mid);
            }
        } else {
            law_meets_better_entries(good, better, depth, fs, all, before);
        }
    }
}

proof fn law_meets_better_entries(
    good: spec_fn(FileView) -> bool,
    better: spec_fn(FileView) -> bool,
    depth: nat,
    fs: FsView,
    rest: Seq<WrittenPath>,
    points: PointsView,
)
    requires
        forall|file: FileView| #[trigger] good(file) ==> better(file),
        entries_meet_only(good, depth, fs, rest, points),
    ensures
        entries_meet_only(better, depth, fs, rest, points),
    decreases depth, 2nat, rest.len(), rest,
{
    if rest.len() > 0 && name_text(rest[0].path) is Some {
        let tail = rest.drop_first();
        if is_init_name(name_text(rest[0].path)->0) {
            law_meets_better_entries(good, better, depth, fs, tail, points);
        } else if depth > 0 {
            law_meets_better(good, better, (depth - 1) as nat, fs, rest[0], points);
            assert forall|own: SnapResult, mid: PointsView|
                #[trigger] path_snapshots((depth - 1) as nat, fs, rest[0], points, own, mid)
                    && own is Ok implies entries_meet_only(better, depth, fs, tail, mid) by {
                law_meets_better_entries(good, better, depth, fs, tail, mid);
            }
        }
    }
}

/// The same for a manifest node.
pub proof fn law_meets_better_node(
    good: spec_fn(FileView) -> bool,
    better: spec_fn(FileView) -> bool,
    depth: nat,
    fs: FsView,
    node: NodeView,
    before: PointsView,
)
    requires
        forall|file: FileView| #[trigger] good(file) ==> better(file),
        node_meets_only(good, depth, fs, node, before),
    ensures
        node_meets_only(better, depth, fs, node, before),
    decreases depth, 0nat, 0nat, node,
{
    match node {
        NodeView::Instance { children, .. } => {
            law_meets_better_children(good, better, depth, fs, children, before);
        },
        NodeView::SyncPoint { path, .. } => {
            if depth > 0 {
                law_meets_better(good, better, (depth - 1) as nat, fs, path, before);
            }
        },
    }
}

proof fn law_meets_better_children(
    good: spec_fn(FileView) -> bool,
    better: spec_fn(FileView) -> bool,
    depth: nat,
    fs: FsView,
    rest: Seq<ChildView>,
    points: PointsView,
)
    requires
        forall|file: FileView| #[trigger] good(file) ==> better(file),
        children_meet_only(good, depth, fs, rest, points),
    ensures
        children_meet_only(better, depth, fs, rest, points),
    decreases depth, 0nat, 0nat, rest,
{
    if rest.len() > 0 {
        let name = rest[0].name;
        let node = rest[0].node;
        let tail = rest.drop_first();
        law_meets_better_node(good, better, depth, fs, node, points);
        assert forall|own: NodeResult, mid: PointsView|
            #[trigger] node_snapshots(depth, fs, name, node, points, own, mid)
                && own is Ok implies children_meet_only(better, depth, fs, tail, mid) by {
            law_meets_better_children(good, better, depth, fs, tail, mid);
        }
    }
}

/// Whether all the files of a file system are good.
pub open spec fn all_good(good: spec_fn(FileView) -> bool, fs: FsView) -> bool {
    forall|path: PathView| #[trigger]
        fs.contains_key(path) ==> (fs[path] matches ItemView::File(file) ==> good(file))
}

/// Where all the files of a file system are good, those that a walk meets are.
pub proof fn law_all_good(
    good: spec_fn(FileView) -> bool,
    depth: nat,
    fs: FsView,
    path: WrittenPath,
    before: PointsView,
)
    requires
        all_good(good, fs),
    ensures
        path_meets_only(good, depth, fs, path, before),
    decreases depth, 4nat, 0nat, path,
{
    if depth > 0 && fs.contains_key(path.path) {
        law_all_good_item(good, depth, fs, fs[path.path], before);
        assert forall|own: SnapResult, mid: PointsView|
            #[trigger] item_snapshots(depth, fs, fs[path.path], before, own, mid) && gives_instance(own)
                && mid.contains_key(path.path) implies children_meet_only(
            good,
            depth,
            fs,
            mid[path.path].children,
            mid,
        ) by {
            law_all_good_children(good, depth, fs, mid[path.path].children, mid);
        }
    }
}

/// The same for an entry of the file system.
pub proof fn law_all_good_item(
    good: spec_fn(FileView) -> bool,
    depth: nat,
    fs: FsView,
    item: ItemView,
    before: PointsView,
)
    requires
        all_good(good, fs),
        item matches ItemView::File(file) ==> good(file),
    ensures
        item_meets_only(good, depth, fs, item, before),
    decreases depth, 3nat, 1nat, item,
{
    if let ItemView::Directory(directory) = item {
        law_all_good_directory(good, depth, fs, directory, before);
    }
}

/// The same for a directory.
pub proof fn law_all_good_directory(
    good: spec_fn(FileView) -> bool,
    depth: nat,
    fs: FsView,
    directory: DirectoryView,
    before: PointsView,
)
    requires
        all_good(good, fs),
    ensures
        directory_meets_only(good, depth, fs, directory, before),
    decreases depth, 3nat, 0nat, directory,
{
    let all = directory.children;
    if depth > 0 {
        if let Some(init) = init_path(directory) {
            law_all_good(good, (depth - 1) as nat, fs, init, before);
            assert forall|own: SnapResult, mid: PointsView|
                #[trigger] path_snapshots((depth - 1) as nat, fs, init, before, own, mid)
                    && gives_instance(own) implies entries_meet_only(
                good,
                depth,
                fs,
                all,
                mid,
            ) by {
                law_all_good_entries(good, depth, fs, all, mid);
            }
        } else {
            law_all_good_entries(good, depth, fs, all, before);
        }
    }
}

proof fn law_all_good_entries(
    good: spec_fn(FileView) -> bool,
    depth: nat,
    fs: FsView,
    rest: Seq<WrittenPath>,
    points: PointsView,
)
    requires
        all_good(good, fs),
    ensures
        entries_meet_only(good, depth, fs, rest, points),
    decreases depth, 2nat, rest.len(), rest,
{
    if rest.len() > 0 && name_text(rest[0].path) is Some {
        let tail = rest.drop_first();
        if is_init_name(name_text(rest[0].path)->0) {
            law_all_good_entries(good, depth, fs, tail, points);
        } else if depth > 0 {
            law_all_good(good, (depth - 1) as nat, fs, rest[0], points);
            assert forall|own: SnapResult, mid: PointsView|
                #[trigger] path_snapshots((depth - 1) as nat, fs, rest[0], points, own, mid)
                    && own is Ok implies entries_meet_only(good, depth, fs, tail, mid) by {
                law_all_good_entries(good, depth, fs, tail, mid);
            }
        }
    }
}

/// The same for a manifest node.
pub proof fn law_all_good_node(
    good: spec_fn(FileView) -> bool,
    depth: nat,
    fs: FsView,
    node: NodeView,
    before: PointsView,
)
    requires
        all_good(good, fs),
    ensures
        node_meets_only(good, depth, fs, node, before),
    decreases depth, 0nat, 0nat, node,
{
    match node {
        NodeView::Instance { children, .. } => {
            law_all_good_children(good, depth, fs, children, before);
        },
        NodeView::SyncPoint { path, .. } => {
            if depth > 0 {
                law_all_good(good, (depth - 1) as nat, fs, path, before);
            }
        },
    }
}

proof fn law_all_good_children(
    good: spec_fn(FileView) -> bool,
    depth: nat,
    fs: FsView,
    rest: Seq<ChildView>,
    points: PointsView,
)
    requires
        all_good(good, fs),
    ensures
        children_meet_only(good, depth, fs, rest, points),
    decreases depth, 0nat, 0nat, rest,
{
    if rest.len() > 0 {
        let name = rest[0].name;
        let node = rest[0].node;
        let tail = rest.drop_first();
        law_all_good_node(good, depth, fs, node, points);
        assert forall|own: NodeResult, mid: PointsView|
            #[trigger] node_snapshots(depth, fs, name, node, points, own, mid)
                && own is Ok implies children_meet_only(good, depth, fs, tail, mid) by {
            law_all_good_children(good, depth, fs, tail, mid);
        }
    }
}

} // verus!
