//! How the snapshot of a path comes about.
//!
//! A snapshot is taken by walking the file system and the manifest together:
//! a sync point of the manifest leads to a path, and a path that is remembered as
//! a sync point has children from the manifest. The predicates here say which
//! results such a walk can have, and which sync points are remembered after it.
//! `depth` bounds how many paths are walked inside one another.
use crate::failure::{ErrorView, FailureView, PanicView};
use crate::file_type::{classify, FileType};
use crate::imfs::{DirectoryView, FileView, FsView, ItemView};
use crate::localization::table_contents;
use crate::model::{binary_model_result, xml_model_result};
use crate::path::{join, name_text, PathView, WrittenPath};
use crate::project::{ChildView, NodeView};
use crate::rbx_snapshot::SnapshotView;
use crate::sync_point::{PointsView, SyncPointView};
use crate::text::utf8_error;
use crate::value::text_value;
use vstd::prelude::*;
use vstd::utf8::{decode_utf8, valid_utf8};

verus! {

/// The script that makes its directory a module script.
pub const INIT_SCRIPT: &'static str = "init.lua";

/// The script that makes its directory a server script.
pub const INIT_SERVER_SCRIPT: &'static str = "init.server.lua";

/// The script that makes its directory a client script.
pub const INIT_CLIENT_SCRIPT: &'static str = "init.client.lua";

/// Whether a file of this name decides what its directory is.
pub open spec fn is_init_name(name: Seq<char>) -> bool {
    name == INIT_SCRIPT@ || name == INIT_SERVER_SCRIPT@ || name == INIT_CLIENT_SCRIPT@
}

/// What taking the snapshot of a path can give.
pub type SnapResult = Result<Option<SnapshotView>, FailureView>;

/// What taking the snapshot of a manifest node can give.
pub type NodeResult = Result<SnapshotView, PanicView>;

/// Names a result, and the sync points remembered with it, that a walk comes by
/// on its way.
pub open spec fn step(result: SnapResult, points: PointsView) -> bool {
    true
}

/// Names a result of a manifest node, and the sync points remembered with it, that
/// a walk comes by on its way.
pub open spec fn node_step(result: NodeResult, points: PointsView) -> bool {
    true
}

/// The class of the instance that a file of this kind gives; a model has the
/// class that it was saved with.
pub open spec fn class_of(file_type: FileType) -> Option<Seq<char>> {
    match file_type {
        FileType::ModuleScript => Some("ModuleScript"@),
        FileType::ServerScript => Some("Script"@),
        FileType::ClientScript => Some("LocalScript"@),
        FileType::StringValue => Some("StringValue"@),
        FileType::LocalizationTable => Some("LocalizationTable"@),
        FileType::XmlModel => None,
        FileType::BinaryModel => None,
    }
}

/// An instance with one text property and no children, from a file.
pub open spec fn leaf(
    name: Seq<char>,
    class_name: Seq<char>,
    property: Seq<char>,
    text: Seq<char>,
    path: PathView,
) -> SnapshotView {
    SnapshotView {
        name,
        class_name,
        properties: map![property => text_value(text)],
        children: Seq::empty(),
        source_path: Some(path),
        metadata: None,
    }
}

/// The snapshot of a text file under a name.
pub open spec fn text_file_result(name: Seq<char>, file_type: FileType, file: FileView) -> SnapResult {
    if !valid_utf8(file.contents) {
        Err(
            FailureView::Error(
                ErrorView::Utf8Error { inner: utf8_error(file.contents), path: file.path },
            ),
        )
    } else {
        let text = decode_utf8(file.contents);
        let class_name = class_of(file_type)->0;
        match file_type {
            FileType::StringValue => Ok(Some(leaf(name, class_name, "Value"@, text, file.path.path))),
            FileType::LocalizationTable => match table_contents(text) {
                Some(contents) => Ok(
                    Some(leaf(name, class_name, "Contents"@, contents, file.path.path)),
                ),
                None => Err(FailureView::Panic(PanicView::MalformedTable)),
            },
            _ => Ok(Some(leaf(name, class_name, "Source"@, text, file.path.path))),
        }
    }
}

/// The name of the instance at a path: the one that the manifest gives it, or
/// else `name`.
pub open spec fn name_at(points: PointsView, path: PathView, name: Seq<char>) -> Seq<char> {
    if points.contains_key(path) {
        points[path].instance_name
    } else {
        name
    }
}

/// Whether `result` can be the snapshot of a file.
pub open spec fn file_snapshots(file: FileView, points: PointsView, result: SnapResult) -> bool {
    match classify(file.path.path) {
        None => result == Ok::<Option<SnapshotView>, FailureView>(None),
        Some((stem, file_type)) => {
            let name = name_at(points, file.path.path, stem);
            match file_type {
                FileType::XmlModel => result == xml_model_result(name, file),
                FileType::BinaryModel => binary_model_result(name, file, result),
                _ => result == text_file_result(name, file_type, file),
            }
        },
    }
}

/// The file that decides what a directory is, if it has one.
pub open spec fn init_path(directory: DirectoryView) -> Option<WrittenPath> {
    if directory.entries().contains(join(directory.path.path, INIT_SCRIPT@)) {
        Some(directory.path.joined(INIT_SCRIPT@))
    } else if directory.entries().contains(join(directory.path.path, INIT_SERVER_SCRIPT@)) {
        Some(directory.path.joined(INIT_SERVER_SCRIPT@))
    } else if directory.entries().contains(join(directory.path.path, INIT_CLIENT_SCRIPT@)) {
        Some(directory.path.joined(INIT_CLIENT_SCRIPT@))
    } else {
        None
    }
}

/// What a directory is if no init script says otherwise.
pub open spec fn folder(path: PathView) -> SnapshotView {
    SnapshotView {
        name: ""@,
        class_name: "Folder"@,
        properties: Map::empty(),
        children: Seq::empty(),
        source_path: Some(path),
        metadata: None,
    }
}

/// Whether taking the snapshot of `path`, with the sync points `before`
/// remembered, can give `result` and leave `after` remembered.
pub open spec fn path_snapshots(
    depth: nat,
    fs: FsView,
    path: WrittenPath,
    before: PointsView,
    result: SnapResult,
    after: PointsView,
) -> bool
    decreases depth, 4nat, 0nat, path,
{
    if depth == 0 {
        result == Err::<Option<SnapshotView>, FailureView>(FailureView::Panic(PanicView::TooDeep))
            && after == before
    } else if !fs.contains_key(path.path) {
        result == Err::<Option<SnapshotView>, FailureView>(
            FailureView::Error(ErrorView::DidNotExist(path)),
        ) && after == before
    } else {
        exists|own: SnapResult, mid: PointsView|
            {
                &&& #[trigger] step(own, mid)
                &&& item_snapshots(depth, fs, fs[path.path], before, own, mid)
                &&& completes(depth, fs, path.path, mid, own, result, after)
            }
    }
}

/// Whether the snapshot `own` of what is at `path` becomes `result` once the
/// children that the manifest adds there are put behind its own.
pub open spec fn completes(
    depth: nat,
    fs: FsView,
    path: PathView,
    points: PointsView,
    own: SnapResult,
    result: SnapResult,
    after: PointsView,
) -> bool
    decreases depth, 1nat, 0nat, path,
{
    match own {
        Ok(Some(snapshot)) => if points.contains_key(path) {
            exists|whole: NodeResult|
                {
                    &&& #[trigger] node_step(whole, after)
                    &&& children_added(
                        depth,
                        fs,
                        points[path].children,
                        snapshot,
                        points,
                        whole,
                        after,
                    )
                    &&& result == node_as_path(whole)
                }
        } else {
            result == own && after == points
        },
        _ => result == own && after == points,
    }
}

/// The result of a manifest node where the result of a path is asked for.
pub open spec fn node_as_path(result: NodeResult) -> SnapResult {
    match result {
        Ok(snapshot) => Ok(Some(snapshot)),
        Err(panic) => Err(FailureView::Panic(panic)),
    }
}

/// Whether `result` can be the snapshot of an entry of the file system, before
/// the manifest adds children to it.
pub open spec fn item_snapshots(
    depth: nat,
    fs: FsView,
    item: ItemView,
    before: PointsView,
    result: SnapResult,
    after: PointsView,
) -> bool
    decreases depth, 3nat, 1nat, item,
{
    match item {
        ItemView::File(file) => file_snapshots(file, before, result) && after == before,
        ItemView::Directory(directory) => directory_snapshots(
            depth,
            fs,
            directory,
            before,
            result,
            after,
        ),
    }
}

/// Whether `result` can be the snapshot of a directory.
pub open spec fn directory_snapshots(
    depth: nat,
    fs: FsView,
    directory: DirectoryView,
    before: PointsView,
    result: SnapResult,
    after: PointsView,
) -> bool
    decreases depth, 3nat, 0nat, directory,
{
    if depth == 0 {
        result == Err::<Option<SnapshotView>, FailureView>(FailureView::Panic(PanicView::TooDeep))
            && after == before
    } else {
        match init_path(directory) {
            None => entries_added(
                depth,
                fs,
                directory,
                directory.children,
                folder(directory.path.path),
                before,
                result,
                after,
            ),
            Some(init) => exists|own: SnapResult, mid: PointsView|
                {
                    &&& #[trigger] step(own, mid)
                    &&& path_snapshots((depth - 1) as nat, fs, init, before, own, mid)
                    &&& match own {
                        Ok(Some(snapshot)) => entries_added(
                            depth,
                            fs,
                            directory,
                            directory.children,
                            snapshot,
                            mid,
                            result,
                            after,
                        ),
                        Ok(None) => result == Err::<Option<SnapshotView>, FailureView>(
                            FailureView::Panic(PanicView::InitEmpty),
                        ) && after == mid,
                        Err(failure) => result == own && after == mid,
                    }
                },
        }
    }
}

/// Whether `snapshot` becomes `result` once the entries `rest` of a directory are
/// put behind its children and the directory has its name.
pub open spec fn entries_added(
    depth: nat,
    fs: FsView,
    directory: DirectoryView,
    rest: Seq<WrittenPath>,
    snapshot: SnapshotView,
    points: PointsView,
    result: SnapResult,
    after: PointsView,
) -> bool
    decreases depth, 2nat, rest.len(), rest,
{
    if rest.len() == 0 {
        &&& result == directory_named(directory, snapshot, points)
        &&& after == points
    } else {
        match name_text(rest[0].path) {
            None => result == Err::<Option<SnapshotView>, FailureView>(
                FailureView::Panic(PanicView::UnreadableName),
            ) && after == points,
            Some(name) => if is_init_name(name) {
                entries_added(
                    depth,
                    fs,
                    directory,
                    rest.drop_first(),
                    snapshot,
                    points,
                    result,
                    after,
                )
            } else if depth == 0 {
                result == Err::<Option<SnapshotView>, FailureView>(
                    FailureView::Panic(PanicView::TooDeep),
                ) && after == points
            } else {
                exists|own: SnapResult, mid: PointsView|
                    {
                        &&& #[trigger] step(own, mid)
                        &&& path_snapshots(
                            (depth - 1) as nat,
                            fs,
                            rest[0],
                            points,
                            own,
                            mid,
                        )
                        &&& match own {
                            Ok(Some(child)) => entries_added(
                                depth,
                                fs,
                                directory,
                                rest.drop_first(),
                                snapshot.with_child(child),
                                mid,
                                result,
                                after,
                            ),
                            Ok(None) => entries_added(
                                depth,
                                fs,
                                directory,
                                rest.drop_first(),
                                snapshot,
                                mid,
                                result,
                                after,
                            ),
                            Err(failure) => result == own && after == mid,
                        }
                    }
            },
        }
    }
}

/// The snapshot of a directory under the name that the manifest gives it, or
/// else under its own.
pub open spec fn directory_named(
    directory: DirectoryView,
    snapshot: SnapshotView,
    points: PointsView,
) -> SnapResult {
    if points.contains_key(directory.path.path) {
        Ok(Some(snapshot.named(points[directory.path.path].instance_name)))
    } else {
        match name_text(directory.path.path) {
            Some(name) => Ok(Some(snapshot.named(name))),
            None => Err(FailureView::Panic(PanicView::UnreadableName)),
        }
    }
}

/// Whether `result` can be the snapshot of a manifest node under a name.
pub open spec fn node_snapshots(
    depth: nat,
    fs: FsView,
    name: Seq<char>,
    node: NodeView,
    before: PointsView,
    result: NodeResult,
    after: PointsView,
) -> bool
    decreases depth, 0nat, 0nat, node,
{
    match node {
        NodeView::Instance { class_name, children, properties, metadata } => children_added(
            depth,
            fs,
            children,
            SnapshotView {
                name,
                class_name,
                properties,
                children: Seq::empty(),
                source_path: None,
                metadata: Some(metadata),
            },
            before,
            result,
            after,
        ),
        NodeView::SyncPoint { path, children } => if depth == 0 {
            result == Err::<SnapshotView, PanicView>(PanicView::TooDeep) && after == before
        } else {
            exists|own: SnapResult, mid: PointsView|
                {
                    &&& #[trigger] step(own, mid)
                    &&& path_snapshots((depth - 1) as nat, fs, path, before, own, mid)
                    &&& result == sync_point_result(name, own)
                    &&& after == if own matches Ok(Some(_)) {
                        mid.insert(path.path, SyncPointView { instance_name: name, children })
                    } else {
                        mid
                    }
                }
        },
    }
}

/// What a sync point gives whose path gives `own`.
pub open spec fn sync_point_result(name: Seq<char>, own: SnapResult) -> NodeResult {
    match own {
        Ok(Some(snapshot)) => Ok(snapshot.named(name)),
        Ok(None) => Err(PanicView::SyncPointEmpty),
        Err(FailureView::Error(error)) => Err(PanicView::SyncPointError(error)),
        Err(FailureView::Panic(panic)) => Err(panic),
    }
}

/// Whether `snapshot` becomes `result` once the manifest nodes `rest` are put
/// behind its children.
pub open spec fn children_added(
    depth: nat,
    fs: FsView,
    rest: Seq<ChildView>,
    snapshot: SnapshotView,
    points: PointsView,
    result: NodeResult,
    after: PointsView,
) -> bool
    decreases depth, 0nat, 0nat, rest,
{
    if rest.len() == 0 {
        result == Ok::<SnapshotView, PanicView>(snapshot) && after == points
    } else {
        exists|own: NodeResult, mid: PointsView|
            {
                &&& #[trigger] node_step(own, mid)
                &&& node_snapshots(
                    depth,
                    fs,
                    rest[0].name,
                    rest[0].node,
                    points,
                    own,
                    mid,
                )
                &&& match own {
                    Ok(child) => children_added(
                        depth,
                        fs,
                        rest.drop_first(),
                        snapshot.with_child(child),
                        mid,
                        result,
                        after,
                    ),
                    Err(panic) => result == own && after == mid,
                }
            }
    }
}

} // verus!
