//! What views and relations mean, field by field.
use crate::branch::{
    branch_ids, has_id, is_tree, is_whole, lemma_forest_has, lemma_has, stands, top_ids, Branch,
};
use crate::failure::{
    error_text, ErrorView, FailureView, PanicView, SnapshotError, SnapshotFailure, SnapshotPanic,
};
use crate::file_type::{before_trailer, ends_with};
use crate::filter_plugin::{item_name, VfsItem};
use crate::imfs::{
    paths_view, DirectoryView, FileView, FsView, ImfsDirectory, ImfsFile, ImfsItem, ItemView,
};
use crate::laws::files::{law_extensions, law_trailer};
use crate::laws::turns::{law_described_children, law_sync_point_gives};
use crate::localization::{records_view, texts, LocalizationEntryCsv, LocalizationEntryJson};
use crate::met::{
    children_meet_only, decodable, directory_meets_only, entries_meet_only, is_framed_model,
    item_meets_only, node_meets_only, path_meets_only, unframed,
};
use crate::model::{
    binary_decodes, binary_outcomes, has_binary_header, result_view, shows, shows_forest,
};
use crate::path::{bare_paths, name_text, FilePath, PathPart, PathView, WrittenPath};
use crate::project::{children_view, NodeView, Project, ProjectChild, ProjectNode};
use crate::rbx_snapshot::{
    is_order, same_but_order, snapshots_view, RbxSnapshotInstance, SnapshotView,
};
use crate::reify::{mirrors, resembles, ChangesView, InstanceChanges};
use crate::session::{
    changes_list, full_depth, gives_tree, project_snapshots, rename_view, update_meets_only,
    update_target, update_view, RenamePanic, SessionView, UpdatePanic,
    UpdatePanicView,
};
use crate::snapshots::node_result_view;
use crate::sync_point::{points_view, PointsView, SyncPointMetadata, SyncPoints};
use crate::text::{TextError, TextErrorView};
use crate::tree::{is_below, leads, InstanceMap, InstanceView, TreeInstance};
use crate::value::{property_map, same_properties, text_value, value_equal, Property, PropertyMap};
use crate::walk::{init_path, node_snapshots, NodeResult};
use vstd::prelude::*;

verus! {

/// An instance resembles a snapshot if it has the same name, the same class and the same
/// properties.
pub proof fn law_resembles(instance: InstanceView, snapshot: SnapshotView)
    ensures
        resembles(instance, snapshot) <==> {
            &&& instance.name == snapshot.name
            &&& instance.class_name == snapshot.class_name
            &&& instance.properties == snapshot.properties
        },
{
}

/// Instances mirror a snapshot if the top has its name, class and properties, there is one
/// child for each of its children, and each mirrors the one in its place.
pub proof fn law_mirrors(instances: InstanceMap, branch: Branch, snapshot: SnapshotView)
    ensures
        mirrors(instances, branch, snapshot) <==> {
            &&& instances[branch.id].name == snapshot.name
            &&& instances[branch.id].class_name == snapshot.class_name
            &&& instances[branch.id].properties == snapshot.properties
            &&& branch.children.len() == snapshot.children.len()
            &&& forall|i: int|
                0 <= i < snapshot.children.len() ==> mirrors(
                    instances,
                    #[trigger] branch.children[i],
                    snapshot.children[i],
                )
        },
{
}

/// A branch stands if each of its instances is there, has as its children those of the
/// branch in order, and is the parent of each of them.
pub proof fn law_stands(instances: InstanceMap, branch: Branch)
    ensures
        stands(instances, branch) <==> {
            &&& instances.contains_key(branch.id)
            &&& instances[branch.id].children.len() == branch.children.len()
            &&& forall|i: int|
                0 <= i < branch.children.len() ==> {
                    &&& instances[branch.id].children[i] == (#[trigger] branch.children[i]).id
                    &&& stands(instances, branch.children[i])
                    &&& instances[branch.children[i].id].parent == Some(branch.id)
                }
        },
{
    if instances[branch.id].children.len() == branch.children.len() && forall|i: int|
        0 <= i < branch.children.len() ==> instances[branch.id].children[i] == (
        #[trigger] branch.children[i]).id {
        assert(instances[branch.id].children =~= top_ids(branch.children));
    }
}

/// The whole of a tree starts at its root, which has no parent, stands, and has every
/// instance in it once.
pub proof fn law_whole(instances: InstanceMap, root: u128, branch: Branch)
    requires
        is_whole(instances, root, branch),
    ensures
        branch.id == root,
        instances[root].parent is None,
        stands(instances, branch),
        branch_ids(branch).no_duplicates(),
        forall|id: u128| #[trigger]
            instances.contains_key(id) ==> branch_ids(branch).contains(id),
{
}

/// Properties are the same if they have the same names, and equal values under each name.
pub proof fn law_same_properties(left: PropertyMap, right: PropertyMap)
    ensures
        same_properties(left, right) <==> left.dom() == right.dom() && forall|name: Seq<char>|
            #[trigger] left.contains_key(name) ==> value_equal(left[name], right[name]),
{
    if same_properties(left, right) {
        assert(left.dom() =~= right.dom());
    }
    if left.dom() == right.dom() {
        assert forall|name: Seq<char>| left.contains_key(name) <==> right.contains_key(name) by {
            assert(left.dom().contains(name) <==> right.dom().contains(name));
        }
    }
}

/// A list of properties assigns to each name that it has the value that comes last with it.
pub proof fn law_property_list(list: Seq<Property>, i: int)
    requires
        0 <= i < list.len(),
        forall|j: int| i < j < list.len() ==> (#[trigger] list[j]).name@ != list[i].name@,
    ensures
        property_map(list).contains_key(list[i].name@),
        property_map(list)[list[i].name@] == list[i].value,
    decreases list.len(),
{
    if i < list.len() - 1 {
        assert(list[list.len() - 1].name@ != list[i].name@);
        let fewer = list.drop_last();
        assert forall|j: int| i < j < fewer.len() implies (#[trigger] fewer[j]).name@
            != fewer[i].name@ by {
            assert(list[j].name@ != list[i].name@);
        }
        law_property_list(fewer, i);
    }
}

/// A list of properties assigns to no other names than those it has.
pub proof fn law_property_names(list: Seq<Property>, name: Seq<char>)
    requires
        property_map(list).contains_key(name),
    ensures
        exists|i: int| 0 <= i < list.len() && (#[trigger] list[i]).name@ == name,
    decreases list.len(),
{
    if list.last().name@ == name {
        assert(list[list.len() - 1].name@ == name);
    } else {
        law_property_names(list.drop_last(), name);
        let i = choose|i: int|
            0 <= i < list.drop_last().len() && (#[trigger] list.drop_last()[i]).name@ == name;
        assert(list[i].name@ == name);
    }
}

/// A snapshot stands for what its fields say, and so does each of its children.
pub proof fn law_snapshot_view(snapshot: RbxSnapshotInstance)
    ensures
        snapshot@.name == snapshot.name@,
        snapshot@.class_name == snapshot.class_name@,
        snapshot@.properties == property_map(snapshot.properties@),
        snapshot@.metadata == snapshot.metadata,
        snapshot@.source_path == match snapshot.source_path {
            Some(path) => Some(path@),
            None => None,
        },
        snapshot@.children.len() == snapshot.children.len(),
        forall|i: int|
            0 <= i < snapshot.children.len() ==> #[trigger] snapshot@.children[i]
                == snapshot.children@[i]@,
{
    let children = snapshots_view(snapshot.children@);
    assert(snapshot@.children == children);
    assert(children.len() == snapshot.children.len());
}

/// A manifest node stands for what its fields say, and so does each of its children.
pub proof fn law_node_view(node: ProjectNode, children: Seq<ProjectChild>)
    ensures
        match node {
            ProjectNode::Instance(instance) => node@ == (NodeView::Instance {
                class_name: instance.class_name@,
                children: children_view(instance.children@),
                properties: property_map(instance.properties@),
                metadata: instance.metadata,
            }),
            ProjectNode::SyncPoint(point) => node@ == (NodeView::SyncPoint {
                path: point.path.written(),
                children: children_view(point.children@),
            }),
        },
        children_view(children).len() == children.len(),
        forall|i: int|
            0 <= i < children.len() ==> {
                &&& (#[trigger] children_view(children)[i]).name == children[i].name@
                &&& children_view(children)[i].node == children[i].node@
            },
{
}

/// Entries of the file system stand for what their fields say.
pub proof fn law_item_views(file: ImfsFile, directory: ImfsDirectory)
    ensures
        file@.path == file.path.written(),
        file@.contents == file.contents@,
        directory@.path == directory.path.written(),
        directory@.children.len() == directory.children.len(),
        forall|i: int|
            0 <= i < directory.children.len() ==> #[trigger] directory@.children[i]
                == directory.children@[i].written(),
        ImfsItem::File(file)@ == ItemView::File(file@),
        ImfsItem::Directory(directory)@ == ItemView::Directory(directory@),
        ItemView::File(file@).path() == file.path@,
        ItemView::Directory(directory@).path() == directory.path@,
{
}

/// What is remembered stands for what the table has, path by path.
pub proof fn law_points_view(points: SyncPoints, metadata: SyncPointMetadata)
    ensures
        points_view(points).dom() == points@.dom(),
        forall|path: PathView| #[trigger]
            points@.contains_key(path) ==> points_view(points)[path] == points@[path]@,
        metadata@.instance_name == metadata.instance_name@,
        metadata@.children == children_view(metadata.children@),
{
    assert(points_view(points).dom() =~= points@.dom());
}

/// Results stand for what they hold.
pub proof fn law_result_views(
    snapshot: RbxSnapshotInstance,
    failure: SnapshotFailure,
    panic: SnapshotPanic,
    error: SnapshotError,
)
    ensures
        result_view(Ok(Some(snapshot))) == Ok::<
            Option<SnapshotView>,
            FailureView,
        >(Some(snapshot@)),
        result_view(Ok(None)) == Ok::<Option<SnapshotView>, FailureView>(None),
        result_view(Err(failure)) == Err::<Option<SnapshotView>, FailureView>(
            failure@,
        ),
        node_result_view(Ok(snapshot)) == Ok::<SnapshotView, PanicView>(snapshot@),
        node_result_view(Err(panic)) == Err::<SnapshotView, PanicView>(panic@),
        SnapshotFailure::Error(error)@ == FailureView::Error(error@),
        SnapshotFailure::Panic(panic)@ == FailureView::Panic(panic@),
        SnapshotPanic::SyncPointError(error)@ == PanicView::SyncPointError(error@),
        panic is SyncPointEmpty <==> panic@ is SyncPointEmpty,
        panic is InitEmpty <==> panic@ is InitEmpty,
        panic is UnreadableName <==> panic@ is UnreadableName,
        panic is MalformedTable <==> panic@ is MalformedTable,
        panic is MultipleRoots <==> panic@ is MultipleRoots,
        panic is TooDeep <==> panic@ is TooDeep,
{
}

/// Changes, and the results of updates and renamings, stand for what they hold.
pub proof fn law_change_views(
    changes: InstanceChanges,
    list: Vec<InstanceChanges>,
    panic: UpdatePanic,
    failure: RenamePanic,
)
    ensures
        changes@.added == changes.added@,
        changes@.removed == changes.removed@,
        changes@.updated == changes.updated@,
        update_view(Ok(Some(changes))) is Ok,
        update_view(Ok(Some(changes)))->Ok_0 == Some(changes@),
        update_view(Ok(None)) is Ok,
        update_view(Ok(None))->Ok_0 is None,
        update_view(Err(panic)) is Err,
        update_view(Err(panic))->Err_0 == panic@,
        rename_view(Ok(list)) is Ok,
        rename_view(Ok(list))->Ok_0.len() == list.len(),
        forall|i: int|
            0 <= i < list.len() ==> #[trigger] rename_view(Ok(list))->Ok_0[i] == list@[i]@,
        rename_view(Err(failure)) is Err,
        (rename_view(Err(failure))->Err_0).1 == failure.panic@,
        (rename_view(Err(failure))->Err_0).0 == changes_list(failure.messages@),
        changes_list(failure.messages@).len() == failure.messages.len(),
        forall|i: int|
            0 <= i < failure.messages.len() ==> #[trigger] changes_list(failure.messages@)[i]
                == failure.messages@[i]@,
{
}

/// The messages of errors name what is wrong and where.
pub proof fn law_error_texts(path: WrittenPath, inner: Seq<char>, text: TextErrorView)
    ensures
        error_text(ErrorView::DidNotExist(path)) == "Path did not exist: "@ + path.text(),
        error_text(ErrorView::Utf8Error { inner: text, path }) == "Invalid UTF-8: "@ + text.message
            + " in path "@ + path.text(),
        error_text(ErrorView::XmlModelDecodeError { inner, path }) == "Malformed rbxmx model: "@
            + inner + " in path "@ + path.text(),
        error_text(ErrorView::BinaryModelDecodeError { inner, path }) == "Malformed rbxm model: "@
            + inner + " in path "@ + path.text(),
{
}

/// A framed model is a file whose name ends in `.rbxm` and which begins with the sixteen
/// bytes of the header.
pub proof fn law_framed(file: FileView)
    ensures
        is_framed_model(file) <==> {
            &&& file.path.path.len() > 0
            &&& match file.path.path[file.path.path.len() - 1] {
                PathPart::Normal(name) => ends_with(name, ".rbxm"@),
                _ => false,
            }
            &&& file.contents.len() >= 16
            &&& file.contents.take(16) == seq![
                60u8,
                114,
                111,
                98,
                108,
                111,
                120,
                33,
                137,
                255,
                13,
                10,
                26,
                10,
                0,
                0,
            ]
        },
{
    if let Some(name) = name_text(file.path.path) {
        if ends_with(name, ".rbxm"@) {
            let stem = before_trailer(name, ".rbxm"@);
            law_trailer(name, ".rbxm"@, stem);
            law_extensions(stem);
        }
    }
}

/// Files are unframed if they are no framed models, and decodable if they are no binary models
/// that the decoder panics on.
pub proof fn law_good_files(file: FileView)
    ensures
        unframed()(file) <==> !is_framed_model(file),
        decodable()(file) <==> (is_framed_model(file) ==> exists|
            outcome: Result<Seq<SnapshotView>, Seq<char>>,
        |
            binary_outcomes(file.contents).contains(outcome)),
        unframed()(file) ==> decodable()(file),
{
    if has_binary_header(file.contents) && binary_decodes(file.contents) {
        let outcome = choose|outcome: Result<Seq<SnapshotView>, Seq<char>>|
            binary_outcomes(file.contents).contains(outcome);
        assert(binary_outcomes(file.contents).contains(outcome));
    }
}

/// A project gives what its manifest node gives under its name, with nothing remembered and
/// no bound on the depth but that of the machine.
pub proof fn law_project(fs: FsView, project: Project, result: NodeResult, points: PointsView)
    ensures
        full_depth() == usize::MAX,
        project_snapshots(fs, project, result, points) <==> node_snapshots(
            usize::MAX as nat,
            fs,
            project.name@,
            project.tree@,
            Map::empty(),
            result,
            points,
        ),
{
}

/// The instance that a project gives has the name of the project.
pub proof fn law_project_name(
    fs: FsView,
    project: Project,
    snapshot: SnapshotView,
    points: PointsView,
)
    requires
        project_snapshots(fs, project, Ok(snapshot), points),
    ensures
        snapshot.name == project.name@,
{
    match project.tree@ {
        NodeView::Instance { .. } => {
            let line = law_described_children(
                full_depth(),
                fs,
                project.name@,
                project.tree@,
                Map::empty(),
                Ok(snapshot),
                points,
            );
        },
        NodeView::SyncPoint { path, children } => {
            let way = law_sync_point_gives(
                full_depth(),
                fs,
                project.name@,
                path,
                children,
                Map::empty(),
                Ok(snapshot),
                points,
            );
        },
    }
}

/// A tree that a project gives mirrors a snapshot of the project, from its root on and as a
/// whole.
pub proof fn law_given_tree(
    fs: FsView,
    project: Project,
    instances: InstanceMap,
    root: u128,
) -> (given: (SnapshotView, PointsView, Branch))
    requires
        gives_tree(fs, project, instances, root),
    ensures
        project_snapshots(fs, project, Ok(given.0), given.1),
        is_whole(instances, root, given.2),
        mirrors(instances, given.2, given.0),
        instances[root].name == project.name@,
{
    let given = crate::laws::order::lemma_given(fs, project, instances, root);
    law_project_name(fs, project, given.0, given.1);
    given
}

/// Which files a change leads to are those that a walk over its target meets.
pub proof fn law_update_meets(
    good: spec_fn(FileView) -> bool,
    fs: FsView,
    roots: Seq<WrittenPath>,
    path: PathView,
    before: SessionView,
)
    ensures
        match update_target(roots, before.paths, path) {
            Ok((_, target)) => update_meets_only(good, fs, roots, path, before)
                <==> path_meets_only(good, usize::MAX as nat, fs, target, before.points),
            Err(_) => update_meets_only(good, fs, roots, path, before),
        },
{
}

/// Two texts are equal as values if they are the same value, and no changes are none of any
/// kind.
pub proof fn law_equal_texts(left: Seq<char>, right: Seq<char>)
    ensures
        value_equal(text_value(left), text_value(right)) <==> text_value(left) == text_value(right),
        forall|id: u128|
            !(#[trigger] ChangesView::none().added.contains(id)) && !(
            #[trigger] ChangesView::none().removed.contains(id)) && !(
            #[trigger] ChangesView::none().updated.contains(id)),
{
}

/// The name of an item is that of the file or the directory.
pub proof fn law_item_name(item: VfsItem)
    ensures
        match item {
            VfsItem::File { name, contents } => item_name(item) == name@,
            VfsItem::Dir { name, children } => item_name(item) == name@,
        },
{
}

/// A list of paths stands for each of them as it is written.
pub proof fn law_paths_view(paths: Seq<FilePath>)
    ensures
        paths_view(paths).len() == paths.len(),
        forall|i: int|
            0 <= i < paths.len() ==> #[trigger] paths_view(paths)[i] == paths[i].written(),
        bare_paths(paths_view(paths)).len() == paths.len(),
        forall|i: int|
            0 <= i < paths.len() ==> #[trigger] bare_paths(paths_view(paths))[i] == paths[i]@,
{
}

/// Snapshots are the same but for order if they have the same name, class, properties, source
/// and metadata, and each child of the one is the same in this sense as a child of the other,
/// no two as the same one.
pub proof fn law_same_but_order(left: SnapshotView, right: SnapshotView) -> (order: Seq<int>)
    requires
        same_but_order(left, right),
    ensures
        left.name == right.name,
        left.class_name == right.class_name,
        left.properties == right.properties,
        left.source_path == right.source_path,
        left.metadata == right.metadata,
        left.children.len() == right.children.len(),
        order.len() == left.children.len(),
        forall|k: int|
            0 <= k < order.len() ==> {
                &&& 0 <= #[trigger] order[k] < right.children.len()
                &&& same_but_order(left.children[k], right.children[order[k]])
            },
        forall|k: int, l: int|
            0 <= k < l < order.len() ==> #[trigger] order[k] != #[trigger] order[l],
{
    let order = choose|order: Seq<int>|
        {
            &&& #[trigger] is_order(order, left.children.len())
            &&& forall|k: int|
                0 <= k < left.children.len() ==> same_but_order(
                    #[trigger] left.children[k],
                    right.children[order[k]],
                )
        };
    assert forall|k: int| 0 <= k < order.len() implies {
        &&& 0 <= #[trigger] order[k] < right.children.len()
        &&& same_but_order(left.children[k], right.children[order[k]])
    } by {
        assert(same_but_order(left.children[k], right.children[order[k]]));
    }
    order
}

/// In a tree, the root has no parent, every other instance is a child of its parent, and
/// every child is there and has its parent as its parent.
pub proof fn law_tree(instances: InstanceMap, root: u128, id: u128)
    requires
        is_tree(instances, root),
        instances.contains_key(id),
    ensures
        instances.contains_key(root),
        instances[root].parent is None,
        id != root ==> instances[id].parent is Some && instances.contains_key(
            instances[id].parent->0,
        ) && instances[instances[id].parent->0].children.contains(id),
        forall|i: int|
            0 <= i < instances[id].children.len() ==> {
                &&& instances.contains_key(#[trigger] instances[id].children[i])
                &&& instances[instances[id].children[i]].parent == Some(id)
            },
{
    let branch = choose|branch: Branch| is_whole(instances, root, branch);
    assert(has_id(branch, id));
    lemma_inside(instances, branch, id);
}

proof fn lemma_inside(instances: InstanceMap, branch: Branch, id: u128)
    requires
        stands(instances, branch),
        has_id(branch, id),
    ensures
        instances.contains_key(id),
        id != branch.id ==> instances[id].parent is Some && instances.contains_key(
            instances[id].parent->0,
        ) && instances[instances[id].parent->0].children.contains(id),
        forall|i: int|
            0 <= i < instances[id].children.len() ==> {
                &&& instances.contains_key(#[trigger] instances[id].children[i])
                &&& instances[instances[id].children[i]].parent == Some(id)
            },
    decreases branch,
{
    lemma_has(branch, id);
    if id == branch.id {
        assert forall|i: int| 0 <= i < instances[id].children.len() implies {
            &&& instances.contains_key(#[trigger] instances[id].children[i])
            &&& instances[instances[id].children[i]].parent == Some(id)
        } by {
            assert(instances[id].children[i] == branch.children[i].id);
            assert(stands(instances, branch.children[i]));
        }
    } else {
        let i = lemma_forest_has(branch.children, id);
        assert(stands(instances, branch.children[i]));
        lemma_inside(instances, branch.children[i], id);
        if id == branch.children[i].id {
            assert(instances[branch.id].children[i] == id);
        }
    }
}

/// Errors stand for what they hold, with paths as they are written.
pub proof fn law_error_views(
    path: FilePath,
    inner: String,
    text: TextError,
    failure: SnapshotFailure,
)
    ensures
        text@.valid_up_to == text.valid_up_to,
        text@.message == text.message@,
        SnapshotError::DidNotExist(path)@ == ErrorView::DidNotExist(path.written()),
        (SnapshotError::Utf8Error { inner: text, path })@ == (ErrorView::Utf8Error {
            inner: text@,
            path: path.written(),
        }),
        (SnapshotError::XmlModelDecodeError { inner, path })@ == (ErrorView::XmlModelDecodeError {
            inner: inner@,
            path: path.written(),
        }),
        (SnapshotError::BinaryModelDecodeError { inner, path })@ == (
        ErrorView::BinaryModelDecodeError { inner: inner@, path: path.written() }),
        (UpdatePanic::Snapshot { path, failure })@ == (UpdatePanicView::Snapshot {
            path: path.written(),
            failure: failure@,
        }),
        UpdatePanic::OutsideRoots@ == UpdatePanicView::OutsideRoots,
        UpdatePanic::NoInstance@ == UpdatePanicView::NoInstance,
        UpdatePanic::NoFileName@ == UpdatePanicView::NoFileName,
        UpdatePanic::MissingInstance@ == UpdatePanicView::MissingInstance,
{
}

/// The rows of tables stand for the texts that they hold, cell by cell.
pub proof fn law_table_views(
    cells: Seq<String>,
    records: Seq<Vec<String>>,
    entry: LocalizationEntryJson,
    row: LocalizationEntryCsv,
)
    ensures
        texts(cells).len() == cells.len(),
        forall|i: int| 0 <= i < cells.len() ==> #[trigger] texts(cells)[i] == cells[i]@,
        records_view(records).len() == records.len(),
        forall|i: int|
            0 <= i < records.len() ==> #[trigger] records_view(records)[i] == texts(records[i]@),
        entry@.key == entry.key@ && row@.key == row.key@,
        entry@.context == entry.context@ && row@.context == row.context@,
        entry@.example == entry.example@ && row@.example == row.example@,
        entry@.source == entry.source@ && row@.source == row.source@,
        entry@.values.len() == entry.values.len() && row@.values.len() == row.values.len(),
        forall|i: int|
            0 <= i < entry.values.len() ==> #[trigger] entry@.values[i] == (
                entry.values@[i].locale@,
                entry.values@[i].text@,
            ),
        forall|i: int|
            0 <= i < row.values.len() ==> #[trigger] row@.values[i] == (
                row.values@[i].locale@,
                row.values@[i].text@,
            ),
{
}

/// An instance of a tree stands for what its fields say, and with other children it is else
/// the same.
pub proof fn law_instance_view(instance: TreeInstance, children: Seq<u128>)
    ensures
        instance@.name == instance.name@,
        instance@.class_name == instance.class_name@,
        instance@.properties == property_map(instance.properties@),
        instance@.children == instance.children@,
        instance@.parent == instance.parent,
        instance@.with_children(children).children == children,
        instance@.with_children(children).name == instance@.name,
        instance@.with_children(children).class_name == instance@.class_name,
        instance@.with_children(children).properties == instance@.properties,
        instance@.with_children(children).parent == instance@.parent,
{
}

/// The snapshots of a forest show the children of an instance, all of them and in order.
pub proof fn law_shown_forest(instances: InstanceMap, id: u128, forest: Seq<SnapshotView>)
    ensures
        shows_forest(instances, id, forest) <==> {
            &&& instances.contains_key(id)
            &&& instances[id].children.len() == forest.len()
            &&& forall|i: int|
                0 <= i < forest.len() ==> shows(
                    instances,
                    #[trigger] instances[id].children[i],
                    forest[i],
                )
        },
{
}

/// An instance is below itself, and so is a child of what is below it, and nothing else is.
pub proof fn law_below(instances: InstanceMap, top: u128, id: u128, child: u128)
    ensures
        instances.contains_key(top) ==> is_below(instances, top, top),
        is_below(instances, top, id) && instances[id].children.contains(child)
            && instances.contains_key(child) ==> is_below(instances, top, child),
        is_below(instances, top, child) && child != top ==> exists|above: u128|
            is_below(instances, top, above) && #[trigger] instances[above].children.contains(child),
{
    if instances.contains_key(top) {
        let chain = seq![top];
        assert(leads(instances, chain, top, top));
    }
    if is_below(instances, top, id) && instances[id].children.contains(child)
        && instances.contains_key(child) {
        let chain = choose|chain: Seq<u128>| leads(instances, chain, top, id);
        let longer = chain.push(child);
        assert forall|i: int| 0 <= i < longer.len() implies instances.contains_key(
            #[trigger] longer[i],
        ) by {
            if i < chain.len() {
                assert(instances.contains_key(chain[i]));
            }
        }
        assert forall|i: int, j: int|
            0 <= i && j == i + 1 && j < longer.len() implies instances[#[trigger] longer[i]].children.contains(
        #[trigger] longer[j]) by {
            if j < chain.len() {
                assert(instances[chain[i]].children.contains(chain[j]));
            } else {
                assert(longer[i] == chain.last());
            }
        }
        assert(leads(instances, longer, top, child));
    }
    if is_below(instances, top, child) && child != top {
        let chain = choose|chain: Seq<u128>| leads(instances, chain, top, child);
        let shorter = chain.drop_last();
        let last = chain.len() - 1;
        assert(chain.len() > 1);
        let above = shorter.last();
        assert(instances[chain[last - 1]].children.contains(chain[last]));
        assert forall|i: int| 0 <= i < shorter.len() implies instances.contains_key(
            #[trigger] shorter[i],
        ) by {
            assert(instances.contains_key(chain[i]));
        }
        assert forall|i: int, j: int|
            0 <= i && j == i + 1 && j < shorter.len() implies instances[#[trigger] shorter[i]].children.contains(
        #[trigger] shorter[j]) by {
            assert(instances[chain[i]].children.contains(chain[j]));
        }
        assert(leads(instances, shorter, top, above));
        assert(instances[above].children.contains(child));
    }
}

/// A walk meets nothing where there is no entry, in an empty list of entries or nodes, and
/// behind a name that cannot be read. It passes over init scripts, meets in a described node
/// what it meets in the children of that, and at a sync point what it meets at its path.
pub proof fn law_met_in_turn(
    good: spec_fn(FileView) -> bool,
    depth: nat,
    fs: FsView,
    path: WrittenPath,
    rest: Seq<WrittenPath>,
    node: NodeView,
    item: ItemView,
    points: PointsView,
)
    ensures
        depth == 0 || !fs.contains_key(path.path) ==> path_meets_only(good, depth, fs, path, points),
        item_meets_only(good, depth, fs, item, points) <==> match item {
            ItemView::File(file) => good(file),
            ItemView::Directory(directory) => directory_meets_only(
                good,
                depth,
                fs,
                directory,
                points,
            ),
        },
        entries_meet_only(good, depth, fs, Seq::empty(), points),
        children_meet_only(good, depth, fs, Seq::empty(), points),
        rest.len() > 0 && name_text(rest[0].path) is None ==> entries_meet_only(
            good,
            depth,
            fs,
            rest,
            points,
        ),
        rest.len() > 0 && (name_text(rest[0].path) == Some("init.lua"@) || name_text(rest[0].path)
            == Some("init.server.lua"@) || name_text(rest[0].path) == Some("init.client.lua"@)) ==> (
        entries_meet_only(good, depth, fs, rest, points) <==> entries_meet_only(
            good,
            depth,
            fs,
            rest.drop_first(),
            points,
        )),
        node_meets_only(good, depth, fs, node, points) <==> match node {
            NodeView::Instance { class_name, children, properties, metadata } => children_meet_only(
                good,
                depth,
                fs,
                children,
                points,
            ),
            NodeView::SyncPoint { path, children } => depth == 0 || path_meets_only(
                good,
                (depth - 1) as nat,
                fs,
                path,
                points,
            ),
        },
{
}

/// In a directory without an init script a walk meets what it meets in the entries.
pub proof fn law_met_in_folder(
    good: spec_fn(FileView) -> bool,
    depth: nat,
    fs: FsView,
    directory: DirectoryView,
    points: PointsView,
)
    ensures
        depth == 0 ==> directory_meets_only(good, depth, fs, directory, points),
        depth > 0 && init_path(directory) is None ==> (directory_meets_only(
            good,
            depth,
            fs,
            directory,
            points,
        ) <==> entries_meet_only(good, depth, fs, directory.children, points)),
{
}

/// A walk over a path with a file meets that file.
pub proof fn law_file_is_met(
    good: spec_fn(FileView) -> bool,
    depth: nat,
    fs: FsView,
    path: WrittenPath,
    before: PointsView,
    file: FileView,
)
    requires
        depth > 0,
        fs.contains_key(path.path),
        fs[path.path] == ItemView::File(file),
        path_meets_only(good, depth, fs, path, before),
    ensures
        good(file),
{
}

} // verus!
