//! Taking snapshots of paths and of manifest nodes.
use crate::failure::{SnapshotError, SnapshotFailure, SnapshotPanic};
use crate::file_type::{classify_file, FileType};
use crate::imfs::{paths_view, Imfs, ImfsDirectory, ImfsFile, ImfsItem};
use crate::localization::localization_table;
use crate::met::{
    children_meet_only, decodable, directory_meets_only, entries_meet_only, model_decodes,
    node_meets_only, path_meets_only,
};
use crate::model::{result_view, snapshot_binary_model, snapshot_xml_model};
use crate::path::{bare_paths, FilePath};
use crate::project::{children_view, copy_children, ProjectChild, ProjectNode};
use crate::rbx_snapshot::{snapshots_view, RbxSnapshotInstance};
use crate::sync_point::{points_view, PointsView, SyncPointMetadata, SyncPoints};
use crate::text::decode_text;
use crate::value::{copy_properties, make_text_value, property_map, single_property, Property};
use crate::walk::{
    children_added, completes, directory_snapshots, entries_added, file_snapshots, folder,
    init_path, is_init_name, item_snapshots, node_as_path, node_snapshots, node_step,
    path_snapshots, step, NodeResult, SnapResult, INIT_CLIENT_SCRIPT, INIT_SCRIPT,
    INIT_SERVER_SCRIPT,
};
use vstd::prelude::*;

verus! {

/// The snapshot of a file.
pub fn snapshot_instances_from_file(file: &ImfsFile, sync_point_metadata: &SyncPoints) -> (result:
    Result<Option<RbxSnapshotInstance>, SnapshotFailure>)
    requires
        model_decodes(file@),
    ensures
        file_snapshots(file@, points_view(*sync_point_metadata), result_view(result)),
{
    let (stem, file_type) = match classify_file(file) {
        Some(info) => info,
        None => return Ok(None),
    };
    let instance_name = match sync_point_metadata.get(&file.path) {
        Some(metadata) => metadata.instance_name.clone(),
        None => stem.to_owned(),
    };
    let class_name = match file_type {
        FileType::ModuleScript => "ModuleScript",
        FileType::ServerScript => "Script",
        FileType::ClientScript => "LocalScript",
        FileType::StringValue => "StringValue",
        FileType::LocalizationTable => "LocalizationTable",
        FileType::XmlModel => return snapshot_xml_model(instance_name, file),
        FileType::BinaryModel => return snapshot_binary_model(instance_name, file),
    };
    let contents = match decode_text(&file.contents) {
        Ok(contents) => contents,
        Err(inner) => return Err(
            SnapshotFailure::Error(SnapshotError::Utf8Error { inner, path: file.path.clone() }),
        ),
    };
    let properties = match file_type {
        FileType::StringValue => single_property(
            "Value",
            make_text_value(contents),
        ),
        FileType::LocalizationTable => match localization_table(contents) {
            Some(table) => single_property("Contents", make_text_value(table.as_str())),
            None => return Err(SnapshotFailure::Panic(SnapshotPanic::MalformedTable)),
        },
        _ => single_property("Source", make_text_value(contents)),
    };
    let children: Vec<RbxSnapshotInstance> = Vec::new();
    assert(snapshots_view(children@) =~= Seq::empty());
    Ok(
        Some(
            RbxSnapshotInstance {
                name: instance_name,
                class_name: class_name.to_owned(),
                properties,
                children,
                source_path: Some(file.path.clone()),
                metadata: None,
            },
        ),
    )
}

/// What the result of taking the snapshot of a manifest node stands for.
pub open spec fn node_result_view(result: Result<RbxSnapshotInstance, SnapshotPanic>) -> NodeResult {
    match result {
        Ok(snapshot) => Ok(snapshot@),
        Err(panic) => Err(panic@),
    }
}

/// Whether `paths` holds `path`.
fn contains_path(paths: &Vec<FilePath>, path: &FilePath) -> (r: bool)
    ensures
        r == bare_paths(paths_view(paths@)).contains(path@),
{
    let mut i: usize = 0;
    while i < paths.len()
        invariant
            i <= paths.len(),
            forall|j: int| 0 <= j < i ==> (#[trigger] paths@[j])@ != path@,
        decreases paths.len() - i,
    {
        if paths[i].same(path) {
            assert(bare_paths(paths_view(paths@))[i as int] == path@);
            return true;
        }
        i += 1;
    }
    proof {
        let listed = bare_paths(paths_view(paths@));
        if listed.contains(path@) {
            let j = choose|j: int| 0 <= j < listed.len() && listed[j] == path@;
            assert(paths@[j]@ != path@);
        }
    }
    false
}

/// Whether a file of this name decides what its directory is.
pub(crate) fn is_init(name: &str) -> (r: bool)
    ensures
        r == is_init_name(name@),
        r <==> name@ == "init.lua"@ || name@ == "init.server.lua"@ || name@ == "init.client.lua"@,
{
    let name = name.to_owned();
    name == INIT_SCRIPT.to_owned() || name == INIT_SERVER_SCRIPT.to_owned() || name
        == INIT_CLIENT_SCRIPT.to_owned()
}

/// The file that decides what a directory is, if it has one.
pub(crate) fn deciding_file(directory: &ImfsDirectory) -> (init: Option<FilePath>)
    ensures
        match init {
            Some(path) => init_path(directory@) == Some(path.written()),
            None => init_path(directory@) is None,
        },
{
    let init_path = directory.path.join(INIT_SCRIPT);
    let init_server_path = directory.path.join(INIT_SERVER_SCRIPT);
    let init_client_path = directory.path.join(INIT_CLIENT_SCRIPT);
    if contains_path(&directory.children, &init_path) {
        Some(init_path)
    } else if contains_path(&directory.children, &init_server_path) {
        Some(init_server_path)
    } else if contains_path(&directory.children, &init_client_path) {
        Some(init_client_path)
    } else {
        None
    }
}

/// The snapshot of a path: of the file or directory there, with the children that
/// the manifest adds behind its own.
pub fn snapshot_instances_from_imfs(
    imfs: &Imfs,
    imfs_path: &FilePath,
    sync_point_metadata: &mut SyncPoints,
    depth: usize,
) -> (result: Result<Option<RbxSnapshotInstance>, SnapshotFailure>)
    requires
        path_meets_only(
            decodable(),
            depth as nat,
            imfs@,
            imfs_path.written(),
            points_view(*old(sync_point_metadata)),
        ),
    ensures
        path_snapshots(
            depth as nat,
            imfs@,
            imfs_path.written(),
            points_view(*old(sync_point_metadata)),
            result_view(result),
            points_view(*final(sync_point_metadata)),
        ),
    decreases depth, 4nat, 0nat, imfs_path,
{
    if depth == 0 {
        return Err(SnapshotFailure::Panic(SnapshotPanic::TooDeep));
    }
    let item = match imfs.get(imfs_path) {
        Some(item) => item,
        None => return Err(
            SnapshotFailure::Error(SnapshotError::DidNotExist(imfs_path.clone())),
        ),
    };
    let ghost before = points_view(*sync_point_metadata);
    let own = match item {
        ImfsItem::File(file) => snapshot_instances_from_file(file, sync_point_metadata),
        ImfsItem::Directory(directory) => snapshot_instances_from_directory(
            imfs,
            directory,
            sync_point_metadata,
            depth,
        ),
    };
    let ghost own_view = result_view(own);
    let ghost mid = points_view(*sync_point_metadata);
    assert(item_snapshots(depth as nat, imfs@, imfs@[imfs_path@], before, own_view, mid));
    assert(step(own_view, mid));
    let mut instance = match own {
        Ok(Some(instance)) => instance,
        Ok(None) => {
            assert(completes(depth as nat, imfs@, imfs_path@, mid, own_view, own_view, mid));
            return Ok(None);
        },
        Err(failure) => {
            assert(completes(depth as nat, imfs@, imfs_path@, mid, own_view, own_view, mid));
            return Err(failure);
        },
    };
    let children = match sync_point_metadata.get(imfs_path) {
        Some(metadata) => copy_children(&metadata.children),
        None => {
            assert(completes(depth as nat, imfs@, imfs_path@, mid, own_view, own_view, mid));
            return Ok(Some(instance));
        },
    };
    let ghost snapshot = instance@;
    let added = add_children(imfs, &children, instance, sync_point_metadata, depth);
    let ghost whole = node_result_view(added);
    let ghost after = points_view(*sync_point_metadata);
    assert(children_added(
        depth as nat,
        imfs@,
        mid[imfs_path@].children,
        snapshot,
        mid,
        whole,
        after,
    ));
    assert(node_step(whole, after));
    assert(completes(depth as nat, imfs@, imfs_path@, mid, own_view, node_as_path(whole), after));
    match added {
        Ok(instance) => Ok(Some(instance)),
        Err(panic) => Err(SnapshotFailure::Panic(panic)),
    }
}

/// The snapshot of a directory: of its init script, or else a folder, with its
/// other entries as children.
pub fn snapshot_instances_from_directory(
    imfs: &Imfs,
    directory: &ImfsDirectory,
    sync_point_metadata: &mut SyncPoints,
    depth: usize,
) -> (result: Result<Option<RbxSnapshotInstance>, SnapshotFailure>)
    requires
        directory_meets_only(
            decodable(),
            depth as nat,
            imfs@,
            directory@,
            points_view(*old(sync_point_metadata)),
        ),
    ensures
        directory_snapshots(
            depth as nat,
            imfs@,
            directory@,
            points_view(*old(sync_point_metadata)),
            result_view(result),
            points_view(*final(sync_point_metadata)),
        ),
    decreases depth, 3nat, 0nat, directory,
{
    if depth == 0 {
        return Err(SnapshotFailure::Panic(SnapshotPanic::TooDeep));
    }
    let ghost before = points_view(*sync_point_metadata);
    let init = deciding_file(directory);
    let mut instance = match init {
        Some(init) => {
            let own = snapshot_instances_from_imfs(imfs, &init, sync_point_metadata, depth - 1);
            assert(step(result_view(own), points_view(*sync_point_metadata)));
            match own {
                Ok(Some(instance)) => instance,
                Ok(None) => return Err(SnapshotFailure::Panic(SnapshotPanic::InitEmpty)),
                Err(failure) => return Err(failure),
            }
        },
        None => {
            let properties: Vec<Property> = Vec::new();
            let children: Vec<RbxSnapshotInstance> = Vec::new();
            assert(property_map(properties@) =~= Map::empty());
            assert(snapshots_view(children@) =~= Seq::empty());
            RbxSnapshotInstance {
                name: "".to_owned(),
                class_name: "Folder".to_owned(),
                properties,
                children,
                source_path: Some(directory.path.clone()),
                metadata: None,
            }
        },
    };
    let ghost all = directory@.children;
    assert(all.skip(0) =~= all);
    let mut i: usize = 0;
    while i < directory.children.len()
        invariant
            depth > 0,
            entries_meet_only(
                decodable(),
                depth as nat,
                imfs@,
                all.skip(i as int),
                points_view(*sync_point_metadata),
            ),
            before == points_view(*old(sync_point_metadata)),
            i <= directory.children.len(),
            all == directory@.children,
            all.len() == directory.children.len(),
            forall|result: SnapResult, after: PointsView|
                #[trigger] entries_added(
                    depth as nat,
                    imfs@,
                    directory@,
                    all.skip(i as int),
                    instance@,
                    points_view(*sync_point_metadata),
                    result,
                    after,
                ) ==> directory_snapshots(depth as nat, imfs@, directory@, before, result, after),
        decreases directory.children.len() - i,
    {
        let child_path = &directory.children[i];
        let ghost rest = all.skip(i as int);
        assert(rest[0] == child_path.written());
        assert(rest.drop_first() =~= all.skip(i + 1));
        let name = match child_path.name_text() {
            Some(name) => name,
            None => {
                let failure = SnapshotFailure::Panic(SnapshotPanic::UnreadableName);
                assert(entries_added(
                    depth as nat,
                    imfs@,
                    directory@,
                    all.skip(i as int),
                    instance@,
                    points_view(*sync_point_metadata),
                    Err(failure@),
                    points_view(*sync_point_metadata),
                ));
                return Err(failure);
            },
        };
        let ghost points = points_view(*sync_point_metadata);
        let ghost snapshot = instance@;
        if !is_init(name) {
            let child = snapshot_instances_from_imfs(imfs, child_path, sync_point_metadata, depth - 1);
            let ghost own = result_view(child);
            let ghost mid = points_view(*sync_point_metadata);
            assert(path_snapshots((depth - 1) as nat, imfs@, rest[0], points, own, mid));
            assert(step(own, mid));
            match child {
                Ok(Some(child)) => {
                    instance.push_child(child);
                },
                Ok(None) => {},
                Err(failure) => {
                    assert(entries_added(
                        depth as nat,
                        imfs@,
                        directory@,
                        all.skip(i as int),
                        snapshot,
                        points,
                        own,
                        mid,
                    ));
                    return Err(failure);
                },
            }
        }
        assert forall|result: SnapResult, after: PointsView|
            #[trigger] entries_added(
                depth as nat,
                imfs@,
                directory@,
                all.skip(i + 1),
                instance@,
                points_view(*sync_point_metadata),
                result,
                after,
            ) implies directory_snapshots(
            depth as nat,
            imfs@,
            directory@,
            before,
            result,
            after,
        ) by {
            assert(entries_added(
                depth as nat,
                imfs@,
                directory@,
                rest,
                snapshot,
                points,
                result,
                after,
            ));
        }
        i += 1;
    }
    let ghost rest = all.skip(i as int);
    assert(rest.len() == 0);
    let name = match sync_point_metadata.get(&directory.path) {
        Some(metadata) => metadata.instance_name.clone(),
        None => match directory.path.name_text() {
            Some(name) => name.to_owned(),
            None => {
                let failure = SnapshotFailure::Panic(SnapshotPanic::UnreadableName);
                assert(entries_added(
                    depth as nat,
                    imfs@,
                    directory@,
                    rest,
                    instance@,
                    points_view(*sync_point_metadata),
                    Err(failure@),
                    points_view(*sync_point_metadata),
                ));
                return Err(failure);
            },
        },
    };
    let ghost snapshot = instance@;
    instance.name = name;
    assert(entries_added(
        depth as nat,
        imfs@,
        directory@,
        rest,
        snapshot,
        points_view(*sync_point_metadata),
        Ok(Some(instance@)),
        points_view(*sync_point_metadata),
    ));
    Ok(Some(instance))
}

/// The snapshot of a manifest node under a name. A sync point is remembered under
/// its path.
pub fn construct_project_node(
    imfs: &Imfs,
    instance_name: &String,
    project_node: &ProjectNode,
    sync_point_metadata: &mut SyncPoints,
    depth: usize,
) -> (result: Result<RbxSnapshotInstance, SnapshotPanic>)
    requires
        node_meets_only(
            decodable(),
            depth as nat,
            imfs@,
            project_node@,
            points_view(*old(sync_point_metadata)),
        ),
    ensures
        node_snapshots(
            depth as nat,
            imfs@,
            instance_name@,
            project_node@,
            points_view(*old(sync_point_metadata)),
            node_result_view(result),
            points_view(*final(sync_point_metadata)),
        ),
    decreases depth, 0nat, 0nat, project_node,
{
    match project_node {
        ProjectNode::Instance(node) => {
            let children: Vec<RbxSnapshotInstance> = Vec::new();
            assert(snapshots_view(children@) =~= Seq::empty());
            let instance = RbxSnapshotInstance {
                name: instance_name.clone(),
                class_name: node.class_name.clone(),
                properties: copy_properties(&node.properties),
                children,
                source_path: None,
                metadata: Some(node.metadata),
            };
            add_children(imfs, &node.children, instance, sync_point_metadata, depth)
        },
        ProjectNode::SyncPoint(node) => {
            if depth == 0 {
                return Err(SnapshotPanic::TooDeep);
            }
            let ghost before = points_view(*sync_point_metadata);
            let own = snapshot_instances_from_imfs(
                imfs,
                &node.path,
                sync_point_metadata,
                depth - 1,
            );
            let ghost mid = points_view(*sync_point_metadata);
            assert(path_snapshots(
                (depth - 1) as nat,
                imfs@,
                node.path.written(),
                before,
                result_view(own),
                mid,
            ));
            assert(step(result_view(own), mid));
            match own {
                Ok(Some(mut snapshot)) => {
                    snapshot.name = instance_name.clone();
                    let metadata = SyncPointMetadata {
                        instance_name: instance_name.clone(),
                        children: copy_children(&node.children),
                    };
                    sync_point_metadata.insert(node.path.clone(), metadata);
                    assert(points_view(*sync_point_metadata) =~= mid.insert(
                        node.path@,
                        metadata@,
                    ));
                    Ok(snapshot)
                },
                Ok(None) => Err(SnapshotPanic::SyncPointEmpty),
                Err(SnapshotFailure::Error(error)) => Err(SnapshotPanic::SyncPointError(error)),
                Err(SnapshotFailure::Panic(panic)) => Err(panic),
            }
        },
    }
}

/// Puts the snapshots of manifest nodes behind the children of an instance.
fn add_children(
    imfs: &Imfs,
    children: &Vec<ProjectChild>,
    base: RbxSnapshotInstance,
    sync_point_metadata: &mut SyncPoints,
    depth: usize,
) -> (result: Result<RbxSnapshotInstance, SnapshotPanic>)
    requires
        children_meet_only(
            decodable(),
            depth as nat,
            imfs@,
            children_view(children@),
            points_view(*old(sync_point_metadata)),
        ),
    ensures
        children_added(
            depth as nat,
            imfs@,
            children_view(children@),
            base@,
            points_view(*old(sync_point_metadata)),
            node_result_view(result),
            points_view(*final(sync_point_metadata)),
        ),
    decreases depth, 0nat, 0nat, children,
{
    let ghost before = points_view(*sync_point_metadata);
    let ghost all = children_view(children@);
    let mut instance = base;
    let mut i: usize = 0;
    assert(all.skip(0) =~= all);
    while i < children.len()
        invariant
            children_meet_only(
                decodable(),
                depth as nat,
                imfs@,
                all.skip(i as int),
                points_view(*sync_point_metadata),
            ),
            before == points_view(*old(sync_point_metadata)),
            i <= children.len(),
            all == children_view(children@),
            all.len() == children.len(),
            forall|result: NodeResult, after: PointsView|
                #[trigger] children_added(
                    depth as nat,
                    imfs@,
                    all.skip(i as int),
                    instance@,
                    points_view(*sync_point_metadata),
                    result,
                    after,
                ) ==> children_added(depth as nat, imfs@, all, base@, before, result, after),
        decreases children.len() - i,
    {
        let child = &children[i];
        let ghost rest = all.skip(i as int);
        assert(rest[0] == all[i as int]);
        assert(rest[0].node == child.node@);
        assert(rest.drop_first() =~= all.skip(i + 1));
        let ghost points = points_view(*sync_point_metadata);
        let ghost snapshot = instance@;
        assert(decreases_to!(children => children@[i as int]));
        let own = construct_project_node(
            imfs,
            &child.name,
            &child.node,
            sync_point_metadata,
            depth,
        );
        let ghost own_view = node_result_view(own);
        let ghost mid = points_view(*sync_point_metadata);
        assert(node_snapshots(
            depth as nat,
            imfs@,
            rest[0].name,
            rest[0].node,
            points,
            own_view,
            mid,
        ));
        assert(node_step(own_view, mid));
        match own {
            Ok(child) => {
                instance.push_child(child);
                assert forall|result: NodeResult, after: PointsView|
                    #[trigger] children_added(
                        depth as nat,
                        imfs@,
                        all.skip(i + 1),
                        instance@,
                        points_view(*sync_point_metadata),
                        result,
                        after,
                    ) implies children_added(
                    depth as nat,
                    imfs@,
                    all,
                    base@,
                    before,
                    result,
                    after,
                ) by {
                    assert(children_added(
                        depth as nat,
                        imfs@,
                        rest,
                        snapshot,
                        points,
                        result,
                        after,
                    ));
                }
            },
            Err(panic) => {
                assert(children_added(
                    depth as nat,
                    imfs@,
                    rest,
                    snapshot,
                    points,
                    own_view,
                    mid,
                ));
                return Err(panic);
            },
        }
        i += 1;
    }
    assert(all.skip(i as int).len() == 0);
    assert(children_added(
        depth as nat,
        imfs@,
        all.skip(i as int),
        instance@,
        points_view(*sync_point_metadata),
        Ok(instance@),
        points_view(*sync_point_metadata),
    ));
    Ok(instance)
}

} // verus!
