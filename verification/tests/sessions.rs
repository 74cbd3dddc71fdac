use rbx_session::failure::{SnapshotError, SnapshotFailure, SnapshotPanic};
use rbx_session::imfs::{Imfs, ImfsDirectory, ImfsFile, ImfsItem};
use rbx_session::path::{FilePath, PathComponent};
use rbx_session::project::{
    InstanceProjectNode, InstanceProjectNodeMetadata, Project, ProjectChild, ProjectNode,
    SyncPointProjectNode,
};
use rbx_session::session::{
    checked_oneoff_tree, construct_oneoff_tree, CheckedRename, RbxSession, UpdatePanic,
};
use rbx_tree::{RbxId, RbxTree, RbxValue};

fn path(text: &str) -> FilePath {
    let mut components = Vec::new();
    if text.starts_with('/') {
        components.push(PathComponent::RootDir);
    }
    for name in text.split('/') {
        if !name.is_empty() {
            components.push(PathComponent::Normal(name.to_owned()));
        }
    }
    FilePath::new(components)
}

// A file system with the given files below `/src`, and all directories on the way.
fn source(files: &[(&str, &str)]) -> Imfs {
    let mut dirs: Vec<(String, Vec<String>)> = vec![("/src".to_owned(), Vec::new())];
    let mut imfs = Imfs::new(vec![path("/src"), path("/empty")]);
    for (place, contents) in files {
        let mut above = "/src".to_owned();
        let rest = place.strip_prefix("/src/").unwrap();
        for name in rest.split('/') {
            let at = dirs.iter().position(|(dir, _)| *dir == above).unwrap();
            if !dirs[at].1.contains(&name.to_owned()) {
                dirs[at].1.push(name.to_owned());
            }
            above = format!("{}/{}", above, name);
            if above != *place && !dirs.iter().any(|(dir, _)| *dir == above) {
                dirs.push((above.clone(), Vec::new()));
            }
        }
        imfs.insert(ImfsItem::File(ImfsFile { path: path(place), contents: contents.as_bytes().to_vec() }));
    }
    for (dir, names) in dirs {
        let children = names.iter().map(|name| path(&dir).join(name)).collect();
        imfs.insert(ImfsItem::Directory(ImfsDirectory { path: path(&dir), children }));
    }
    imfs
}

fn project() -> Project {
    Project {
        name: "Game".to_owned(),
        tree: ProjectNode::Instance(InstanceProjectNode {
            class_name: "DataModel".to_owned(),
            children: vec![ProjectChild {
                name: "Lib".to_owned(),
                node: ProjectNode::SyncPoint(SyncPointProjectNode {
                    path: path("/src"),
                    children: Vec::new(),
                }),
            }],
            properties: Vec::new(),
            metadata: InstanceProjectNodeMetadata { ignore_unknown_instances: true },
        }),
    }
}

fn describe(tree: &RbxTree, id: RbxId) -> String {
    let instance = tree.get_instance(id).unwrap();
    let source = match instance.properties.get("Source") {
        Some(RbxValue::String { value }) => format!("={}", value),
        _ => String::new(),
    };
    let children: Vec<String> = instance.get_children_ids().iter().map(|child| describe(tree, *child)).collect();
    format!("{}:{}{}({})", instance.name, instance.class_name, source, children.join(","))
}

fn whole(session: &RbxSession) -> String {
    describe(session.get_tree(), session.get_tree().get_root_id())
}

fn number(id: RbxId) -> u128 {
    u128::from_str_radix(&id.to_string().replace('-', ""), 16).unwrap()
}

#[test]
fn a_session_starts_with_the_tree_of_its_project() {
    let imfs = source(&[("/src/a.lua", "1"), ("/src/sub/b.server.lua", "2")]);
    let session = RbxSession::new(&project(), &imfs).unwrap();
    assert_eq!(
        whole(&session),
        "Game:DataModel(Lib:Folder(a:ModuleScript=1(),sub:Folder(b:Script=2())))",
    );
    let root = number(session.get_tree().get_root_id());
    assert!(session.get_instance_metadata_map()[&root].ignore_unknown_instances);
    assert_eq!(session.get_instance_metadata_map().len(), 1);
    let paths = session.debug_get_path_map();
    assert!(paths.get(&path("/src")).is_some());
    assert!(paths.get(&path("/src/a.lua")).is_some());
    assert!(paths.get(&path("/src/sub/b.server.lua")).is_some());
    assert!(paths.get(&path("/")).is_none());
}

#[test]
fn a_tree_can_be_had_without_a_session() {
    let imfs = source(&[("/src/a.lua", "1")]);
    let tree = construct_oneoff_tree(&project(), &imfs).unwrap();
    assert_eq!(
        describe(&tree, tree.get_root_id()),
        "Game:DataModel(Lib:Folder(a:ModuleScript=1()))",
    );
}

#[test]
fn a_project_that_leads_nowhere_starts_no_session() {
    let imfs = Imfs::new(vec![path("/src")]);
    assert!(matches!(
        RbxSession::new(&project(), &imfs),
        Err(SnapshotPanic::SyncPointError(SnapshotError::DidNotExist(_)))
    ));
    assert!(matches!(construct_oneoff_tree(&project(), &imfs), Err(SnapshotPanic::SyncPointError(_))));
}

#[test]
fn a_changed_file_changes_its_instance() {
    let mut session = RbxSession::new(&project(), &source(&[("/src/a.lua", "1"), ("/src/b.lua", "2")])).unwrap();
    let a = *session.debug_get_path_map().get(&path("/src/a.lua")).unwrap();
    let imfs = source(&[("/src/a.lua", "9"), ("/src/b.lua", "2")]);
    let changes = session.path_updated(&imfs, &path("/src/a.lua")).unwrap().unwrap();
    assert_eq!(changes.updated.len(), 1);
    assert!(changes.updated.contains(&a));
    assert!(changes.added.is_empty());
    assert!(changes.removed.is_empty());
    assert_eq!(whole(&session), "Game:DataModel(Lib:Folder(a:ModuleScript=9(),b:ModuleScript=2()))");
    assert!(session.path_updated(&imfs, &path("/src/a.lua")).unwrap().is_none());
}

#[test]
fn updates_of_directories_and_missing_paths_are_ignored() {
    let mut session = RbxSession::new(&project(), &source(&[("/src/a.lua", "1")])).unwrap();
    let imfs = source(&[("/src/a.lua", "9"), ("/src/new.lua", "2")]);
    assert!(session.path_updated(&imfs, &path("/src")).unwrap().is_none());
    assert!(session.path_updated(&imfs, &path("/src/none.lua")).unwrap().is_none());
    assert!(session.path_updated(&imfs, &path("/outside")).unwrap().is_none());
    assert_eq!(whole(&session), "Game:DataModel(Lib:Folder(a:ModuleScript=1()))");
}

#[test]
fn a_created_file_becomes_a_child() {
    let mut session = RbxSession::new(&project(), &source(&[("/src/a.lua", "1")])).unwrap();
    let imfs = source(&[("/src/a.lua", "1"), ("/src/deep/down/b.lua", "2")]);
    let changes = session.path_created(&imfs, &path("/src/deep/down/b.lua")).unwrap().unwrap();
    assert_eq!(changes.added.len(), 3);
    assert!(changes.updated.is_empty());
    assert_eq!(
        whole(&session),
        "Game:DataModel(Lib:Folder(a:ModuleScript=1(),deep:Folder(down:Folder(b:ModuleScript=2()))))",
    );
    let b = *session.debug_get_path_map().get(&path("/src/deep/down/b.lua")).unwrap();
    assert!(changes.added.contains(&b));
}

#[test]
fn a_file_that_stands_for_nothing_announces_nothing() {
    let mut session = RbxSession::new(&project(), &source(&[("/src/a.lua", "1")])).unwrap();
    let imfs = source(&[("/src/a.lua", "1"), ("/src/README.md", "#")]);
    assert!(session.path_created(&imfs, &path("/src/README.md")).unwrap().is_none());
}

#[test]
fn a_removed_file_takes_its_instance_along() {
    let mut session = RbxSession::new(
        &project(),
        &source(&[("/src/a.lua", "1"), ("/src/sub/b.lua", "2")]),
    ).unwrap();
    let sub = *session.debug_get_path_map().get(&path("/src/sub")).unwrap();
    let b = *session.debug_get_path_map().get(&path("/src/sub/b.lua")).unwrap();
    let imfs = source(&[("/src/a.lua", "1")]);
    let changes = session.path_removed(&imfs, &path("/src/sub")).unwrap().unwrap();
    assert_eq!(changes.removed.len(), 2);
    assert!(changes.removed.contains(&sub));
    assert!(changes.removed.contains(&b));
    assert_eq!(whole(&session), "Game:DataModel(Lib:Folder(a:ModuleScript=1()))");
    assert!(session.debug_get_path_map().get(&path("/src/sub")).is_none());
    assert!(session.debug_get_path_map().get(&path("/src/sub/b.lua")).is_none());
    assert!(session.debug_get_path_map().get(&path("/src/a.lua")).is_some());
}

#[test]
fn a_renamed_file_goes_and_comes_in_one() {
    let mut session = RbxSession::new(&project(), &source(&[("/src/a.lua", "1")])).unwrap();
    let a = *session.debug_get_path_map().get(&path("/src/a.lua")).unwrap();
    let imfs = source(&[("/src/b.lua", "1")]);
    let messages = session.path_renamed(&imfs, &path("/src/a.lua"), &path("/src/b.lua")).unwrap();
    assert_eq!(messages.len(), 1);
    assert!(messages[0].removed.contains(&a));
    assert_eq!(messages[0].added.len(), 1);
    assert_eq!(whole(&session), "Game:DataModel(Lib:Folder(b:ModuleScript=1()))");
    assert!(session.debug_get_path_map().get(&path("/src/a.lua")).is_none());
}

#[test]
fn an_init_script_concerns_its_directory() {
    let mut session = RbxSession::new(
        &project(),
        &source(&[("/src/lib/init.lua", "1"), ("/src/lib/x.lua", "x")]),
    ).unwrap();
    assert_eq!(
        whole(&session),
        "Game:DataModel(Lib:Folder(lib:ModuleScript=1(x:ModuleScript=x())))",
    );
    let lib = *session.debug_get_path_map().get(&path("/src/lib/init.lua")).unwrap();
    assert!(session.debug_get_path_map().get(&path("/src/lib")).is_none());
    let imfs = source(&[("/src/lib/init.lua", "9"), ("/src/lib/x.lua", "x")]);
    let changes = session.path_updated(&imfs, &path("/src/lib/init.lua")).unwrap().unwrap();
    assert_eq!(changes.updated.len(), 1);
    assert!(changes.updated.contains(&lib));
    assert_eq!(
        whole(&session),
        "Game:DataModel(Lib:Folder(lib:ModuleScript=9(x:ModuleScript=x())))",
    );
}

#[test]
fn an_init_script_of_the_root_is_snapshot_as_its_directory() {
    let mut session = RbxSession::new(
        &project(),
        &source(&[("/src/a.lua", "1")]),
    ).unwrap();
    let imfs = source(&[("/src/a.lua", "1"), ("/src/init.server.lua", "s")]);
    let changes = session.path_created(&imfs, &path("/src/init.server.lua")).unwrap().unwrap();
    assert_eq!(changes.updated.len(), 1);
    assert_eq!(whole(&session), "Game:DataModel(Lib:Script=s(a:ModuleScript=1()))");
    let imfs = source(&[("/src/a.lua", "1"), ("/src/init.server.lua", "t")]);
    let changes = session.path_updated(&imfs, &path("/src/init.server.lua")).unwrap().unwrap();
    assert_eq!(changes.updated.len(), 1);
    assert_eq!(whole(&session), "Game:DataModel(Lib:Script=t(a:ModuleScript=1()))");
}

#[test]
fn the_name_from_the_manifest_survives_updates() {
    let mut session = RbxSession::new(&project(), &source(&[("/src/a.lua", "1")])).unwrap();
    let imfs = source(&[("/src/a.lua", "1"), ("/src/b.lua", "2")]);
    session.path_created(&imfs, &path("/src/b.lua")).unwrap();
    assert_eq!(whole(&session), "Game:DataModel(Lib:Folder(a:ModuleScript=1(),b:ModuleScript=2()))");
}

#[test]
fn a_path_outside_of_the_roots_is_not_survived() {
    let imfs = source(&[("/src/a.lua", "1")]);
    let mut session = RbxSession::new(&project(), &imfs).unwrap();
    assert!(matches!(session.path_created(&imfs, &path("/other/a.lua")), Err(UpdatePanic::OutsideRoots)));
    assert!(matches!(session.path_removed(&imfs, &path("/other")), Err(UpdatePanic::OutsideRoots)));
    let failure = session.path_renamed(&imfs, &path("/other/a"), &path("/src/a.lua")).unwrap_err();
    assert!(failure.messages.is_empty());
    assert!(matches!(failure.panic, UpdatePanic::OutsideRoots));
}

#[test]
fn a_renaming_that_fails_halfway_still_has_its_first_changes() {
    let mut session = RbxSession::new(&project(), &source(&[("/src/a.lua", "1"), ("/src/b.lua", "2")])).unwrap();
    let a = *session.debug_get_path_map().get(&path("/src/a.lua")).unwrap();
    let imfs = source(&[("/src/b.lua", "2")]);
    let failure = session.path_renamed(&imfs, &path("/src/a.lua"), &path("/other/a.lua")).unwrap_err();
    assert!(matches!(failure.panic, UpdatePanic::OutsideRoots));
    assert_eq!(failure.messages.len(), 1);
    assert!(failure.messages[0].removed.contains(&a));
    assert_eq!(whole(&session), "Game:DataModel(Lib:Folder(b:ModuleScript=2()))");
}

#[test]
fn a_damaged_model_that_is_not_met_does_no_harm() {
    let mut session = RbxSession::new(&project(), &source(&[("/src/a.lua", "1")])).unwrap();
    let mut imfs = source(&[("/src/a.lua", "2"), ("/src/m.rbxm", "")]);
    imfs.insert(ImfsItem::File(ImfsFile {
        path: path("/src/m.rbxm"),
        contents: b"<roblox!\x89\xff\x0d\x0a\x1a\x0a\x00\x00".to_vec(),
    }));
    assert!(session.path_updated(&imfs, &path("/src")).unwrap().is_none());
    let changes = session.path_updated(&imfs, &path("/src/a.lua")).unwrap().unwrap();
    assert_eq!(changes.updated.len(), 1);
    assert!(matches!(session.path_created(&imfs, &path("/other")), Err(UpdatePanic::OutsideRoots)));
}

#[test]
fn a_removed_path_is_not_noted_again() {
    let mut session = RbxSession::new(&project(), &source(&[("/src/a.lua", "1"), ("/src/b.lua", "2")])).unwrap();
    let imfs = source(&[("/src/b.lua", "2")]);
    session.path_removed(&imfs, &path("/src/a.lua")).unwrap();
    assert!(session.debug_get_path_map().get(&path("/src/a.lua")).is_none());
    let imfs = source(&[("/src/a.lua", "3"), ("/src/b.lua", "2")]);
    session.path_removed(&imfs, &path("/src/a.lua")).unwrap();
    assert!(session.debug_get_path_map().get(&path("/src/a.lua")).is_some());
}

#[test]
fn a_root_without_an_instance_is_not_survived() {
    let imfs = source(&[("/src/a.lua", "1")]);
    let mut session = RbxSession::new(&project(), &imfs).unwrap();
    assert!(matches!(session.path_created(&imfs, &path("/empty/a.lua")), Err(UpdatePanic::NoInstance)));
}

#[test]
fn a_snapshot_that_fails_is_not_survived() {
    let mut session = RbxSession::new(&project(), &source(&[("/src/a.lua", "1")])).unwrap();
    let imfs = Imfs::new(vec![path("/src")]);
    assert!(matches!(
        session.path_created(&imfs, &path("/src/a.lua")),
        Err(UpdatePanic::Snapshot {
            failure: SnapshotFailure::Error(SnapshotError::DidNotExist(_)),
            ..
        })
    ));
    match session.path_created(&imfs, &path("/src/a.lua")) {
        Err(UpdatePanic::Snapshot { path, .. }) => assert_eq!(path.display(), "/src/a.lua"),
        _ => panic!("expected a failure"),
    }
    assert_eq!(whole(&session), "Game:DataModel(Lib:Folder(a:ModuleScript=1()))");
}

#[test]
fn an_instance_that_has_gone_unnoticed_is_not_survived() {
    let first = source(&[("/src/a/b.lua", "1")]);
    let mut session = RbxSession::new(&project(), &first).unwrap();
    let without = source(&[("/src/new.lua", "n")]);
    session.path_created(&without, &path("/src/new.lua")).unwrap();
    assert_eq!(whole(&session), "Game:DataModel(Lib:Folder(new:ModuleScript=n()))");
    assert!(matches!(
        session.path_created(&first, &path("/src/a/b.lua")),
        Err(UpdatePanic::MissingInstance)
    ));
}

#[test]
fn the_checked_forms_do_the_same_where_there_are_no_binary_models() {
    let imfs = source(&[("/src/a.lua", "1")]);
    let mut session = RbxSession::checked_new(&project(), &imfs).unwrap().unwrap();
    assert!(checked_oneoff_tree(&project(), &imfs).unwrap().is_ok());
    let imfs = source(&[("/src/a.lua", "2"), ("/src/b.lua", "3")]);
    let changes = session.checked_path_updated(&imfs, &path("/src/a.lua")).unwrap().unwrap().unwrap();
    assert_eq!(changes.updated.len(), 1);
    let changes = session.checked_path_created(&imfs, &path("/src/b.lua")).unwrap().unwrap().unwrap();
    assert_eq!(changes.added.len(), 1);
    let imfs = source(&[("/src/c.lua", "3")]);
    match session.checked_path_renamed(&imfs, &path("/src/b.lua"), &path("/src/c.lua")) {
        CheckedRename::Done(Ok(messages)) => assert_eq!(messages.len(), 1),
        _ => panic!("expected the renaming to be done"),
    }
    let imfs = source(&[]);
    let changes = session.checked_path_removed(&imfs, &path("/src/c.lua")).unwrap().unwrap().unwrap();
    assert_eq!(changes.removed.len(), 1);
    assert_eq!(whole(&session), "Game:DataModel(Lib:Folder())");
}

fn put_framed_model(imfs: &mut Imfs, place: &str) {
    imfs.insert(ImfsItem::File(ImfsFile {
        path: path(place),
        contents: b"<roblox!\x89\xff\x0d\x0a\x1a\x0a\x00\x00".to_vec(),
    }));
}

#[test]
fn the_checked_forms_leave_framed_binary_models_alone() {
    let mut session = RbxSession::new(&project(), &source(&[("/src/a.lua", "1")])).unwrap();
    let mut imfs = source(&[("/src/a.lua", "2"), ("/src/b.lua", "3"), ("/src/m.rbxm", "")]);
    put_framed_model(&mut imfs, "/src/m.rbxm");
    assert!(RbxSession::checked_new(&project(), &imfs).is_none());
    assert!(checked_oneoff_tree(&project(), &imfs).is_none());
    assert!(session.checked_path_created(&imfs, &path("/src/b.lua")).is_none());
    assert!(session.checked_path_updated(&imfs, &path("/src/b.lua")).is_none());
    assert!(session.checked_path_removed(&imfs, &path("/src/a.lua")).is_none());
    assert!(matches!(
        session.checked_path_renamed(&imfs, &path("/src/a.lua"), &path("/src/b.lua")),
        CheckedRename::Refused
    ));
    assert_eq!(whole(&session), "Game:DataModel(Lib:Folder(a:ModuleScript=1()))");
}

#[test]
fn the_checked_forms_go_on_where_no_framed_binary_model_is_met() {
    let mut session = RbxSession::new(&project(), &source(&[("/src/a.lua", "1")])).unwrap();
    let mut imfs = source(&[("/src/a.lua", "2"), ("/src/m.rbxm", "")]);
    put_framed_model(&mut imfs, "/src/m.rbxm");
    put_framed_model(&mut imfs, "/elsewhere.rbxm");
    let changes = session.checked_path_updated(&imfs, &path("/src/a.lua")).unwrap().unwrap().unwrap();
    assert_eq!(changes.updated.len(), 1);
    assert!(matches!(session.checked_path_updated(&imfs, &path("/src")), Some(Ok(None))));
    assert!(matches!(
        session.checked_path_created(&imfs, &path("/other")),
        Some(Err(UpdatePanic::OutsideRoots))
    ));
    assert_eq!(whole(&session), "Game:DataModel(Lib:Folder(a:ModuleScript=2()))");
    let mut imfs = source(&[("/src/a.lua", "1")]);
    put_framed_model(&mut imfs, "/elsewhere.rbxm");
    assert!(RbxSession::checked_new(&project(), &imfs).is_some());
    assert!(checked_oneoff_tree(&project(), &imfs).is_some());
}

#[test]
fn a_checked_renaming_can_stop_halfway() {
    let first = source(&[("/src/d/a.lua", "1"), ("/src/e.lua", "2")]);
    let mut session = RbxSession::new(&project(), &first).unwrap();
    let mut imfs = source(&[("/src/e.lua", "2"), ("/src/d/b.lua", "1"), ("/src/m.rbxm", "")]);
    put_framed_model(&mut imfs, "/src/m.rbxm");
    match session.checked_path_renamed(&imfs, &path("/src/d/a.lua"), &path("/src/new.lua")) {
        CheckedRename::Halfway(messages) => {
            assert_eq!(messages.len(), 1);
            assert_eq!(messages[0].added.len(), 1);
            assert_eq!(messages[0].removed.len(), 1);
        },
        _ => panic!("expected the renaming to stop halfway"),
    }
    assert_eq!(
        whole(&session),
        "Game:DataModel(Lib:Folder(d:Folder(b:ModuleScript=1()),e:ModuleScript=2()))"
    );
}

#[test]
fn a_framed_model_behind_a_failure_is_not_met() {
    let mut imfs = source(&[("/src/a.lua", ""), ("/src/m.rbxm", "")]);
    imfs.insert(ImfsItem::File(ImfsFile { path: path("/src/a.lua"), contents: vec![255] }));
    put_framed_model(&mut imfs, "/src/m.rbxm");
    assert!(matches!(
        RbxSession::checked_new(&project(), &imfs),
        Some(Err(SnapshotPanic::SyncPointError(SnapshotError::Utf8Error { .. })))
    ));
    assert!(matches!(
        construct_oneoff_tree(&project(), &imfs),
        Err(SnapshotPanic::SyncPointError(SnapshotError::Utf8Error { .. }))
    ));
}

// The shape of a tree, with the children of each instance in the order of their shapes.
fn sorted_shape(tree: &RbxTree, id: RbxId) -> String {
    let instance = tree.get_instance(id).unwrap();
    let mut below: Vec<String> =
        instance.get_children_ids().iter().map(|child| sorted_shape(tree, *child)).collect();
    below.sort();
    format!("{}:{}({})", instance.name, instance.class_name, below.join(","))
}

#[test]
fn a_session_starts_with_the_one_off_tree_but_for_the_order_of_siblings() {
    let mut model = RbxTree::new(rbx_tree::RbxInstanceProperties {
        name: "Top".to_owned(),
        class_name: "Model".to_owned(),
        properties: std::collections::HashMap::new(),
    });
    let root = model.get_root_id();
    for name in &["A", "B", "C", "D", "E"] {
        model.insert_instance(
            rbx_tree::RbxInstanceProperties {
                name: (*name).to_owned(),
                class_name: "Part".to_owned(),
                properties: std::collections::HashMap::new(),
            },
            root,
        );
    }
    let mut bytes = Vec::new();
    rbx_binary::encode(&model, &[root], &mut bytes).unwrap();
    let mut imfs = source(&[("/src/a.lua", "1"), ("/src/m.rbxm", "")]);
    imfs.insert(ImfsItem::File(ImfsFile { path: path("/src/m.rbxm"), contents: bytes }));
    let session = RbxSession::new(&project(), &imfs).unwrap();
    let one = construct_oneoff_tree(&project(), &imfs).unwrap();
    let other = construct_oneoff_tree(&project(), &imfs).unwrap();
    let wanted = "Game:DataModel(Lib:Folder(a:ModuleScript(),\
        m:Model(A:Part(),B:Part(),C:Part(),D:Part(),E:Part())))";
    assert_eq!(sorted_shape(session.get_tree(), session.get_tree().get_root_id()), wanted);
    assert_eq!(sorted_shape(&one, one.get_root_id()), wanted);
    assert_eq!(sorted_shape(&other, other.get_root_id()), wanted);
}

#[test]
fn a_session_that_does_not_start_fails_as_the_one_off_tree_does() {
    let mut imfs = source(&[("/src/a.lua", "")]);
    imfs.insert(ImfsItem::File(ImfsFile { path: path("/src/a.lua"), contents: vec![97, 98, 200] }));
    match (RbxSession::new(&project(), &imfs), construct_oneoff_tree(&project(), &imfs)) {
        (Err(SnapshotPanic::SyncPointError(one)), Err(SnapshotPanic::SyncPointError(other))) => {
            assert_eq!(one.message(), other.message());
            assert_eq!(
                one.message(),
                "Invalid UTF-8: incomplete utf-8 byte sequence from index 2 in path /src/a.lua",
            );
        },
        _ => panic!("expected two failures"),
    }
}
