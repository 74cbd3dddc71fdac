use rbx_session::failure::{SnapshotError, SnapshotFailure, SnapshotPanic};
use rbx_session::imfs::ImfsFile;
use rbx_session::model::{snapshot_binary_model, snapshot_model, snapshot_xml_model};
use rbx_session::path::{FilePath, PathComponent};
use rbx_session::rbx_snapshot::RbxSnapshotInstance;
use rbx_tree::{RbxId, RbxInstanceProperties, RbxTree, RbxValue};
use std::collections::HashMap;

fn file(name: &str, contents: &[u8]) -> ImfsFile {
    ImfsFile {
        path: FilePath::new(vec![PathComponent::RootDir, PathComponent::Normal(name.to_owned())]),
        contents: contents.to_vec(),
    }
}

fn plain(name: &str, class_name: &str) -> RbxInstanceProperties {
    RbxInstanceProperties {
        name: name.to_owned(),
        class_name: class_name.to_owned(),
        properties: HashMap::new(),
    }
}

fn encoded(tree: &RbxTree, ids: &[RbxId]) -> Vec<u8> {
    let mut bytes = Vec::new();
    rbx_binary::encode(tree, ids, &mut bytes).unwrap();
    bytes
}

#[test]
fn a_binary_model_with_one_root_takes_the_name_of_the_file() {
    let mut tree = RbxTree::new(plain("Root", "Folder"));
    let root = tree.get_root_id();
    let mut value = plain("Inside", "StringValue");
    value.properties.insert("Value".to_owned(), RbxValue::String { value: "text".to_owned() });
    let top = tree.insert_instance(plain("Top", "Model"), root);
    tree.insert_instance(value, top);
    let bytes = encoded(&tree, &[top]);
    let result = snapshot_binary_model("Renamed".to_owned(), &file("a.rbxm", &bytes));
    let snapshot = result.unwrap().unwrap();
    assert_eq!(snapshot.name, "Renamed");
    assert_eq!(snapshot.class_name, "Model");
    assert!(snapshot.source_path.is_none());
    assert!(snapshot.metadata.is_none());
    assert_eq!(snapshot.children.len(), 1);
    let child = &snapshot.children[0];
    assert_eq!(child.name, "Inside");
    assert_eq!(child.class_name, "StringValue");
    assert_eq!(child.properties.len(), 1);
    assert_eq!(child.properties[0].name, "Value");
    assert_eq!(child.properties[0].value, RbxValue::String { value: "text".to_owned() });
    assert!(child.children.is_empty());
}

#[test]
fn a_binary_model_without_roots_gives_nothing() {
    let tree = RbxTree::new(plain("Root", "Folder"));
    let bytes = encoded(&tree, &[]);
    let result = snapshot_binary_model("a".to_owned(), &file("a.rbxm", &bytes));
    assert!(matches!(result, Ok(None)));
}

#[test]
fn a_binary_model_with_two_roots_is_not_survived() {
    let mut tree = RbxTree::new(plain("Root", "Folder"));
    let root = tree.get_root_id();
    let first = tree.insert_instance(plain("First", "Model"), root);
    let second = tree.insert_instance(plain("Second", "Model"), root);
    let bytes = encoded(&tree, &[first, second]);
    let result = snapshot_binary_model("a".to_owned(), &file("a.rbxm", &bytes));
    assert!(matches!(result, Err(SnapshotFailure::Panic(SnapshotPanic::MultipleRoots))));
}

fn instance(name: &str) -> RbxSnapshotInstance {
    RbxSnapshotInstance {
        name: name.to_owned(),
        class_name: "Model".to_owned(),
        properties: Vec::new(),
        children: Vec::new(),
        source_path: None,
        metadata: None,
    }
}

#[test]
fn a_model_is_its_only_instance_under_another_name() {
    assert!(matches!(snapshot_model("a".to_owned(), Vec::new()), Ok(None)));
    let snapshot = snapshot_model("a".to_owned(), vec![instance("Top")]).unwrap().unwrap();
    assert_eq!(snapshot.name, "a");
    assert_eq!(snapshot.class_name, "Model");
    assert!(matches!(
        snapshot_model("a".to_owned(), vec![instance("First"), instance("Second")]),
        Err(SnapshotFailure::Panic(SnapshotPanic::MultipleRoots))
    ));
}

#[test]
fn a_file_without_the_header_is_no_binary_model() {
    let result = snapshot_binary_model("a".to_owned(), &file("a.rbxm", b"not a binary model"));
    match result {
        Err(SnapshotFailure::Error(error)) => {
            assert!(matches!(error, SnapshotError::BinaryModelDecodeError { .. }));
            assert_eq!(
                error.message(),
                "Malformed rbxm model: MissingMagicFileHeader in path /a.rbxm",
            );
        },
        _ => panic!("expected an error"),
    }
}

#[test]
fn an_xml_model_without_items_gives_nothing() {
    let text = "<roblox version=\"4\"></roblox>";
    let result = snapshot_xml_model("a".to_owned(), &file("a.rbxmx", text.as_bytes()));
    assert!(matches!(result, Ok(None)));
}

#[test]
fn an_xml_model_of_another_version_is_an_error() {
    let text = "<roblox version=\"5\"></roblox>";
    let result = snapshot_xml_model("a".to_owned(), &file("a.rbxmx", text.as_bytes()));
    match result {
        Err(SnapshotFailure::Error(error)) => {
            assert!(matches!(error, SnapshotError::XmlModelDecodeError { .. }));
            assert_eq!(
                error.message(),
                "Malformed rbxmx model: Message(\"Not version 4\") in path /a.rbxmx",
            );
        },
        _ => panic!("expected an error"),
    }
}
