use rbx_session::path::{FilePath, PathComponent};
use rbx_session::path_map::PathMap;
use rbx_session::project::InstanceProjectNodeMetadata;
use rbx_session::rbx_snapshot::RbxSnapshotInstance;
use rbx_session::reconcile::reconcile_subtree;
use rbx_session::reify::{reify_root, InstanceChanges};
use rbx_session::value::{properties_same, Property};
use rbx_tree::{RbxId, RbxTree, RbxValue};
use std::collections::HashMap;

fn path(name: &str) -> FilePath {
    FilePath::new(vec![PathComponent::RootDir, PathComponent::Normal(name.to_owned())])
}

fn snap(name: &str, value: &str, children: Vec<RbxSnapshotInstance>) -> RbxSnapshotInstance {
    RbxSnapshotInstance {
        name: name.to_owned(),
        class_name: "Folder".to_owned(),
        properties: vec![Property {
            name: "Value".to_owned(),
            value: RbxValue::String { value: value.to_owned() },
        }],
        children,
        source_path: Some(path(&format!("{}-{}", name, value))),
        metadata: Some(InstanceProjectNodeMetadata { ignore_unknown_instances: value == "keep" }),
    }
}

fn number(id: RbxId) -> u128 {
    u128::from_str_radix(&id.to_string().replace('-', ""), 16).unwrap()
}

fn shape(tree: &RbxTree, id: RbxId) -> String {
    let instance = tree.get_instance(id).unwrap();
    let value = match instance.properties.get("Value") {
        Some(RbxValue::String { value }) => value.clone(),
        _ => "?".to_owned(),
    };
    let children: Vec<String> = instance.get_children_ids().iter().map(|child| shape(tree, *child)).collect();
    format!("{}={}({})", instance.name, value, children.join(","))
}

struct World {
    tree: RbxTree,
    path_map: PathMap<u128>,
    metadata: HashMap<u128, InstanceProjectNodeMetadata>,
}

fn world(snapshot: &RbxSnapshotInstance) -> (World, InstanceChanges) {
    let mut path_map = PathMap::new();
    let mut metadata = HashMap::new();
    let mut changes = InstanceChanges::default();
    let tree = reify_root(snapshot, &mut path_map, &mut metadata, &mut changes);
    (World { tree, path_map, metadata }, changes)
}

fn reconcile(world: &mut World, id: u128, snapshot: &RbxSnapshotInstance) -> InstanceChanges {
    let mut changes = InstanceChanges::default();
    reconcile_subtree(
        &mut world.tree,
        id,
        snapshot,
        &mut world.path_map,
        &mut world.metadata,
        &mut changes,
    );
    changes
}

#[test]
fn a_snapshot_becomes_a_tree() {
    let snapshot = snap("Root", "r", vec![
        snap("A", "1", vec![snap("Deep", "d", vec![])]),
        snap("B", "keep", vec![]),
    ]);
    let (world, changes) = world(&snapshot);
    let root = world.tree.get_root_id();
    assert_eq!(shape(&world.tree, root), "Root=r(A=1(Deep=d()),B=keep())");
    assert_eq!(changes.added.len(), 4);
    assert!(changes.removed.is_empty());
    assert!(changes.updated.is_empty());
    assert!(!changes.is_empty());
    let b = *world.path_map.get(&path("B-keep")).unwrap();
    assert!(changes.added.contains(&b));
    assert!(world.metadata[&b].ignore_unknown_instances);
    assert_eq!(world.path_map.get(&path("Root-r")), Some(&number(root)));
    assert!(!world.metadata[&number(root)].ignore_unknown_instances);
    assert_eq!(world.tree.get_instance(root).unwrap().get_parent_id(), None);
}

#[test]
fn the_same_snapshot_again_changes_nothing() {
    let snapshot = snap("Root", "r", vec![snap("A", "1", vec![]), snap("A", "2", vec![])]);
    let (mut world, _) = world(&snapshot);
    let root = world.tree.get_root_id();
    let before = shape(&world.tree, root);
    let changes = reconcile(&mut world, number(root), &snapshot);
    assert!(changes.is_empty());
    assert!(InstanceChanges::default().is_empty());
    assert_eq!(shape(&world.tree, root), before);
}

#[test]
fn instances_are_updated_in_place() {
    let (mut world, _) = world(&snap("Root", "r", vec![snap("A", "1", vec![]), snap("B", "2", vec![])]));
    let root = world.tree.get_root_id();
    let a = world.tree.get_instance(root).unwrap().get_children_ids()[0];
    let changes = reconcile(
        &mut world,
        number(root),
        &snap("Root", "r", vec![snap("B", "2", vec![]), snap("A", "9", vec![])]),
    );
    assert_eq!(shape(&world.tree, root), "Root=r(A=9(),B=2())");
    assert_eq!(changes.updated.len(), 1);
    assert!(changes.updated.contains(&number(a)));
    assert!(changes.added.is_empty());
    assert!(changes.removed.is_empty());
    assert_eq!(world.path_map.get(&path("A-9")), Some(&number(a)));
}

#[test]
fn instances_come_and_go() {
    let (mut world, _) = world(&snap("Root", "r", vec![
        snap("A", "1", vec![snap("Inner", "i", vec![])]),
        snap("B", "2", vec![]),
    ]));
    let root = world.tree.get_root_id();
    let a = world.tree.get_instance(root).unwrap().get_children_ids()[0];
    let inner = world.tree.get_instance(a).unwrap().get_children_ids()[0];
    let changes = reconcile(
        &mut world,
        number(root),
        &snap("Root", "r", vec![snap("C", "3", vec![snap("New", "n", vec![])]), snap("B", "2", vec![])]),
    );
    assert_eq!(shape(&world.tree, root), "Root=r(B=2(),C=3(New=n()))");
    assert_eq!(changes.removed.len(), 2);
    assert!(changes.removed.contains(&number(a)));
    assert!(changes.removed.contains(&number(inner)));
    assert_eq!(changes.added.len(), 2);
    assert!(changes.updated.is_empty());
    assert!(world.tree.get_instance(a).is_none());
    assert!(world.tree.get_instance(inner).is_none());
    assert!(!world.metadata.contains_key(&number(a)));
    assert!(!world.metadata.contains_key(&number(inner)));
    let c = world.tree.get_instance(root).unwrap().get_children_ids()[1];
    assert!(changes.added.contains(&number(c)));
    assert_eq!(world.path_map.get(&path("C-3")), Some(&number(c)));
    assert!(world.metadata.contains_key(&number(c)));
}

#[test]
fn children_of_one_name_are_paired_in_order() {
    let (mut world, _) = world(&snap("Root", "r", vec![
        snap("A", "1", vec![]),
        snap("A", "2", vec![]),
        snap("A", "3", vec![]),
    ]));
    let root = world.tree.get_root_id();
    let third = world.tree.get_instance(root).unwrap().get_children_ids()[2];
    let changes = reconcile(
        &mut world,
        number(root),
        &snap("Root", "r", vec![snap("A", "1", vec![]), snap("A", "2", vec![])]),
    );
    assert_eq!(shape(&world.tree, root), "Root=r(A=1(),A=2())");
    assert_eq!(changes.removed.len(), 1);
    assert!(changes.removed.contains(&number(third)));
    assert!(changes.updated.is_empty());
}

#[test]
fn only_the_branch_in_question_is_touched() {
    let (mut world, _) = world(&snap("Root", "r", vec![
        snap("A", "1", vec![snap("Inner", "i", vec![])]),
        snap("B", "2", vec![snap("Other", "o", vec![])]),
    ]));
    let root = world.tree.get_root_id();
    let a = world.tree.get_instance(root).unwrap().get_children_ids()[0];
    let changes = reconcile(&mut world, number(a), &snap("Renamed", "x", vec![]));
    assert_eq!(shape(&world.tree, root), "Root=r(Renamed=x(),B=2(Other=o()))");
    assert_eq!(changes.removed.len(), 1);
    assert_eq!(changes.updated.len(), 1);
    assert_eq!(world.tree.get_instance(a).unwrap().get_parent_id(), Some(root));
}

#[test]
fn a_property_that_is_gone_is_a_change() {
    let (mut world, _) = world(&snap("Root", "r", vec![]));
    let root = world.tree.get_root_id();
    let mut bare = snap("Root", "r", vec![]);
    bare.properties = Vec::new();
    let changes = reconcile(&mut world, number(root), &bare);
    assert!(changes.updated.contains(&number(root)));
    assert!(world.tree.get_instance(root).unwrap().properties.is_empty());
}

#[test]
fn properties_are_compared_by_value() {
    let one = |value: RbxValue| vec![Property { name: "P".to_owned(), value }];
    assert!(properties_same(
        &one(RbxValue::Bool { value: true }),
        &one(RbxValue::Bool { value: true }),
    ));
    assert!(!properties_same(
        &one(RbxValue::Bool { value: true }),
        &one(RbxValue::String { value: "true".to_owned() }),
    ));
    assert!(!properties_same(&one(RbxValue::Bool { value: true }), &Vec::new()));
    assert!(!properties_same(&Vec::new(), &one(RbxValue::Bool { value: true })));
    let text = |value: &str| one(RbxValue::String { value: value.to_owned() });
    assert!(properties_same(&text("a"), &text("a")));
    assert!(!properties_same(&text("a"), &text("b")));
    let nan = RbxValue::Vector3 { value: [0.0, f64::NAN, 0.0] };
    assert!(!properties_same(&one(nan.clone()), &one(nan)));
}

#[test]
fn a_snapshot_in_another_order_settles_at_once() {
    let (mut world, _) = world(&snap("Root", "r", vec![snap("B", "1", vec![]), snap("A", "2", vec![])]));
    let root = world.tree.get_root_id();
    let wanted = snap("Root", "r", vec![
        snap("A", "2", vec![]),
        snap("C", "3", vec![]),
        snap("B", "1", vec![]),
        snap("A", "4", vec![]),
    ]);
    let changes = reconcile(&mut world, number(root), &wanted);
    assert_eq!(changes.added.len(), 2);
    assert!(changes.updated.is_empty());
    assert_eq!(shape(&world.tree, root), "Root=r(B=1(),A=2(),C=3(),A=4())");
    assert!(reconcile(&mut world, number(root), &wanted).is_empty());
}
