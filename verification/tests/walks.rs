use rbx_session::failure::{SnapshotError, SnapshotFailure, SnapshotPanic};
use rbx_session::imfs::{Imfs, ImfsDirectory, ImfsFile, ImfsItem};
use rbx_session::path::{FilePath, PathComponent, Separator};
use rbx_session::project::{
    InstanceProjectNode, InstanceProjectNodeMetadata, ProjectChild, ProjectNode,
    SyncPointProjectNode,
};
use rbx_session::rbx_snapshot::RbxSnapshotInstance;
use rbx_session::snapshots::{construct_project_node, snapshot_instances_from_imfs};
use rbx_session::sync_point::{SyncPointMetadata, SyncPoints};
use rbx_session::value::Property;
use rbx_tree::RbxValue;

fn path(text: &str) -> FilePath {
    let mut components = Vec::new();
    if text.starts_with('/') {
        components.push(PathComponent::RootDir);
    }
    for name in text.split('/') {
        if !name.is_empty() {
            components.push(PathComponent::Normal(name.to_owned()));
        }
    }
    FilePath::new(components)
}

fn put_file(imfs: &mut Imfs, place: &str, contents: &str) {
    imfs.insert(ImfsItem::File(ImfsFile { path: path(place), contents: contents.as_bytes().to_vec() }));
}

fn put_dir(imfs: &mut Imfs, place: &str, names: &[&str]) {
    let children = names.iter().map(|name| path(place).join(name)).collect();
    imfs.insert(ImfsItem::Directory(ImfsDirectory { path: path(place), children }));
}

fn take(imfs: &Imfs, place: &str, points: &mut SyncPoints) -> Result<Option<RbxSnapshotInstance>, SnapshotFailure> {
    snapshot_instances_from_imfs(imfs, &path(place), points, usize::MAX)
}

fn shape(snapshot: &RbxSnapshotInstance) -> String {
    let children: Vec<String> = snapshot.children.iter().map(|child| shape(child)).collect();
    format!("{}:{}({})", snapshot.name, snapshot.class_name, children.join(","))
}

fn text(value: &str) -> RbxValue {
    RbxValue::String { value: value.to_owned() }
}

fn sync_point(place: &str, children: Vec<ProjectChild>) -> ProjectNode {
    ProjectNode::SyncPoint(SyncPointProjectNode { path: path(place), children })
}

fn described(class_name: &str, children: Vec<ProjectChild>) -> ProjectNode {
    ProjectNode::Instance(InstanceProjectNode {
        class_name: class_name.to_owned(),
        children,
        properties: vec![Property { name: "P".to_owned(), value: text("v") }],
        metadata: InstanceProjectNodeMetadata { ignore_unknown_instances: true },
    })
}

fn child(name: &str, node: ProjectNode) -> ProjectChild {
    ProjectChild { name: name.to_owned(), node }
}

#[test]
fn a_script_becomes_an_instance_with_its_source() {
    let mut imfs = Imfs::new(vec![path("/src")]);
    put_file(&mut imfs, "/src/a.server.lua", "print('hi')");
    let snapshot = take(&imfs, "/src/a.server.lua", &mut SyncPoints::new()).unwrap().unwrap();
    assert_eq!(shape(&snapshot), "a:Script()");
    assert_eq!(snapshot.properties.len(), 1);
    assert_eq!(snapshot.properties[0].name, "Source");
    assert_eq!(snapshot.properties[0].value, text("print('hi')"));
    assert_eq!(snapshot.source_path.as_ref().unwrap().display(), "/src/a.server.lua");
    assert!(snapshot.metadata.is_none());
}

#[test]
fn every_kind_of_text_file_has_its_class_and_property() {
    let mut imfs = Imfs::new(Vec::new());
    put_file(&mut imfs, "/a.lua", "m");
    put_file(&mut imfs, "/a.client.lua", "c");
    put_file(&mut imfs, "/a.txt", "t");
    put_file(&mut imfs, "/a.csv", "Key,Source,Context,Example\nk,s,c,e\n");
    let cases = [
        ("/a.lua", "ModuleScript", "Source", "m"),
        ("/a.client.lua", "LocalScript", "Source", "c"),
        ("/a.txt", "StringValue", "Value", "t"),
        (
            "/a.csv",
            "LocalizationTable",
            "Contents",
            "[{\"key\":\"k\",\"context\":\"c\",\"example\":\"e\",\"source\":\"s\",\"values\":{}}]",
        ),
    ];
    for (place, class_name, property, contents) in cases.iter() {
        let snapshot = take(&imfs, place, &mut SyncPoints::new()).unwrap().unwrap();
        assert_eq!(snapshot.name, "a");
        assert_eq!(snapshot.class_name, *class_name);
        assert_eq!(snapshot.properties.len(), 1);
        assert_eq!(snapshot.properties[0].name, *property);
        assert_eq!(snapshot.properties[0].value, text(contents));
    }
}

#[test]
fn other_files_give_no_snapshot() {
    let mut imfs = Imfs::new(Vec::new());
    put_file(&mut imfs, "/README.md", "#");
    assert!(matches!(take(&imfs, "/README.md", &mut SyncPoints::new()), Ok(None)));
}

#[test]
fn a_path_without_an_entry_is_an_error() {
    let imfs = Imfs::new(Vec::new());
    match take(&imfs, "/none/here", &mut SyncPoints::new()) {
        Err(SnapshotFailure::Error(error)) => {
            assert!(matches!(error, SnapshotError::DidNotExist(_)));
            assert_eq!(error.message(), "Path did not exist: /none/here");
        },
        _ => panic!("expected an error"),
    }
}

#[test]
fn paths_in_errors_are_written_as_they_were_given() {
    let doubled = FilePath {
        components: path("/d/a.lua").components,
        pieces: vec!["/".to_owned(), "/d".to_owned(), "//./a.lua".to_owned()],
        rest: "/".to_owned(),
        separator: Separator::Slash,
    };
    let mut imfs = Imfs::new(Vec::new());
    let mut points = SyncPoints::new();
    match snapshot_instances_from_imfs(&imfs, &doubled, &mut points, usize::MAX) {
        Err(SnapshotFailure::Error(error)) => {
            assert_eq!(error.message(), "Path did not exist: //d//./a.lua/");
        },
        _ => panic!("expected an error"),
    }
    imfs.insert(ImfsItem::Directory(ImfsDirectory {
        path: path("/d"),
        children: vec![doubled.clone()],
    }));
    match take(&imfs, "/d", &mut points) {
        Err(SnapshotFailure::Error(error)) => {
            assert_eq!(error.message(), "Path did not exist: //d//./a.lua/");
        },
        _ => panic!("expected an error"),
    }
    imfs.insert(ImfsItem::File(ImfsFile { path: doubled, contents: vec![255] }));
    match take(&imfs, "/d/a.lua", &mut points) {
        Err(SnapshotFailure::Error(error)) => assert_eq!(
            error.message(),
            "Invalid UTF-8: invalid utf-8 sequence of 1 bytes from index 0 in path //d//./a.lua/",
        ),
        _ => panic!("expected an error"),
    }
}

#[test]
fn text_that_is_no_utf8_is_an_error() {
    let mut imfs = Imfs::new(Vec::new());
    imfs.insert(ImfsItem::File(ImfsFile { path: path("/a.lua"), contents: vec![97, 255, 98] }));
    match take(&imfs, "/a.lua", &mut SyncPoints::new()) {
        Err(SnapshotFailure::Error(error)) => {
            match &error {
                SnapshotError::Utf8Error { inner, .. } => {
                    assert_eq!(inner.valid_up_to, 1);
                    assert_eq!(inner.message, "invalid utf-8 sequence of 1 bytes from index 1");
                },
                _ => panic!("expected an error about the text"),
            }
            assert_eq!(
                error.message(),
                "Invalid UTF-8: invalid utf-8 sequence of 1 bytes from index 1 in path /a.lua",
            );
        },
        _ => panic!("expected an error"),
    }
}

#[test]
fn a_malformed_table_is_not_survived() {
    let mut imfs = Imfs::new(Vec::new());
    put_file(&mut imfs, "/a.csv", "Key\na,b\n");
    assert!(matches!(
        take(&imfs, "/a.csv", &mut SyncPoints::new()),
        Err(SnapshotFailure::Panic(SnapshotPanic::MalformedTable))
    ));
}

#[test]
fn model_files_are_decoded_where_they_are_met() {
    let mut imfs = Imfs::new(Vec::new());
    put_dir(&mut imfs, "/d", &["a.rbxmx", "b.rbxm"]);
    put_file(&mut imfs, "/d/a.rbxmx", "<roblox version=\"4\"></roblox>");
    put_file(&mut imfs, "/d/b.rbxm", "garbage garbage");
    assert!(matches!(take(&imfs, "/d/a.rbxmx", &mut SyncPoints::new()), Ok(None)));
    assert!(matches!(
        take(&imfs, "/d", &mut SyncPoints::new()),
        Err(SnapshotFailure::Error(SnapshotError::BinaryModelDecodeError { .. }))
    ));
}

#[test]
fn a_directory_is_a_folder_of_its_entries() {
    let mut imfs = Imfs::new(Vec::new());
    put_dir(&mut imfs, "/src", &["b.lua", "README.md", "sub", "a.txt"]);
    put_file(&mut imfs, "/src/b.lua", "");
    put_file(&mut imfs, "/src/README.md", "");
    put_dir(&mut imfs, "/src/sub", &[]);
    put_file(&mut imfs, "/src/a.txt", "");
    let snapshot = take(&imfs, "/src", &mut SyncPoints::new()).unwrap().unwrap();
    assert_eq!(shape(&snapshot), "src:Folder(b:ModuleScript(),sub:Folder(),a:StringValue())");
    assert_eq!(snapshot.source_path.as_ref().unwrap().display(), "/src");
    assert!(snapshot.properties.is_empty());
}

#[test]
fn an_init_script_decides_what_its_directory_is() {
    for (init, class_name) in [
        ("init.lua", "ModuleScript"),
        ("init.server.lua", "Script"),
        ("init.client.lua", "LocalScript"),
    ].iter() {
        let mut imfs = Imfs::new(Vec::new());
        put_dir(&mut imfs, "/lib", &["x.lua", init]);
        put_file(&mut imfs, "/lib/x.lua", "");
        put_file(&mut imfs, &format!("/lib/{}", init), "return 1");
        let snapshot = take(&imfs, "/lib", &mut SyncPoints::new()).unwrap().unwrap();
        assert_eq!(shape(&snapshot), format!("lib:{}(x:ModuleScript())", class_name));
        assert_eq!(snapshot.properties[0].value, text("return 1"));
        assert_eq!(snapshot.source_path.as_ref().unwrap().display(), format!("/lib/{}", init));
    }
}

#[test]
fn the_plain_init_script_goes_first() {
    let mut imfs = Imfs::new(Vec::new());
    put_dir(&mut imfs, "/lib", &["init.client.lua", "init.server.lua", "init.lua"]);
    put_file(&mut imfs, "/lib/init.client.lua", "c");
    put_file(&mut imfs, "/lib/init.server.lua", "s");
    put_file(&mut imfs, "/lib/init.lua", "m");
    let snapshot = take(&imfs, "/lib", &mut SyncPoints::new()).unwrap().unwrap();
    assert_eq!(shape(&snapshot), "lib:ModuleScript()");
    put_dir(&mut imfs, "/lib", &["init.client.lua", "init.server.lua"]);
    let snapshot = take(&imfs, "/lib", &mut SyncPoints::new()).unwrap().unwrap();
    assert_eq!(shape(&snapshot), "lib:Script()");
}

#[test]
fn a_broken_init_script_breaks_its_directory() {
    let mut imfs = Imfs::new(Vec::new());
    put_dir(&mut imfs, "/lib", &["init.lua"]);
    assert!(matches!(
        take(&imfs, "/lib", &mut SyncPoints::new()),
        Err(SnapshotFailure::Error(SnapshotError::DidNotExist(_)))
    ));
}

#[test]
fn a_directory_without_a_name_is_not_survived() {
    let mut imfs = Imfs::new(Vec::new());
    put_dir(&mut imfs, "/", &[]);
    assert!(matches!(
        take(&imfs, "/", &mut SyncPoints::new()),
        Err(SnapshotFailure::Panic(SnapshotPanic::UnreadableName))
    ));
}

#[test]
fn an_entry_without_a_readable_name_is_not_survived() {
    let mut imfs = Imfs::new(Vec::new());
    let mut place = path("/d");
    place.push(PathComponent::Opaque(vec![255]));
    imfs.insert(ImfsItem::Directory(ImfsDirectory { path: path("/d"), children: vec![place] }));
    assert!(matches!(
        take(&imfs, "/d", &mut SyncPoints::new()),
        Err(SnapshotFailure::Panic(SnapshotPanic::UnreadableName))
    ));
}

#[test]
fn names_from_the_manifest_are_kept() {
    let mut imfs = Imfs::new(Vec::new());
    put_dir(&mut imfs, "/src", &["a.lua"]);
    put_file(&mut imfs, "/src/a.lua", "");
    let mut points = SyncPoints::new();
    points.insert(path("/src"), SyncPointMetadata { instance_name: "Lib".to_owned(), children: Vec::new() });
    points.insert(path("/src/a.lua"), SyncPointMetadata { instance_name: "A".to_owned(), children: Vec::new() });
    let snapshot = take(&imfs, "/src", &mut points).unwrap().unwrap();
    assert_eq!(shape(&snapshot), "Lib:Folder(A:ModuleScript())");
}

#[test]
fn children_from_the_manifest_come_behind_the_others() {
    let mut imfs = Imfs::new(Vec::new());
    put_dir(&mut imfs, "/src", &["a.lua"]);
    put_file(&mut imfs, "/src/a.lua", "");
    put_file(&mut imfs, "/extra.txt", "e");
    let mut points = SyncPoints::new();
    points.insert(path("/src"), SyncPointMetadata {
        instance_name: "Lib".to_owned(),
        children: vec![
            child("One", described("Model", Vec::new())),
            child("Two", sync_point("/extra.txt", Vec::new())),
        ],
    });
    let snapshot = take(&imfs, "/src", &mut points).unwrap().unwrap();
    assert_eq!(
        shape(&snapshot),
        "Lib:Folder(a:ModuleScript(),One:Model(),Two:StringValue())",
    );
    assert_eq!(points.get(&path("/extra.txt")).unwrap().instance_name, "Two");
}

#[test]
fn a_described_instance_is_as_the_manifest_says() {
    let imfs = Imfs::new(Vec::new());
    let node = described("DataModel", vec![child("Inner", described("Workspace", Vec::new()))]);
    let mut points = SyncPoints::new();
    let snapshot = construct_project_node(&imfs, &"Game".to_owned(), &node, &mut points, usize::MAX).unwrap();
    assert_eq!(shape(&snapshot), "Game:DataModel(Inner:Workspace())");
    assert_eq!(snapshot.properties[0].value, text("v"));
    assert!(snapshot.source_path.is_none());
    assert!(snapshot.metadata.unwrap().ignore_unknown_instances);
}

#[test]
fn a_sync_point_is_named_by_the_manifest_and_remembered() {
    let mut imfs = Imfs::new(Vec::new());
    put_dir(&mut imfs, "/src", &[]);
    let node = sync_point("/src", vec![child("More", described("Model", Vec::new()))]);
    let mut points = SyncPoints::new();
    let first = construct_project_node(&imfs, &"Named".to_owned(), &node, &mut points, usize::MAX).unwrap();
    assert_eq!(shape(&first), "Named:Folder()");
    let remembered = points.get(&path("/src")).unwrap();
    assert_eq!(remembered.instance_name, "Named");
    assert_eq!(remembered.children.len(), 1);
    let again = take(&imfs, "/src", &mut points).unwrap().unwrap();
    assert_eq!(shape(&again), "Named:Folder(More:Model())");
    let third = take(&imfs, "/src", &mut points).unwrap().unwrap();
    assert_eq!(shape(&third), "Named:Folder(More:Model())");
    assert_eq!(points.get(&path("/src")).unwrap().children.len(), 1);
}

#[test]
fn a_sync_point_that_leads_nowhere_is_not_survived() {
    let mut imfs = Imfs::new(Vec::new());
    put_file(&mut imfs, "/README.md", "");
    let mut points = SyncPoints::new();
    assert!(matches!(
        construct_project_node(&imfs, &"N".to_owned(), &sync_point("/none", Vec::new()), &mut points, usize::MAX),
        Err(SnapshotPanic::SyncPointError(SnapshotError::DidNotExist(_)))
    ));
    assert!(matches!(
        construct_project_node(&imfs, &"N".to_owned(), &sync_point("/README.md", Vec::new()), &mut points, usize::MAX),
        Err(SnapshotPanic::SyncPointEmpty)
    ));
    assert!(points.get(&path("/none")).is_none());
    assert!(points.get(&path("/README.md")).is_none());
}

#[test]
fn sync_points_that_lead_into_themselves_end_in_a_panic() {
    let mut imfs = Imfs::new(Vec::new());
    put_dir(&mut imfs, "/src", &[]);
    let mut points = SyncPoints::new();
    points.insert(path("/src"), SyncPointMetadata {
        instance_name: "Self".to_owned(),
        children: vec![child("Self", sync_point("/src", Vec::new()))],
    });
    let result = snapshot_instances_from_imfs(&imfs, &path("/src"), &mut points, 3);
    assert!(matches!(result, Err(SnapshotFailure::Panic(SnapshotPanic::TooDeep))));
}

#[test]
fn a_higher_bound_on_the_depth_changes_nothing() {
    let mut imfs = Imfs::new(Vec::new());
    put_dir(&mut imfs, "/a", &["b"]);
    put_dir(&mut imfs, "/a/b", &["c.lua"]);
    put_file(&mut imfs, "/a/b/c.lua", "");
    let low = snapshot_instances_from_imfs(&imfs, &path("/a"), &mut SyncPoints::new(), 3);
    let high = snapshot_instances_from_imfs(&imfs, &path("/a"), &mut SyncPoints::new(), 30);
    assert_eq!(shape(&low.unwrap().unwrap()), "a:Folder(b:Folder(c:ModuleScript()))");
    assert_eq!(shape(&high.unwrap().unwrap()), "a:Folder(b:Folder(c:ModuleScript()))");
    let lower = snapshot_instances_from_imfs(&imfs, &path("/a"), &mut SyncPoints::new(), 2);
    assert!(matches!(lower, Err(SnapshotFailure::Panic(SnapshotPanic::TooDeep))));
}

#[test]
fn a_walk_forgets_no_sync_point() {
    let mut imfs = Imfs::new(Vec::new());
    put_dir(&mut imfs, "/a", &["b.lua"]);
    put_file(&mut imfs, "/a/b.lua", "");
    let mut points = SyncPoints::new();
    points.insert(path("/a"), SyncPointMetadata { instance_name: "A".to_owned(), children: Vec::new() });
    points.insert(path("/z"), SyncPointMetadata { instance_name: "Z".to_owned(), children: Vec::new() });
    let first = take(&imfs, "/a", &mut points).unwrap().unwrap();
    let second = take(&imfs, "/a", &mut points).unwrap().unwrap();
    assert_eq!(shape(&first), "A:Folder(b:ModuleScript())");
    assert_eq!(shape(&first), shape(&second));
    assert_eq!(points.get(&path("/a")).unwrap().instance_name, "A");
    assert_eq!(points.get(&path("/z")).unwrap().instance_name, "Z");
}

#[test]
fn a_failure_inside_a_directory_is_its_failure() {
    let mut imfs = Imfs::new(Vec::new());
    put_dir(&mut imfs, "/a", &["x.lua", "gone.lua", "y.csv"]);
    put_file(&mut imfs, "/a/x.lua", "");
    put_file(&mut imfs, "/a/y.csv", "Key\na,b\n");
    match take(&imfs, "/a", &mut SyncPoints::new()) {
        Err(SnapshotFailure::Error(SnapshotError::DidNotExist(place))) => {
            assert_eq!(place.display(), "/a/gone.lua");
        },
        _ => panic!("expected an error"),
    }
}

#[test]
fn init_scripts_behind_the_first_are_not_read() {
    let mut imfs = Imfs::new(Vec::new());
    put_dir(&mut imfs, "/lib", &["x.lua", "init.lua"]);
    put_file(&mut imfs, "/lib/x.lua", "");
    put_file(&mut imfs, "/lib/init.lua", "m");
    let alone = take(&imfs, "/lib", &mut SyncPoints::new()).unwrap().unwrap();
    put_dir(&mut imfs, "/lib", &["init.client.lua", "x.lua", "init.server.lua", "init.lua"]);
    imfs.insert(ImfsItem::File(ImfsFile { path: path("/lib/init.server.lua"), contents: vec![255] }));
    let both = take(&imfs, "/lib", &mut SyncPoints::new()).unwrap().unwrap();
    assert_eq!(shape(&alone), "lib:ModuleScript(x:ModuleScript())");
    assert_eq!(shape(&both), shape(&alone));
}

#[test]
fn a_walk_does_not_depend_on_what_lies_elsewhere() {
    let mut imfs = Imfs::new(Vec::new());
    put_dir(&mut imfs, "/a", &["x.lua"]);
    put_file(&mut imfs, "/a/x.lua", "");
    let before = take(&imfs, "/a", &mut SyncPoints::new()).unwrap().unwrap();
    put_dir(&mut imfs, "/b", &["gone.lua"]);
    let mut points = SyncPoints::new();
    points.insert(path("/b"), SyncPointMetadata { instance_name: "B".to_owned(), children: Vec::new() });
    let after = take(&imfs, "/a", &mut points).unwrap().unwrap();
    assert_eq!(shape(&before), "a:Folder(x:ModuleScript())");
    assert_eq!(shape(&after), shape(&before));
}
