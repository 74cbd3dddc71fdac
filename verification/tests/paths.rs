use rbx_session::path::{FilePath, PathComponent, Separator};
use rbx_session::path_map::PathMap;

fn path(text: &str) -> FilePath {
    let mut components = Vec::new();
    if text.starts_with('/') {
        components.push(PathComponent::RootDir);
    }
    for name in text.split('/') {
        if !name.is_empty() {
            components.push(PathComponent::Normal(name.to_owned()));
        }
    }
    FilePath::new(components)
}

#[test]
fn join_appends_a_name() {
    assert_eq!(path("/").join("a").join("b").display(), "/a/b");
    assert_eq!(path("a").join("b").display(), "a/b");
}

#[test]
fn a_path_starts_with_its_ancestors_only() {
    assert!(path("/a/b").starts_with(&path("/a")));
    assert!(path("/a/b").starts_with(&path("/a/b")));
    assert!(!path("/a/bc").starts_with(&path("/a/b")));
    assert!(!path("/a").starts_with(&path("/a/b")));
    assert!(!path("a/b").starts_with(&path("/a")));
}

#[test]
fn file_names_are_told_from_other_endings() {
    assert_eq!(path("/a/b.lua").name_text(), Some("b.lua"));
    assert!(path("/a").has_file_name());
    assert_eq!(path("/").name_text(), None);
    assert!(!path("/").has_file_name());
    let up = FilePath::new(vec![PathComponent::Normal("a".to_owned()), PathComponent::ParentDir]);
    assert!(!up.has_file_name());
    let opaque = FilePath::new(vec![PathComponent::Opaque(vec![255])]);
    assert!(opaque.has_file_name());
    assert_eq!(opaque.name_text(), None);
}

#[test]
fn names_that_are_no_text_are_displayed_lossily() {
    let opaque = FilePath::new(vec![
        PathComponent::RootDir,
        PathComponent::Normal("a".to_owned()),
        PathComponent::Opaque(vec![98, 255, 99]),
    ]);
    assert_eq!(opaque.display(), "/a/b\u{fffd}c");
}

#[test]
fn pop_drops_the_last_component() {
    let mut place = path("/a/init.lua");
    place.pop();
    assert!(place.same(&path("/a")));
    assert_eq!(place.display(), "/a");
    let mut root = path("/");
    root.pop();
    assert_eq!(root.display(), "/");
}

fn written(path: FilePath, pieces: &[&str], rest: &str, separator: Separator) -> FilePath {
    FilePath {
        components: path.components,
        pieces: pieces.iter().map(|piece| (*piece).to_owned()).collect(),
        rest: rest.to_owned(),
        separator,
    }
}

#[test]
fn a_path_is_displayed_as_it_is_written() {
    let doubled = written(path("/a/b"), &["/", "/a", "//b"], "//", Separator::Slash);
    assert_eq!(doubled.display(), "//a//b//");
    assert!(doubled.same(&path("/a/b")));
    assert_eq!(doubled.clone().display(), "//a//b//");
    assert_eq!(doubled.join("c").display(), "//a//b//c");
    let mut above = doubled.join("c");
    above.pop();
    assert_eq!(above.display(), "//a//b");
    above.pop();
    assert_eq!(above.display(), "//a");
    let dotted = written(path("a"), &["a"], "/.", Separator::Slash);
    assert_eq!(dotted.join("b").display(), "a/./b");
    assert_eq!(path("").join("a").display(), "a");
}

#[test]
fn drives_and_backslashes_are_kept() {
    let components = || vec![
        PathComponent::Prefix("C:".to_owned()),
        PathComponent::RootDir,
        PathComponent::Normal("src".to_owned()),
    ];
    assert_eq!(FilePath::new(components()).display(), "C:/src");
    let place = written(FilePath::new(components()), &["C:", "\\", "src"], "", Separator::Backslash);
    assert_eq!(place.display(), "C:\\src");
    assert_eq!(place.join("init.lua").display(), "C:\\src\\init.lua");
    let drive = written(
        FilePath::new(vec![PathComponent::Prefix("C:".to_owned())]),
        &["C:"],
        "",
        Separator::Backslash,
    );
    assert!(!drive.has_file_name());
    assert_eq!(drive.join("src").display(), "C:src");
    let mut same = drive.clone();
    same.pop();
    assert_eq!(same.display(), "C:");
}

#[test]
fn a_later_value_replaces_an_earlier_one() {
    let mut map: PathMap<u128> = PathMap::new();
    map.insert(path("/a"), 1);
    map.insert(path("/b"), 2);
    map.insert(path("/a"), 3);
    assert_eq!(map.get(&path("/a")), Some(&3));
    assert_eq!(map.get(&path("/b")), Some(&2));
    assert_eq!(map.get(&path("/c")), None);
}

#[test]
fn removing_a_path_removes_what_lies_below() {
    let mut map: PathMap<u128> = PathMap::new();
    map.insert(path("/a"), 1);
    map.insert(path("/a/b"), 2);
    map.insert(path("/a/b/c"), 3);
    map.insert(path("/a/bc"), 4);
    map.remove(&path("/a/b"));
    assert_eq!(map.get(&path("/a")), Some(&1));
    assert_eq!(map.get(&path("/a/b")), None);
    assert_eq!(map.get(&path("/a/b/c")), None);
    assert_eq!(map.get(&path("/a/bc")), Some(&4));
}

#[test]
fn descending_ends_before_the_first_gap() {
    let mut map: PathMap<u128> = PathMap::new();
    map.insert(path("/a"), 1);
    map.insert(path("/a/b"), 2);
    map.insert(path("/a/b/c/d"), 3);
    let end = map.descend(&path("/a"), &path("/a/b/c/d"));
    assert_eq!(end.display(), "/a/b");
    let root = written(path("/a"), &["/", "a"], "/", Separator::Slash);
    assert_eq!(map.descend(&root, &path("/a/b/c/d")).display(), "/a/b");
    assert_eq!(map.descend(&root, &path("/a/x")).display(), "/a/");
    let end = map.descend(&path("/a"), &path("/a/x"));
    assert_eq!(end.display(), "/a");
    let end = map.descend(&path("/a"), &path("/a/b"));
    assert_eq!(end.display(), "/a/b");
}
