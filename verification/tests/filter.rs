use rbx_session::filter_plugin::{
    FileChangeResult, FilterPlugin, Plugin, Route, TransformFileResult, VfsItem,
};

fn verdict(name: &str) -> TransformFileResult {
    FilterPlugin::new().transform_file(&VfsItem::File {
        name: name.to_owned(),
        contents: "return 1".to_owned(),
    })
}

#[test]
fn test_files_are_left_out() {
    assert_eq!(verdict("a.spec.lua"), TransformFileResult::Discard);
    assert_eq!(verdict(".spec.lua"), TransformFileResult::Discard);
    assert_eq!(verdict("a.spec.luax"), TransformFileResult::Pass);
    assert_eq!(verdict("aspec.lua"), TransformFileResult::Pass);
}

#[test]
fn user_interface_files_are_left_out() {
    assert_eq!(verdict("window.ui"), TransformFileResult::Discard);
    assert_eq!(verdict("window.ui.lua"), TransformFileResult::Pass);
    assert_eq!(verdict("windowxui"), TransformFileResult::Pass);
}

#[test]
fn names_of_more_than_one_line_pass() {
    assert_eq!(verdict("a\nb.ui"), TransformFileResult::Pass);
    assert_eq!(verdict("b.ui\n"), TransformFileResult::Pass);
    assert_eq!(verdict("a\n.spec.lua"), TransformFileResult::Pass);
    assert_eq!(verdict("a\rb.ui"), TransformFileResult::Discard);
}

#[test]
fn directories_always_pass() {
    let item = VfsItem::Dir { name: "a.ui".to_owned(), children: Vec::new() };
    assert_eq!(item.name(), "a.ui");
    assert_eq!(FilterPlugin::new().transform_file(&item), TransformFileResult::Pass);
}

#[test]
fn changes_always_pass() {
    let route = Route { names: vec!["a.ui".to_owned()] };
    assert_eq!(FilterPlugin::new().handle_file_change(&route), FileChangeResult::Pass);
}
