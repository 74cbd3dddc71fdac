use rbx_session::file_type::{classify_file, get_trailing, FileType};
use rbx_session::imfs::ImfsFile;
use rbx_session::path::{FilePath, PathComponent};

fn file(name: &str) -> ImfsFile {
    ImfsFile {
        path: FilePath::new(vec![PathComponent::RootDir, PathComponent::Normal(name.to_owned())]),
        contents: Vec::new(),
    }
}

#[test]
fn get_trailing_gives_what_stands_before() {
    assert_eq!(get_trailing("hello.lua", ".lua"), Some("hello"));
    assert_eq!(get_trailing(".lua", ".lua"), Some(""));
    assert_eq!(get_trailing("lua", ".lua"), None);
    assert_eq!(get_trailing("hello.lua", ".txt"), None);
    assert_eq!(get_trailing("hello", ""), Some("hello"));
}

#[test]
fn get_trailing_knows_characters_of_several_bytes() {
    assert_eq!(get_trailing("gr\u{fc}n.lua", ".lua"), Some("gr\u{fc}n"));
    assert_eq!(get_trailing("x\u{1f600}", "\u{1f600}"), Some("x"));
    assert_eq!(get_trailing("\u{fc}", "\u{bc}"), None);
}

#[test]
fn every_extension_has_its_kind() {
    assert_eq!(classify_file(&file("a.server.lua")), Some(("a", FileType::ServerScript)));
    assert_eq!(classify_file(&file("a.client.lua")), Some(("a", FileType::ClientScript)));
    assert_eq!(classify_file(&file("a.lua")), Some(("a", FileType::ModuleScript)));
    assert_eq!(classify_file(&file("a.csv")), Some(("a", FileType::LocalizationTable)));
    assert_eq!(classify_file(&file("a.txt")), Some(("a", FileType::StringValue)));
    assert_eq!(classify_file(&file("a.rbxmx")), Some(("a", FileType::XmlModel)));
    assert_eq!(classify_file(&file("a.rbxm")), Some(("a", FileType::BinaryModel)));
}

#[test]
fn the_longer_extension_counts() {
    assert_eq!(classify_file(&file("a.b.server.lua")), Some(("a.b", FileType::ServerScript)));
    assert_eq!(classify_file(&file("server.lua")), Some(("server", FileType::ModuleScript)));
    assert_eq!(classify_file(&file(".server.lua")), Some(("", FileType::ServerScript)));
}

#[test]
fn other_files_stand_for_nothing() {
    assert_eq!(classify_file(&file("README.md")), None);
    assert_eq!(classify_file(&file("a.LUA")), None);
    assert_eq!(classify_file(&file("lua")), None);
    let root = ImfsFile { path: FilePath::new(vec![PathComponent::RootDir]), contents: Vec::new() };
    assert_eq!(classify_file(&root), None);
    let opaque = ImfsFile {
        path: FilePath::new(vec![PathComponent::Opaque(vec![255, 46, 108, 117, 97])]),
        contents: Vec::new(),
    };
    assert_eq!(classify_file(&opaque), None);
}
