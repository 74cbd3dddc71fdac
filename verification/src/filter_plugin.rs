//! The plugin that keeps test and user-interface files out of a project.
use crate::file_type::ends_with;
use vstd::prelude::*;

verus! {

/// A file or directory that plugins are asked about.
#[derive(Debug)]
pub enum VfsItem {
    File { name: String, contents: String },
    Dir { name: String, children: Vec<VfsItem> },
}

/// The name of an item.
pub open spec fn item_name(item: VfsItem) -> Seq<char> {
    match item {
        VfsItem::File { name, .. } => name@,
        VfsItem::Dir { name, .. } => name@,
    }
}

impl VfsItem {
    /// The name of the item.
    pub fn name(&self) -> (name: &str)
        ensures
            name@ == item_name(*self),
    {
        match self {
            VfsItem::File { name, .. } => name.as_str(),
            VfsItem::Dir { name, .. } => name.as_str(),
        }
    }
}

/// Where an item is: the names that lead to it.
#[derive(Debug)]
pub struct Route {
    pub names: Vec<String>,
}

/// What a plugin does with a file.
#[derive(Debug, Clone, Copy, PartialEq, Eq, Structural)]
pub enum TransformFileResult {
    /// The plugin has no opinion; the next one is asked.
    Pass,
    /// The file is left out.
    Discard,
}

/// What a plugin does about a change.
#[derive(Debug, Clone, Copy, PartialEq, Eq, Structural)]
pub enum FileChangeResult {
    /// The plugin has no opinion; the next one is asked.
    Pass,
}

/// Something that has a say in how files become instances.
pub trait Plugin {
    /// What is to become of a file or directory.
    fn transform_file(&self, vfs_item: &VfsItem) -> TransformFileResult;

    /// What follows from a change at `route`.
    fn handle_file_change(&self, route: &Route) -> FileChangeResult;
}

/// The pattern for test files.
const TEST: &'static str = r"^(.*?)\.spec\.lua$";

/// The pattern for user-interface files.
const UI: &'static str = r"^(.*?)\.ui$";

/// Whether a name is one line of text that ends in `trailer`.
pub open spec fn is_line_ending_in(name: Seq<char>, trailer: Seq<char>) -> bool {
    ends_with(name, trailer) && !name.contains('\n')
}

/// Whether files of this name are left out.
pub open spec fn is_filtered(name: Seq<char>) -> bool {
    is_line_ending_in(name, ".spec.lua"@) || is_line_ending_in(name, ".ui"@)
}

/// `regex::Regex::is_match` for the two patterns above. As the syntax of the
/// crate says, `^` and `$` stand for the ends of the whole name, and `.` for any
/// character but a line feed, so a name matches if it ends as the pattern does and
/// holds no line feed.
#[verifier::external_body]
fn matches_pattern(pattern: &str, name: &str) -> (r: bool)
    requires
        pattern@ == TEST@ || pattern@ == UI@,
    ensures
        pattern@ == TEST@ ==> r == is_line_ending_in(name@, ".spec.lua"@),
        pattern@ == UI@ ==> r == is_line_ending_in(name@, ".ui"@),
{
    regex::Regex::new(pattern).unwrap().is_match(name)
}

/// Leaves test and user-interface files out.
#[derive(Debug)]
pub struct FilterPlugin;

impl FilterPlugin {
    /// The plugin; it has no state.
    pub fn new() -> (plugin: FilterPlugin)
        ensures
            plugin == FilterPlugin,
    {
        FilterPlugin
    }
}

impl Plugin for FilterPlugin {
    /// Leaves out a file, but never a directory, whose name is filtered.
    fn transform_file(&self, vfs_item: &VfsItem) -> (result: TransformFileResult)
        ensures
            result is Discard <==> vfs_item is File && is_filtered(item_name(*vfs_item)),
    {
        match vfs_item {
            VfsItem::File { .. } => {
                if matches_pattern(TEST, vfs_item.name()) || matches_pattern(UI, vfs_item.name()) {
                    return TransformFileResult::Discard;
                }
                TransformFileResult::Pass
            },
            _ => TransformFileResult::Pass,
        }
    }

    /// Has no opinion on changes.
    fn handle_file_change(&self, route: &Route) -> (result: FileChangeResult)
        ensures
            result is Pass,
    {
        FileChangeResult::Pass
    }
}

} // verus!
