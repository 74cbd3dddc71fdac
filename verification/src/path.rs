//! Paths of the in-memory file system: a list of components, and how they are written.
//!
//! Two paths are the same if their components are. How a path is written, with doubled
//! separators or a separator at its end, only shows where it is displayed.
use vstd::prelude::*;
use vstd::string::{StrSliceExecFns, StringExecFns};

verus! {

/// One component of a path.
#[derive(Debug)]
pub enum PathComponent {
    /// A drive or a share, only ever the first component.
    Prefix(String),
    /// The root of the file system, which no name comes before.
    RootDir,
    /// A leading `.`.
    CurDir,
    /// A `..` step.
    ParentDir,
    /// A name that is valid Unicode.
    Normal(String),
    /// A name whose bytes are no valid Unicode text.
    Opaque(Vec<u8>),
}

/// What a [`PathComponent`] stands for.
pub enum PathPart {
    Prefix(Seq<char>),
    RootDir,
    CurDir,
    ParentDir,
    Normal(Seq<char>),
    Opaque(Seq<u8>),
}

/// The mathematical value of a path: its components in order.
pub type PathView = Seq<PathPart>;

impl View for PathComponent {
    type V = PathPart;

    open spec fn view(&self) -> PathPart {
        match *self {
            PathComponent::Prefix(name) => PathPart::Prefix(name@),
            PathComponent::RootDir => PathPart::RootDir,
            PathComponent::CurDir => PathPart::CurDir,
            PathComponent::ParentDir => PathPart::ParentDir,
            PathComponent::Normal(name) => PathPart::Normal(name@),
            PathComponent::Opaque(bytes) => PathPart::Opaque(bytes@),
        }
    }
}

/// The last component as text: absent if the path has no final name, or if
/// that name is no valid Unicode.
pub open spec fn name_text(path: PathView) -> Option<Seq<char>> {
    if path.len() == 0 {
        None
    } else {
        match path.last() {
            PathPart::Normal(name) => Some(name),
            _ => None,
        }
    }
}

/// Whether the path ends in a name, Unicode or not.
pub open spec fn has_file_name(path: PathView) -> bool {
    path.len() > 0 && (path.last() is Normal || path.last() is Opaque)
}

/// The path with the name `name` put behind it.
pub open spec fn join(path: PathView, name: Seq<char>) -> PathView {
    path.push(PathPart::Normal(name))
}

/// Whether `prefix` is `path` or one of its ancestors.
pub open spec fn starts_with(path: PathView, prefix: PathView) -> bool {
    prefix.len() <= path.len() && path.take(prefix.len() as int) == prefix
}

fn bytes_same(left: &Vec<u8>, right: &Vec<u8>) -> (same: bool)
    ensures
        same == (left@ == right@),
{
    if left.len() != right.len() {
        return false;
    }
    let mut i: usize = 0;
    while i < left.len()
        invariant
            i <= left.len(),
            left.len() == right.len(),
            left@.take(i as int) == right@.take(i as int),
        decreases left.len() - i,
    {
        if left[i] != right[i] {
            assert(left@[i as int] != right@[i as int]);
            return false;
        }
        assert(left@.take(i + 1) =~= left@.take(i as int).push(left@[i as int]));
        assert(right@.take(i + 1) =~= right@.take(i as int).push(right@[i as int]));
        i += 1;
    }
    assert(left@.take(i as int) =~= left@);
    assert(right@.take(i as int) =~= right@);
    true
}

fn bytes_copy(bytes: &Vec<u8>) -> (copy: Vec<u8>)
    ensures
        copy@ == bytes@,
{
    let mut copy: Vec<u8> = Vec::new();
    let mut i: usize = 0;
    while i < bytes.len()
        invariant
            i <= bytes.len(),
            copy@ == bytes@.take(i as int),
        decreases bytes.len() - i,
    {
        assert(bytes@.take(i + 1) =~= bytes@.take(i as int).push(bytes@[i as int]));
        copy.push(bytes[i]);
        i += 1;
    }
    assert(bytes@.take(i as int) =~= bytes@);
    copy
}

impl PathComponent {
    /// Whether the two components are the same.
    pub fn same(&self, other: &PathComponent) -> (same: bool)
        ensures
            same == (self@ == other@),
    {
        match (self, other) {
            (PathComponent::Prefix(left), PathComponent::Prefix(right)) => *left == *right,
            (PathComponent::RootDir, PathComponent::RootDir) => true,
            (PathComponent::CurDir, PathComponent::CurDir) => true,
            (PathComponent::ParentDir, PathComponent::ParentDir) => true,
            (PathComponent::Normal(left), PathComponent::Normal(right)) => *left == *right,
            (PathComponent::Opaque(left), PathComponent::Opaque(right)) => bytes_same(left, right),
            _ => false,
        }
    }
}

impl Clone for PathComponent {
    fn clone(&self) -> (copy: PathComponent)
        ensures
            copy@ == self@,
    {
        match self {
            PathComponent::Prefix(name) => PathComponent::Prefix(name.clone()),
            PathComponent::RootDir => PathComponent::RootDir,
            PathComponent::CurDir => PathComponent::CurDir,
            PathComponent::ParentDir => PathComponent::ParentDir,
            PathComponent::Normal(name) => PathComponent::Normal(name.clone()),
            PathComponent::Opaque(bytes) => PathComponent::Opaque(bytes_copy(bytes)),
        }
    }
}

/// The text in which `String::from_utf8_lossy` gives bytes that are no valid
/// UTF-8.
pub uninterp spec fn lossy_text(bytes: Seq<u8>) -> Seq<char>;

/// `String::from_utf8_lossy`, by its name.
#[verifier::external_body]
fn to_lossy_text(bytes: &Vec<u8>) -> (text: String)
    ensures
        text@ == lossy_text(bytes@),
{
    String::from_utf8_lossy(bytes).into_owned()
}

/// How a component is written.
pub open spec fn part_text(part: PathPart) -> Seq<char> {
    match part {
        PathPart::Prefix(name) => name,
        PathPart::RootDir => "/"@,
        PathPart::CurDir => "."@,
        PathPart::ParentDir => ".."@,
        PathPart::Normal(name) => name,
        PathPart::Opaque(bytes) => lossy_text(bytes),
    }
}

impl PathComponent {
    fn text(&self) -> (text: String)
        ensures
            text@ == part_text(self@),
    {
        match self {
            PathComponent::Prefix(name) => name.clone(),
            PathComponent::RootDir => "/".to_owned(),
            PathComponent::CurDir => ".".to_owned(),
            PathComponent::ParentDir => "..".to_owned(),
            PathComponent::Normal(name) => name.clone(),
            PathComponent::Opaque(bytes) => to_lossy_text(bytes),
        }
    }
}

/// What is put between a path and a component that is added to it.
#[derive(Debug, Clone, Copy, PartialEq, Eq, Structural)]
pub enum Separator {
    Slash,
    Backslash,
}

impl Separator {
    /// The character that is written.
    pub open spec fn mark(self) -> char {
        match self {
            Separator::Slash => '/',
            Separator::Backslash => '\\',
        }
    }
}

/// A path with the way in which it is written.
pub struct WrittenPath {
    /// The components.
    pub path: PathView,
    /// Each component with what is written before it and behind the one before it.
    pub pieces: Seq<Seq<char>>,
    /// What is written behind the last component.
    pub rest: Seq<char>,
    /// What is put before a component that is added.
    pub separator: Separator,
}

/// Pieces of text one after the other.
pub open spec fn in_one(pieces: Seq<Seq<char>>) -> Seq<char>
    decreases pieces.len(),
{
    if pieces.len() == 0 {
        seq![]
    } else {
        in_one(pieces.drop_last()) + pieces.last()
    }
}

impl WrittenPath {
    /// The path as text.
    pub open spec fn text(self) -> Seq<char> {
        in_one(self.pieces) + self.rest
    }

    /// Whether there is one piece for each component.
    pub open spec fn well_formed(self) -> bool {
        self.pieces.len() == self.path.len()
    }

    /// Whether a component that is added goes right behind what is written: where nothing
    /// is, behind a separator, and behind a drive.
    pub open spec fn is_open(self) -> bool {
        ||| self.text().len() == 0
        ||| self.text().last() == '/'
        ||| self.text().last() == self.separator.mark()
        ||| self.path.len() == 1 && self.rest.len() == 0 && (self.path[0] matches PathPart::Prefix(
            name,
        ) && name.len() == 2)
    }

    /// The path with one more component behind it.
    pub open spec fn with_part(self, part: PathPart) -> WrittenPath {
        let lead = if self.is_open() {
            self.rest
        } else {
            self.rest.push(self.separator.mark())
        };
        WrittenPath {
            path: self.path.push(part),
            pieces: self.pieces.push(lead + part_text(part)),
            rest: seq![],
            separator: self.separator,
        }
    }

    /// The path with more components behind it.
    pub open spec fn with_parts(self, parts: Seq<PathPart>) -> WrittenPath
        decreases parts.len(),
    {
        if parts.len() == 0 {
            self
        } else {
            self.with_parts(parts.drop_last()).with_part(parts.last())
        }
    }

    /// The path of the entry `name` below the path.
    pub open spec fn joined(self, name: Seq<char>) -> WrittenPath {
        self.with_part(PathPart::Normal(name))
    }

    /// The path without its last component, and without what is written around that. A root
    /// and a prefix stay.
    pub open spec fn parent(self) -> WrittenPath {
        if has_parent(self.path) {
            WrittenPath {
                path: self.path.drop_last(),
                pieces: if self.pieces.len() > 0 {
                    self.pieces.drop_last()
                } else {
                    self.pieces
                },
                rest: seq![],
                separator: self.separator,
            }
        } else {
            self
        }
    }
}

/// Adding a component, and taking the last one back, keep one piece for each component.
/// What was added and is then taken back leaves the path as it was, but for what was written
/// behind its last component.
pub proof fn law_written(path: WrittenPath, part: PathPart)
    requires
        path.well_formed(),
    ensures
        path.with_part(part).well_formed(),
        path.parent().well_formed(),
        has_parent(path.with_part(part).path) ==> path.with_part(part).parent() == (WrittenPath {
            rest: seq![],
            ..path
        }),
{
    let longer = path.with_part(part);
    assert(longer.path.drop_last() =~= path.path);
    assert(longer.pieces.drop_last() =~= path.pieces);
}

/// Whether a path ends in a step that can be taken back.
pub open spec fn has_parent(path: PathView) -> bool {
    path.len() > 0 && !(path.last() is RootDir) && !(path.last() is Prefix)
}

/// A list of paths without the way in which they are written.
pub open spec fn bare_paths(list: Seq<WrittenPath>) -> Seq<PathView> {
    Seq::new(list.len(), |i: int| list[i].path)
}

/// A component as it is written in a path with a slash between names.
pub open spec fn plain_piece(path: PathView, i: int) -> Seq<char> {
    if i == 0 || path[i - 1] is RootDir || path[i - 1] is Prefix {
        part_text(path[i])
    } else {
        "/"@ + part_text(path[i])
    }
}

/// A path written with a slash between names.
pub open spec fn plainly(path: PathView) -> WrittenPath {
    WrittenPath {
        path,
        pieces: Seq::new(path.len(), |i: int| plain_piece(path, i)),
        rest: seq![],
        separator: Separator::Slash,
    }
}

/// A path of the in-memory file system.
#[derive(Debug)]
pub struct FilePath {
    /// The components.
    pub components: Vec<PathComponent>,
    /// Each component with what is written before it and behind the one before it.
    pub pieces: Vec<String>,
    /// What is written behind the last component.
    pub rest: String,
    /// What is put before a component that is added.
    pub separator: Separator,
}

/// What a list of components stands for.
pub open spec fn parts_view(components: Seq<PathComponent>) -> PathView {
    Seq::new(components.len(), |i: int| components[i]@)
}

/// What a list of pieces of text stands for.
pub open spec fn pieces_view(pieces: Seq<String>) -> Seq<Seq<char>> {
    Seq::new(pieces.len(), |i: int| pieces[i]@)
}

impl View for FilePath {
    type V = PathView;

    open spec fn view(&self) -> PathView {
        parts_view(self.components@)
    }
}

impl Clone for FilePath {
    fn clone(&self) -> (copy: FilePath)
        ensures
            copy@ == self@,
            copy.written() == self.written(),
    {
        let mut components: Vec<PathComponent> = Vec::new();
        let mut i: usize = 0;
        while i < self.components.len()
            invariant
                i <= self.components.len(),
                components.len() == i,
                forall|j: int| 0 <= j < i ==> (#[trigger] components@[j])@ == self.components@[j]@,
            decreases self.components.len() - i,
        {
            components.push(self.components[i].clone());
            i += 1;
        }
        let mut pieces: Vec<String> = Vec::new();
        let mut k: usize = 0;
        while k < self.pieces.len()
            invariant
                k <= self.pieces.len(),
                pieces.len() == k,
                forall|j: int| 0 <= j < k ==> (#[trigger] pieces@[j])@ == self.pieces@[j]@,
            decreases self.pieces.len() - k,
        {
            pieces.push(self.pieces[k].clone());
            k += 1;
        }
        let copy = FilePath {
            components,
            pieces,
            rest: self.rest.clone(),
            separator: self.separator,
        };
        assert(copy@ =~= self@);
        assert(pieces_view(copy.pieces@) =~= pieces_view(self.pieces@));
        copy
    }
}

impl FilePath {
    /// The path with the way in which it is written.
    pub open spec fn written(&self) -> WrittenPath {
        WrittenPath {
            path: self@,
            pieces: pieces_view(self.pieces@),
            rest: self.rest@,
            separator: self.separator,
        }
    }

    /// A path written with a slash between names.
    pub fn new(components: Vec<PathComponent>) -> (path: FilePath)
        ensures
            path@ == parts_view(components@),
            path.written() == plainly(parts_view(components@)),
            path.written().well_formed(),
    {
        let ghost parts = parts_view(components@);
        let mut pieces: Vec<String> = Vec::new();
        let mut i: usize = 0;
        while i < components.len()
            invariant
                i <= components.len(),
                parts == parts_view(components@),
                pieces.len() == i,
                forall|j: int| 0 <= j < i ==> (#[trigger] pieces@[j])@ == plain_piece(parts, j),
            decreases components.len() - i,
        {
            let follows_name = i > 0 && match &components[i - 1] {
                PathComponent::RootDir => false,
                PathComponent::Prefix(_) => false,
                _ => true,
            };
            let own = components[i].text();
            assert(i > 0 ==> parts[i - 1] == components@[i - 1]@);
            assert(parts[i as int] == components@[i as int]@);
            if follows_name {
                let mut piece = "/".to_owned();
                piece.append(own.as_str());
                pieces.push(piece);
            } else {
                pieces.push(own);
            }
            i += 1;
        }
        let path = FilePath { components, pieces, rest: String::new(), separator: Separator::Slash };
        assert(path.written().pieces =~= plainly(parts).pieces);
        assert(path.rest@ =~= seq![]);
        path
    }
}

impl FilePath {
    /// Whether the two paths have the same components.
    pub fn same(&self, other: &FilePath) -> (same: bool)
        ensures
            same == (self@ == other@),
    {
        if self.components.len() != other.components.len() {
            assert(self@.len() != other@.len());
            return false;
        }
        assert(self@.take(other@.len() as int) =~= self@);
        self.starts_with(other)
    }

    /// Whether `prefix` is this path or one of its ancestors.
    pub fn starts_with(&self, prefix: &FilePath) -> (r: bool)
        ensures
            r == starts_with(self@, prefix@),
    {
        if self.components.len() < prefix.components.len() {
            return false;
        }
        let mut i: usize = 0;
        while i < prefix.components.len()
            invariant
                i <= prefix.components.len() <= self.components.len(),
                forall|j: int| 0 <= j < i ==> #[trigger] self@[j] == prefix@[j],
            decreases prefix.components.len() - i,
        {
            if !self.components[i].same(&prefix.components[i]) {
                proof {
                    if starts_with(self@, prefix@) {
                        assert(self@.take(prefix@.len() as int)[i as int] == prefix@[i as int]);
                        assert(false);
                    }
                }
                return false;
            }
            i += 1;
        }
        assert(self@.take(prefix@.len() as int) =~= prefix@);
        true
    }

    /// The last component as text, if it is a name and valid Unicode.
    pub fn name_text(&self) -> (name: Option<&str>)
        ensures
            name is Some <==> name_text(self@) is Some,
            name matches Some(text) ==> name_text(self@) == Some(text@),
    {
        let count = self.components.len();
        if count == 0 {
            return None;
        }
        match &self.components[count - 1] {
            PathComponent::Normal(name) => Some(name.as_str()),
            _ => None,
        }
    }

    /// Whether the path ends in a name.
    pub fn has_file_name(&self) -> (r: bool)
        ensures
            r == has_file_name(self@),
    {
        let count = self.components.len();
        if count == 0 {
            return false;
        }
        match &self.components[count - 1] {
            PathComponent::Normal(_) => true,
            PathComponent::Opaque(_) => true,
            _ => false,
        }
    }

    /// The path of the entry `name` below this path.
    pub fn join(&self, name: &str) -> (path: FilePath)
        ensures
            path@ == join(self@, name@),
            path.written() == self.written().joined(name@),
    {
        let mut path = self.clone();
        path.push(PathComponent::Normal(name.to_owned()));
        path
    }

    /// Drops the last component, unless it is a root or a prefix.
    pub fn pop(&mut self)
        ensures
            final(self)@ == if has_parent(old(self)@) {
                old(self)@.drop_last()
            } else {
                old(self)@
            },
            final(self).written() == old(self).written().parent(),
    {
        let count = self.components.len();
        if count == 0 {
            return ;
        }
        match &self.components[count - 1] {
            PathComponent::RootDir => return ,
            PathComponent::Prefix(_) => return ,
            _ => {},
        }
        let _ = self.components.pop();
        let _ = self.pieces.pop();
        self.rest = String::new();
        assert(self@ =~= old(self)@.drop_last());
        assert(self.written().pieces =~= old(self).written().parent().pieces);
        assert(self.rest@ =~= seq![]);
    }

    /// Puts one more component behind the path.
    pub fn push(&mut self, component: PathComponent)
        ensures
            final(self)@ == old(self)@.push(component@),
            final(self).written() == old(self).written().with_part(component@),
    {
        let open = self.is_open();
        let mut piece = self.rest.clone();
        if !open {
            proof {
                reveal_strlit("/");
                reveal_strlit("\\");
            }
            match self.separator {
                Separator::Slash => piece.append("/"),
                Separator::Backslash => piece.append("\\"),
            }
            assert(piece@ =~= self.rest@.push(self.separator.mark()));
        }
        let own = component.text();
        piece.append(own.as_str());
        self.components.push(component);
        self.pieces.push(piece);
        self.rest = String::new();
        assert(self@ =~= old(self)@.push(component@));
        assert(self.written().pieces =~= old(self).written().with_part(component@).pieces);
        assert(self.rest@ =~= seq![]);
    }

    /// Whether a component that is added goes right behind what is written.
    fn is_open(&self) -> (open: bool)
        ensures
            open == self.written().is_open(),
    {
        let text = self.display();
        let count = text.as_str().unicode_len();
        if count == 0 {
            return true;
        }
        let last = text.as_str().get_char(count - 1);
        let mark = match self.separator {
            Separator::Slash => '/',
            Separator::Backslash => '\\',
        };
        if last == '/' || last == mark {
            return true;
        }
        if self.components.len() == 1 && self.rest.as_str().is_empty() {
            match &self.components[0] {
                PathComponent::Prefix(name) => name.as_str().unicode_len() == 2,
                _ => false,
            }
        } else {
            false
        }
    }

    /// The path as text, for messages.
    pub fn display(&self) -> (text: String)
        ensures
            text@ == self.written().text(),
    {
        let mut text = String::new();
        let mut i: usize = 0;
        let ghost pieces = pieces_view(self.pieces@);
        assert(pieces.take(0) =~= seq![]);
        assert(text@ =~= in_one(pieces.take(0)));
        while i < self.pieces.len()
            invariant
                i <= self.pieces.len(),
                pieces == pieces_view(self.pieces@),
                text@ == in_one(pieces.take(i as int)),
            decreases self.pieces.len() - i,
        {
            assert(pieces.take(i + 1).drop_last() =~= pieces.take(i as int));
            assert(pieces.take(i + 1).last() == self.pieces@[i as int]@);
            text.append(self.pieces[i].as_str());
            i += 1;
        }
        assert(pieces.take(i as int) =~= pieces);
        text.append(self.rest.as_str());
        text
    }
}

} // verus!
