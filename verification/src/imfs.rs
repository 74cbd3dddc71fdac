//! The in-memory file system.
use crate::path::{bare_paths, starts_with, FilePath, PathView, WrittenPath};
use crate::path_table::PathTable;
use vstd::prelude::*;

verus! {

/// A file: where it is and what it holds.
#[derive(Debug)]
pub struct ImfsFile {
    pub path: FilePath,
    pub contents: Vec<u8>,
}

/// A directory: where it is and the paths of its entries, in the order in
/// which they are visited.
#[derive(Debug)]
pub struct ImfsDirectory {
    pub path: FilePath,
    pub children: Vec<FilePath>,
}

/// An entry of the file system.
#[derive(Debug)]
pub enum ImfsItem {
    File(ImfsFile),
    Directory(ImfsDirectory),
}

/// What an [`ImfsFile`] stands for.
pub struct FileView {
    pub path: WrittenPath,
    pub contents: Seq<u8>,
}

/// What an [`ImfsDirectory`] stands for.
pub struct DirectoryView {
    pub path: WrittenPath,
    pub children: Seq<WrittenPath>,
}

/// What an [`ImfsItem`] stands for.
pub enum ItemView {
    File(FileView),
    Directory(DirectoryView),
}

/// What a list of paths stands for.
pub open spec fn paths_view(paths: Seq<FilePath>) -> Seq<WrittenPath> {
    Seq::new(paths.len(), |i: int| paths[i].written())
}

impl View for ImfsFile {
    type V = FileView;

    open spec fn view(&self) -> FileView {
        FileView { path: self.path.written(), contents: self.contents@ }
    }
}

impl View for ImfsDirectory {
    type V = DirectoryView;

    open spec fn view(&self) -> DirectoryView {
        DirectoryView { path: self.path.written(), children: paths_view(self.children@) }
    }
}

impl View for ImfsItem {
    type V = ItemView;

    open spec fn view(&self) -> ItemView {
        match *self {
            ImfsItem::File(file) => ItemView::File(file@),
            ImfsItem::Directory(directory) => ItemView::Directory(directory@),
        }
    }
}

impl ItemView {
    /// Where the entry is.
    pub open spec fn path(self) -> PathView {
        match self {
            ItemView::File(file) => file.path.path,
            ItemView::Directory(directory) => directory.path.path,
        }
    }
}

impl DirectoryView {
    /// The paths of the entries.
    pub open spec fn entries(self) -> Seq<PathView> {
        bare_paths(self.children)
    }

    /// Whether no entry is listed twice, and each is directly below the directory.
    pub open spec fn well_formed(self) -> bool {
        &&& self.entries().no_duplicates()
        &&& forall|i: int|
            0 <= i < self.children.len() ==> (#[trigger] self.children[i]).path.len() > 0
                && self.children[i].path.drop_last() == self.path.path
    }
}

/// The entries of a file system by path.
pub type FsView = Map<PathView, ItemView>;

/// Whether each entry stands under its own path.
pub open spec fn fs_keyed(fs: FsView) -> bool {
    forall|path: PathView| #[trigger] fs.contains_key(path) ==> fs[path].path() == path
}

/// Whether each entry stands under its own path, no directory lists an entry twice, and
/// all that a directory lists is directly below it.
pub open spec fn fs_valid(fs: FsView) -> bool {
    &&& fs_keyed(fs)
    &&& forall|path: PathView| #[trigger]
        fs.contains_key(path) ==> (fs[path] matches ItemView::Directory(directory)
            ==> directory.well_formed())
}

/// A file system held in memory: entries by path, and the roots that are
/// watched.
#[derive(Debug)]
pub struct Imfs {
    items: PathTable<ImfsItem>,
    roots: Vec<FilePath>,
}

impl View for Imfs {
    type V = FsView;

    closed spec fn view(&self) -> FsView {
        self.items@.map_values(|item: ImfsItem| item@)
    }
}

impl Imfs {
    /// Each entry stands under its own path.
    #[verifier::type_invariant]
    spec fn keyed(self) -> bool {
        fs_keyed(self@)
    }

    /// The watched roots, in the order in which they are tried.
    pub closed spec fn roots(&self) -> Seq<WrittenPath> {
        paths_view(self.roots@)
    }

    /// A file system without entries that watches `roots`.
    pub fn new(roots: Vec<FilePath>) -> (imfs: Imfs)
        ensures
            imfs@ == Map::<PathView, ItemView>::empty(),
            imfs.roots() == paths_view(roots@),
            fs_valid(imfs@),
    {
        let items: PathTable<ImfsItem> = PathTable::new();
        assert(items@.map_values(|item: ImfsItem| item@) =~= Map::<PathView, ItemView>::empty());
        Imfs { items, roots }
    }

    /// Puts an entry under its path, in place of what was there.
    pub fn insert(&mut self, item: ImfsItem)
        ensures
            final(self)@ == old(self)@.insert(item@.path(), item@),
            final(self).roots() == old(self).roots(),
            fs_keyed(final(self)@),
            fs_valid(old(self)@) && (item@ matches ItemView::Directory(directory)
                ==> directory.well_formed()) ==> fs_valid(final(self)@),
    {
        let path = match &item {
            ImfsItem::File(file) => file.path.clone(),
            ImfsItem::Directory(directory) => directory.path.clone(),
        };
        proof {
            use_type_invariant(&*self);
        }
        let mut items: PathTable<ImfsItem> = PathTable::new();
        std::mem::swap(&mut items, &mut self.items);
        items.insert(path, item);
        assert(items@.map_values(|item: ImfsItem| item@) =~= old(self)@.insert(
            item@.path(),
            item@,
        ));
        self.items = items;
    }

    /// The entry at `path`.
    pub fn get(&self, path: &FilePath) -> (item: Option<&ImfsItem>)
        ensures
            match item {
                Some(item) => self@.contains_key(path@) && self@[path@] == item@,
                None => !self@.contains_key(path@),
            },
    {
        self.items.get(path)
    }

    /// The first root that `path` lies under.
    pub fn get_root_for_path(&self, path: &FilePath) -> (root: Option<&FilePath>)
        ensures
            match root {
                Some(root) => root_for_path(self.roots(), path@) == Some(root.written()),
                None => root_for_path(self.roots(), path@) is None,
            },
            match root {
                Some(root) => exists|i: int|
                    {
                        &&& 0 <= i < self.roots().len()
                        &&& #[trigger] self.roots()[i] == root.written()
                        &&& starts_with(path@, root@)
                        &&& forall|j: int|
                            0 <= j < i ==> !starts_with(path@, (#[trigger] self.roots()[j]).path)
                    },
                None => forall|i: int|
                    0 <= i < self.roots().len() ==> !starts_with(
                        path@,
                        (#[trigger] self.roots()[i]).path,
                    ),
            },
            fs_keyed(self@),
    {
        proof {
            use_type_invariant(self);
        }
        let mut i: usize = 0;
        assert(self.roots().skip(0) =~= self.roots());
        while i < self.roots.len()
            invariant
                i <= self.roots.len(),
                fs_keyed(self@),
                self.roots().len() == self.roots.len(),
                root_for_path(self.roots(), path@) == root_for_path(
                    self.roots().skip(i as int),
                    path@,
                ),
                forall|j: int|
                    0 <= j < i ==> !starts_with(path@, (#[trigger] self.roots()[j]).path),
            decreases self.roots.len() - i,
        {
            assert(self.roots().skip(i as int)[0] == self.roots@[i as int].written());
            assert(self.roots()[i as int] == self.roots@[i as int].written());
            if path.starts_with(&self.roots[i]) {
                return Some(&self.roots[i]);
            }
            assert(self.roots().skip(i as int).drop_first() =~= self.roots().skip(i + 1));
            i += 1;
        }
        None
    }
}

/// The first of `roots` that is `path` or one of its ancestors.
pub open spec fn root_for_path(roots: Seq<WrittenPath>, path: PathView) -> Option<WrittenPath>
    decreases roots.len(),
{
    if roots.len() == 0 {
        None
    } else if starts_with(path, roots[0].path) {
        Some(roots[0])
    } else {
        root_for_path(roots.drop_first(), path)
    }
}

} // verus!
