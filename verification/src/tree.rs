//! What a program has seen of the file system: files, and directories with their entries.

use crate::path::{holds_path, same_path, PosixPath};
use vstd::prelude::*;

verus! {

/// A directory and the names in it, as contracts speak of it.
pub struct DirectoryView {
    pub path: Seq<u8>,
    pub entries: Option<Seq<Seq<u8>>>,
}

/// What was seen of the file system, as contracts speak of it.
pub struct TreeView {
    pub files: Seq<Seq<u8>>,
    pub directories: Seq<DirectoryView>,
}

/// The first directory in the list with the path `p`.
pub open spec fn find_directory(list: Seq<DirectoryView>, p: Seq<u8>) -> Option<DirectoryView>
    decreases list.len(),
{
    if list.len() == 0 {
        None
    } else if same_path(list[0].path, p) {
        Some(list[0])
    } else {
        find_directory(list.skip(1), p)
    }
}

impl TreeView {
    /// Whether `p` is a file.
    pub open spec fn is_file(self, p: Seq<u8>) -> bool {
        holds_path(self.files, p)
    }

    /// Whether `p` is a directory.
    pub open spec fn is_dir(self, p: Seq<u8>) -> bool {
        find_directory(self.directories, p) is Some
    }

    /// The names in the directory `p`, if it is one that can be read.
    pub open spec fn listing(self, p: Seq<u8>) -> Option<Seq<Seq<u8>>> {
        match find_directory(self.directories, p) {
            Some(directory) => directory.entries,
            None => None,
        }
    }
}

/// A directory and the names in it.
#[derive(Debug)]
pub struct Directory {
    /// Where the directory is.
    pub path: PosixPath,
    /// The names in it, or nothing if it cannot be read.
    pub entries: Option<Vec<Vec<u8>>>,
}

impl DeepView for Directory {
    type V = DirectoryView;

    open spec fn deep_view(&self) -> DirectoryView {
        DirectoryView { path: self.path@, entries: self.entries.deep_view() }
    }
}

/// What was seen of the file system.
#[derive(Debug)]
pub struct Tree {
    /// The files.
    pub files: Vec<PosixPath>,
    /// The directories.
    pub directories: Vec<Directory>,
}

impl View for Tree {
    type V = TreeView;

    open spec fn view(&self) -> TreeView {
        TreeView { files: self.files.deep_view(), directories: self.directories.deep_view() }
    }
}

impl Tree {
    /// Whether `path` is a file.
    pub fn is_file(&self, path: &PosixPath) -> (b: bool)
        ensures
            b == self@.is_file(path@),
    {
        let mut i: usize = 0;
        while i < self.files.len()
            invariant
                i <= self.files.len(),
                forall|j: int| 0 <= j < i ==> !#[trigger] same_path(self@.files[j], path@),
            decreases self.files.len() - i,
        {
            if self.files[i].same(path) {
                assert(same_path(self@.files[i as int], path@));
                return true;
            }
            i = i + 1;
        }
        false
    }

    /// The directory with the given path.
    fn directory(&self, path: &PosixPath) -> (found: Option<&Directory>)
        ensures
            match found {
                Some(d) => find_directory(self@.directories, path@) == Some(d.deep_view()),
                None => find_directory(self@.directories, path@) is None,
            },
    {
        let mut i: usize = 0;
        let ghost all = self@.directories;
        assert(all.skip(0) =~= all);
        while i < self.directories.len()
            invariant
                i <= self.directories.len(),
                all == self@.directories,
                find_directory(all, path@) == find_directory(all.skip(i as int), path@),
            decreases self.directories.len() - i,
        {
            assert(all.skip(i as int)[0] == self.directories@[i as int].deep_view());
            if self.directories[i].path.same(path) {
                return Some(&self.directories[i]);
            }
            assert(all.skip(i as int).skip(1) =~= all.skip(i + 1));
            i = i + 1;
        }
        None
    }

    /// Whether `path` is a directory.
    pub fn is_dir(&self, path: &PosixPath) -> (b: bool)
        ensures
            b == self@.is_dir(path@),
    {
        self.directory(path).is_some()
    }

    /// The names in the directory `path`, if it is one that can be read.
    pub fn read_dir(&self, path: &PosixPath) -> (names: Option<&Vec<Vec<u8>>>)
        ensures
            match names {
                Some(list) => self@.listing(path@) == Some(list.deep_view()),
                None => self@.listing(path@) is None,
            },
    {
        match self.directory(path) {
            Some(directory) => match &directory.entries {
                Some(list) => Some(list),
                None => None,
            },
            None => None,
        }
    }
}

}
