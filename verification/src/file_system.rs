//! Labels, paths and labelled directory trees.
//!
//! A [`Directory`] has a label and an ordered list of entries: files,
//! sub-directories and the opaque repository marker. Paths that address such a
//! tree start with the label of the directory that is searched.

pub mod directory;
pub mod laws;
pub mod path;

pub use path::{Label, Path};

use nonempty::NonEmpty;
use std::collections::HashMap;
use vstd::prelude::*;

verus! {

/// A `File` consists of its file name (a `Label`) and its file contents.
#[derive(Debug, PartialEq, Eq)]
pub struct File {
    pub filename: Label,
    pub contents: Vec<u8>,
}

/// What a `File` is: its name and its bytes.
pub ghost struct FileView {
    pub filename: Seq<char>,
    pub contents: Seq<u8>,
}

impl View for File {
    type V = FileView;

    open spec fn view(&self) -> FileView {
        FileView { filename: self.filename@, contents: self.contents@ }
    }
}

impl Clone for File {
    fn clone(&self) -> (res: Self)
        ensures
            res@ == self@,
    {
        File { filename: self.filename.clone(), contents: self.contents.clone() }
    }
}

/// `SystemType` is an enumeration over what can be found in a `Directory` so
/// we can report back to the caller a `Label` and its type.
#[derive(Debug, Clone, Copy, PartialEq, Eq, PartialOrd, Ord)]
pub enum SystemType {
    File,
    Directory,
}

impl SystemType {
    /// A file name and `SystemType::File`.
    pub fn file(label: Label) -> (res: (Label, Self))
        ensures
            res.0 == label,
            res.1 == SystemType::File,
    {
        (label, SystemType::File)
    }

    /// A directory name and `SystemType::Directory`.
    pub fn directory(label: Label) -> (res: (Label, Self))
        ensures
            res.0 == label,
            res.1 == SystemType::Directory,
    {
        (label, SystemType::Directory)
    }
}

/// A trait to say how to initialise a repository `Directory`. For example,
/// Git would initialise with the `.git` folder and the files contained in it.
pub trait RepoBackend: Sized {
    /// What the repository directory of this backend is. This is a
    /// specification function: contracts speak of it, and nothing runs it.
    spec fn repo_view() -> DirectoryView;

    /// The repository directory of this backend, the same at every call.
    fn repo_directory() -> (res: Directory)
        ensures
            res@ == Self::repo_view(),
    ;
}

/// A `DirectoryContents` is made up of either:
/// * A `SubDirectory`
/// * A `File`
/// * A `Repo`, which is expected to be the special repository directory, but
///   is opaque to the user.
#[derive(Debug, PartialEq, Eq)]
pub enum DirectoryContents {
    SubDirectory(Box<Directory>),
    File(File),
    Repo,
}

/// A `Directory` consists of its `Label` and its entries, in the order in
/// which they were added. A directory of a snapshot has at least one entry:
/// see [`DirectoryView::populated`].
///
/// The entries are a `Vec`, not a `NonEmpty`: a directory holds directories,
/// and Verus admits no type that holds itself through a type of another
/// crate. What is handed in keeps its type: see `add_contents`.
#[derive(Debug, PartialEq, Eq)]
pub struct Directory {
    pub label: Label,
    pub entries: Vec<DirectoryContents>,
}

/// What a `DirectoryContents` is.
pub ghost enum ContentsView {
    SubDirectory(DirectoryView),
    File(FileView),
    Repo,
}

/// What a `Directory` is: its label and its entries in order.
pub ghost struct DirectoryView {
    pub label: Seq<char>,
    pub entries: Seq<ContentsView>,
}

impl DirectoryContents {
    /// The entry as a mathematical value.
    pub open spec fn model(&self) -> ContentsView
        decreases self,
    {
        match self {
            DirectoryContents::SubDirectory(directory) => ContentsView::SubDirectory(
                directory.model(),
            ),
            DirectoryContents::File(file) => ContentsView::File(file@),
            DirectoryContents::Repo => ContentsView::Repo,
        }
    }
}

impl Directory {
    /// The directory as a mathematical value.
    pub open spec fn model(&self) -> DirectoryView
        decreases self,
    {
        DirectoryView {
            label: self.label@,
            entries: Seq::new(
                self.entries@.len(),
                |i: int|
                    if 0 <= i < self.entries@.len() {
                        self.entries@[i].model()
                    } else {
                        ContentsView::Repo
                    },
            ),
        }
    }
}

impl View for DirectoryContents {
    type V = ContentsView;

    open spec fn view(&self) -> ContentsView {
        self.model()
    }
}

impl View for Directory {
    type V = DirectoryView;

    open spec fn view(&self) -> DirectoryView {
        self.model()
    }
}

/// The views of a sequence of entries, in order.
pub open spec fn contents_views(entries: Seq<DirectoryContents>) -> Seq<ContentsView> {
    Seq::new(entries.len(), |i: int| entries[i]@)
}

/// A listing as a mathematical value: each label by its view.
pub open spec fn listing_views(listing: Seq<(Label, SystemType)>) -> Seq<(Seq<char>, SystemType)> {
    Seq::new(listing.len(), |i: int| (listing[i].0@, listing[i].1))
}

impl ContentsView {
    /// Whether the entry is a sub-directory with this label.
    pub open spec fn is_directory_named(self, label: Seq<char>) -> bool {
        self matches ContentsView::SubDirectory(directory) && directory.label == label
    }

    /// Whether the entry is a file with this name.
    pub open spec fn is_file_named(self, label: Seq<char>) -> bool {
        self matches ContentsView::File(file) && file.filename == label
    }

    /// What a listing shows of the entry: nothing for the repository marker.
    pub open spec fn listed(self) -> Seq<(Seq<char>, SystemType)> {
        match self {
            ContentsView::SubDirectory(directory) => seq![(directory.label, SystemType::Directory)],
            ContentsView::File(file) => seq![(file.filename, SystemType::File)],
            ContentsView::Repo => Seq::empty(),
        }
    }
}

/// The index of the first sub-directory with this label among the entries
/// from index `from` on.
pub open spec fn sub_directory_from(entries: Seq<ContentsView>, label: Seq<char>, from: int) -> Option<int>
    decreases entries.len() - from,
{
    if from < 0 || from >= entries.len() {
        None
    } else if entries[from].is_directory_named(label) {
        Some(from)
    } else {
        sub_directory_from(entries, label, from + 1)
    }
}

/// The index of the first file with this name among the entries from index
/// `from` on.
pub open spec fn file_from(entries: Seq<ContentsView>, label: Seq<char>, from: int) -> Option<int>
    decreases entries.len() - from,
{
    if from < 0 || from >= entries.len() {
        None
    } else if entries[from].is_file_named(label) {
        Some(from)
    } else {
        file_from(entries, label, from + 1)
    }
}

/// What a listing shows of the entries, in their order.
pub open spec fn listing_of(entries: Seq<ContentsView>) -> Seq<(Seq<char>, SystemType)>
    decreases entries.len(),
{
    if entries.len() == 0 {
        Seq::empty()
    } else {
        listing_of(entries.drop_last()) + entries.last().listed()
    }
}

/// The sub-directories among the entries, in their order.
pub open spec fn sub_directories_of(entries: Seq<ContentsView>) -> Seq<DirectoryView>
    decreases entries.len(),
{
    if entries.len() == 0 {
        Seq::empty()
    } else {
        match entries.last() {
            ContentsView::SubDirectory(directory) => sub_directories_of(entries.drop_last()).push(
                directory,
            ),
            _ => sub_directories_of(entries.drop_last()),
        }
    }
}

impl DirectoryView {
    /// The directory with this label and one entry, the sub-directory given.
    pub open spec fn mkdir(label: Seq<char>, directory: DirectoryView) -> DirectoryView {
        DirectoryView { label, entries: seq![ContentsView::SubDirectory(directory)] }
    }

    /// The first sub-directory with this label, if there is one.
    pub open spec fn sub_directory(self, label: Seq<char>) -> Option<DirectoryView> {
        match sub_directory_from(self.entries, label, 0) {
            Some(i) => Some(self.entries[i]->SubDirectory_0),
            None => None,
        }
    }

    /// The first file with this name, if there is one.
    pub open spec fn file_in_directory(self, label: Seq<char>) -> Option<FileView> {
        match file_from(self.entries, label, 0) {
            Some(i) => Some(self.entries[i]->File_0),
            None => None,
        }
    }

    /// The directory that is reached by going down through sub-directories
    /// with the labels given, in order.
    pub open spec fn descend(self, labels: Seq<Seq<char>>) -> Option<DirectoryView>
        decreases labels.len(),
    {
        if labels.len() == 0 {
            Some(self)
        } else {
            match self.sub_directory(labels.first()) {
                Some(directory) => directory.descend(labels.skip(1)),
                None => None,
            }
        }
    }

    /// The directory at a path: the path starts with the label of this
    /// directory, and each further label selects a sub-directory.
    pub open spec fn find_directory(self, path: Seq<Seq<char>>) -> Option<DirectoryView> {
        if path.len() > 0 && path.first() == self.label {
            self.descend(path.skip(1))
        } else {
            None
        }
    }

    /// The file at a path: its last label is the name of the file, the labels
    /// before it are the path of the directory that holds it. With one label
    /// the file is looked for in this directory itself.
    pub open spec fn find_file(self, path: Seq<Seq<char>>) -> Option<FileView> {
        if path.len() == 0 {
            None
        } else if path.len() == 1 {
            self.file_in_directory(path.last())
        } else {
            match self.find_directory(path.drop_last()) {
                Some(directory) => directory.file_in_directory(path.last()),
                None => None,
            }
        }
    }

    /// This directory with the entries of another directory of the same
    /// place merged in, one after the other: a file and the repository marker
    /// are added at the end, a sub-directory is combined.
    pub open spec fn absorb(self, entries: Seq<ContentsView>) -> DirectoryView
        decreases entries,
    {
        if entries.len() == 0 {
            self
        } else {
            let merged = self.absorb(entries.drop_last());
            match entries.last() {
                ContentsView::SubDirectory(directory) => merged.combine(directory),
                entry => DirectoryView { label: merged.label, entries: merged.entries.push(entry) },
            }
        }
    }

    /// This directory with `other` merged in as a sub-directory: where a
    /// sub-directory with the label of `other` exists, the first such takes
    /// up the entries of `other`; where none does, `other` becomes the last
    /// entry.
    pub open spec fn combine(self, other: DirectoryView) -> DirectoryView
        decreases other,
    {
        match sub_directory_from(self.entries, other.label, 0) {
            Some(i) => DirectoryView {
                label: self.label,
                entries: self.entries.update(
                    i,
                    ContentsView::SubDirectory(
                        (self.entries[i]->SubDirectory_0).absorb(other.entries),
                    ),
                ),
            },
            None => DirectoryView {
                label: self.label,
                entries: self.entries.push(ContentsView::SubDirectory(other)),
            },
        }
    }

    /// The directory at the end of a chain of directories, one for each label
    /// of a path, each the only entry of the one before: the innermost, named
    /// by the last label, holds the entries given.
    pub open spec fn nested(path: Seq<Seq<char>>, entries: Seq<ContentsView>) -> DirectoryView
        decreases path.len(),
    {
        if path.len() <= 1 {
            DirectoryView { label: path.last(), entries }
        } else {
            Self::mkdir(path.first(), Self::nested(path.skip(1), entries))
        }
    }

    /// This directory with the entries of one directory path added. For the
    /// root path the entries become the last entries of this directory
    /// itself; for another path the chain of directories of the path, which
    /// ends in the entries, is combined into this directory.
    pub open spec fn with_entries(
        self,
        path: Seq<Seq<char>>,
        entries: Seq<ContentsView>,
    ) -> DirectoryView {
        if path == Path::root_view() {
            DirectoryView { label: self.label, entries: self.entries + entries }
        } else {
            self.combine(Self::nested(path, entries))
        }
    }

    /// This directory with the files of one directory path added, as
    /// entries.
    pub open spec fn with_files(self, path: Seq<Seq<char>>, files: Seq<FileView>) -> DirectoryView {
        self.with_entries(path, file_entries(files))
    }

    /// This directory with the files of each directory path added, one
    /// pair after the other.
    pub open spec fn with_all(self, pairs: Seq<(Seq<Seq<char>>, Seq<FileView>)>) -> DirectoryView
        decreases pairs.len(),
    {
        if pairs.len() == 0 {
            self
        } else {
            self.with_all(pairs.drop_last()).with_files(pairs.last().0, pairs.last().1)
        }
    }

    /// Whether this directory and every directory below it has an entry.
    pub open spec fn populated(self) -> bool
        decreases self,
    {
        &&& self.entries.len() > 0
        &&& forall|i: int|
            0 <= i < self.entries.len() ==> (#[trigger] self.entries[i]
                matches ContentsView::SubDirectory(directory) ==> directory.populated())
    }
}

impl DirectoryContents {
    /// Helper constructor for a `SubDirectory`.
    pub fn sub_directory(directory: Directory) -> (res: Self)
        ensures
            res@ == ContentsView::SubDirectory(directory@),
    {
        DirectoryContents::SubDirectory(Box::new(directory))
    }

    /// Helper constructor for a `File`.
    pub fn file(filename: Label, contents: &[u8]) -> (res: Self)
        ensures
            res@ == ContentsView::File(FileView { filename: filename@, contents: contents@ }),
    {
        DirectoryContents::File(File { filename, contents: vstd::slice::slice_to_vec(contents) })
    }

    /// Helper constructor for a `Repo`.
    pub fn repo() -> (res: Self)
        ensures
            res@ == ContentsView::Repo,
    {
        DirectoryContents::Repo
    }

    /// A copy of the entry, with everything below it.
    fn duplicate(&self) -> (res: Self)
        ensures
            res@ == self@,
        decreases self,
    {
        match self {
            DirectoryContents::SubDirectory(directory) => DirectoryContents::SubDirectory(
                Box::new(directory.duplicate()),
            ),
            DirectoryContents::File(file) => DirectoryContents::File(file.clone()),
            DirectoryContents::Repo => DirectoryContents::Repo,
        }
    }
}

impl Clone for DirectoryContents {
    fn clone(&self) -> (res: Self)
        ensures
            res@ == self@,
    {
        self.duplicate()
    }
}

impl Directory {
    /// A copy of the directory, with everything below it.
    fn duplicate(&self) -> (res: Self)
        ensures
            res@ == self@,
        decreases self,
    {
        let mut entries: Vec<DirectoryContents> = Vec::new();
        let mut i: usize = 0;
        while i < self.entries.len()
            invariant
                i <= self.entries@.len(),
                entries@.len() == i,
                forall|j: int| 0 <= j < i ==> entries@[j]@ == self.entries@[j]@,
            decreases self.entries@.len() - i,
        {
            entries.push(self.entries[i].duplicate());
            i += 1;
        }
        let res = Directory { label: self.label.clone(), entries };
        assert(res@.entries =~= self@.entries);
        res
    }

    /// Helper function for creating a `Directory` with a given sub-directory.
    pub fn mkdir(label: Label, dir: Self) -> (res: Self)
        ensures
            res@ == DirectoryView::mkdir(label@, dir@),
    {
        let mut entries: Vec<DirectoryContents> = Vec::new();
        entries.push(DirectoryContents::sub_directory(dir));
        let res = Directory { label, entries };
        assert(res@.entries =~= DirectoryView::mkdir(label@, dir@).entries);
        res
    }

    /// List the current `Directory`'s files and sub-directories, in the
    /// order of the entries. The repository marker is not listed.
    pub fn list_directory(&self) -> (res: Vec<(Label, SystemType)>)
        ensures
            listing_views(res@) == listing_of(self@.entries),
    {
        let mut listing: Vec<(Label, SystemType)> = Vec::new();
        let mut i: usize = 0;
        while i < self.entries.len()
            invariant
                i <= self.entries@.len(),
                listing_views(listing@) == listing_of(self@.entries.take(i as int)),
            decreases self.entries@.len() - i,
        {
            let ghost before = listing@;
            assert(self@.entries.take(i + 1).drop_last() =~= self@.entries.take(i as int));
            assert(self@.entries.take(i + 1).last() == self.entries@[i as int]@);
            match &self.entries[i] {
                DirectoryContents::SubDirectory(dir) => {
                    listing.push(SystemType::directory(dir.label.clone()));
                    assert(listing_views(listing@) =~= listing_views(before) + seq![
                        (dir.label@, SystemType::Directory),
                    ]);
                },
                DirectoryContents::File(file) => {
                    listing.push(SystemType::file(file.filename.clone()));
                    assert(listing_views(listing@) =~= listing_views(before) + seq![
                        (file.filename@, SystemType::File),
                    ]);
                },
                DirectoryContents::Repo => {
                    assert(listing_views(listing@) =~= listing_views(before) + Seq::empty());
                },
            }
            i += 1;
        }
        assert(self@.entries.take(i as int) =~= self@.entries);
        listing
    }

    /// Get the sub directories of a `Directory`, in the order of the
    /// entries.
    pub fn sub_directories(&self) -> (res: Vec<Self>)
        ensures
            directory_views(res@) == sub_directories_of(self@.entries),
    {
        let mut directories: Vec<Directory> = Vec::new();
        let mut i: usize = 0;
        while i < self.entries.len()
            invariant
                i <= self.entries@.len(),
                directory_views(directories@) == sub_directories_of(self@.entries.take(i as int)),
            decreases self.entries@.len() - i,
        {
            let ghost before = directories@;
            assert(self@.entries.take(i + 1).drop_last() =~= self@.entries.take(i as int));
            assert(self@.entries.take(i + 1).last() == self.entries@[i as int]@);
            match &self.entries[i] {
                DirectoryContents::SubDirectory(dir) => {
                    directories.push(dir.duplicate());
                    assert(directory_views(directories@) =~= directory_views(before).push(dir@));
                },
                _ => {},
            }
            i += 1;
        }
        assert(self@.entries.take(i as int) =~= self@.entries);
        directories
    }

    /// The first sub-directory with this label, borrowed.
    fn sub_directory_ref(&self, label: &Label) -> (res: Option<&Self>)
        ensures
            match res {
                Some(directory) => self@.sub_directory(label@) == Some(directory@),
                None => self@.sub_directory(label@) is None,
            },
    {
        let mut i: usize = 0;
        while i < self.entries.len()
            invariant
                i <= self.entries@.len(),
                sub_directory_from(self@.entries, label@, 0) == sub_directory_from(
                    self@.entries,
                    label@,
                    i as int,
                ),
            decreases self.entries@.len() - i,
        {
            assert(self@.entries[i as int] == self.entries@[i as int]@);
            match &self.entries[i] {
                DirectoryContents::SubDirectory(dir) => {
                    if dir.label == *label {
                        return Some(dir);
                    }
                },
                _ => {},
            }
            i += 1;
        }
        None
    }

    /// Get the a sub directory of a `Directory` given its name: the first
    /// one with that label.
    ///
    /// This operation fails if the directory does not exist.
    pub fn sub_directory(&self, label: &Label) -> (res: Option<Self>)
        ensures
            match res {
                Some(directory) => self@.sub_directory(label@) == Some(directory@),
                None => self@.sub_directory(label@) is None,
            },
    {
        match self.sub_directory_ref(label) {
            Some(directory) => Some(directory.duplicate()),
            None => None,
        }
    }

    /// Get the `File` in the current `Directory` if it exists in the entries:
    /// the first one with that name.
    ///
    /// The operation fails if the `File` does not exist in the `Directory`.
    pub fn file_in_directory(&self, label: &Label) -> (res: Option<File>)
        ensures
            match res {
                Some(file) => self@.file_in_directory(label@) == Some(file@),
                None => self@.file_in_directory(label@) is None,
            },
    {
        let mut i: usize = 0;
        while i < self.entries.len()
            invariant
                i <= self.entries@.len(),
                file_from(self@.entries, label@, 0) == file_from(self@.entries, label@, i as int),
            decreases self.entries@.len() - i,
        {
            assert(self@.entries[i as int] == self.entries@[i as int]@);
            match &self.entries[i] {
                DirectoryContents::File(file) => {
                    if file.filename == *label {
                        return Some(file.clone());
                    }
                },
                DirectoryContents::SubDirectory(_) => {},
                DirectoryContents::Repo => {},
            }
            i += 1;
        }
        None
    }

    /// The directory at a path, borrowed.
    fn find_directory_ref(&self, path: &Path) -> (res: Option<&Self>)
        ensures
            match res {
                Some(directory) => self@.find_directory(path@) == Some(directory@),
                None => self@.find_directory(path@) is None,
            },
    {
        let (label, labels) = path.split_first();
        if *label == self.label {
            let mut directory: &Directory = self;
            let mut i: usize = 0;
            assert(path@.skip(1).skip(0) =~= path@.skip(1));
            while i < labels.len()
                invariant
                    i <= labels@.len(),
                    path@.skip(1) == path::label_views(labels@),
                    self@.descend(path@.skip(1)) == directory@.descend(
                        path@.skip(1).skip(i as int),
                    ),
                decreases labels@.len() - i,
            {
                assert(path@.skip(1).skip(i as int).first() == labels@[i as int]@);
                assert(path@.skip(1).skip(i as int).skip(1) =~= path@.skip(1).skip(i + 1));
                match directory.sub_directory_ref(&labels[i]) {
                    Some(next) => {
                        directory = next;
                    },
                    None => {
                        return None;
                    },
                }
                i += 1;
            }
            Some(directory)
        } else {
            None
        }
    }

    /// Find a `Directory` in the directory given the `Path` to the
    /// `Directory`.
    ///
    /// The path starts with the label of this directory. This operation
    /// fails if the path does not lead to a `Directory`.
    pub fn find_directory(&self, path: &Path) -> (res: Option<Self>)
        ensures
            match res {
                Some(directory) => self@.find_directory(path@) == Some(directory@),
                None => self@.find_directory(path@) is None,
            },
            self@.populated() ==> (res matches Some(directory) ==> directory@.populated()),
    {
        proof {
            if self@.populated() && self@.find_directory(path@) is Some {
                lemma_descend_populated(self@, path@.skip(1));
            }
        }
        match self.find_directory_ref(path) {
            Some(directory) => Some(directory.duplicate()),
            None => None,
        }
    }

    /// Find a `File` in the directory given the `Path` to the `File`.
    ///
    /// The last label of the path is the name of the file; the labels before
    /// it are the path of the directory that holds it, which starts with the
    /// label of this directory. With one label the file is looked for in
    /// this directory itself. This operation fails if the path does not lead
    /// to the `File`.
    pub fn find_file(&self, path: &Path) -> (res: Option<File>)
        ensures
            match res {
                Some(file) => self@.find_file(path@) == Some(file@),
                None => self@.find_file(path@) is None,
            },
    {
        let (prefix, filename) = path.split_last();
        assert(path::label_views(prefix@).len() == prefix@.len());
        match path::nonempty_from_slice(prefix.as_slice()) {
            None => self.file_in_directory(&filename),
            Some(labels) => {
                let directory_path = Path(labels);
                match self.find_directory_ref(&directory_path) {
                    Some(directory) => directory.file_in_directory(&filename),
                    None => None,
                }
            },
        }
    }

    /// The index of the first sub-directory with this label.
    fn sub_directory_index(&self, label: &Label) -> (res: Option<usize>)
        ensures
            match res {
                Some(i) => sub_directory_from(self@.entries, label@, 0) == Some(i as int) && i
                    < self.entries@.len() && self.entries@[i as int] is SubDirectory,
                None => sub_directory_from(self@.entries, label@, 0) is None,
            },
    {
        let mut i: usize = 0;
        while i < self.entries.len()
            invariant
                i <= self.entries@.len(),
                sub_directory_from(self@.entries, label@, 0) == sub_directory_from(
                    self@.entries,
                    label@,
                    i as int,
                ),
            decreases self.entries@.len() - i,
        {
            assert(self@.entries[i as int] == self.entries@[i as int]@);
            match &self.entries[i] {
                DirectoryContents::SubDirectory(dir) => {
                    if dir.label == *label {
                        return Some(i);
                    }
                },
                _ => {},
            }
            i += 1;
        }
        None
    }

    /// Get the a sub directory of a `Directory` given its name, to change
    /// it: the first one with that label.
    ///
    /// This operation fails if the directory does not exist.
    fn sub_directory_mut(&mut self, label: &Label) -> (res: Option<&mut Self>)
        ensures
            match res {
                Some(directory) => match sub_directory_from(old(self)@.entries, label@, 0) {
                    Some(i) => directory@ == old(self)@.entries[i]->SubDirectory_0
                        && final(self)@.label == old(self)@.label && final(self)@.entries == old(
                        self,
                    )@.entries.update(i, ContentsView::SubDirectory(final(directory)@)),
                    None => false,
                },
                None => sub_directory_from(old(self)@.entries, label@, 0) is None && *final(self)
                    == *old(self),
            },
    {
        match self.sub_directory_index(label) {
            Some(i) => {
                match &mut self.entries[i] {
                    DirectoryContents::SubDirectory(directory) => Some(&mut **directory),
                    _ => None,
                }
            },
            None => None,
        }
    }

    /// Add the entries given at the end of this directory's entries, in
    /// their order.
    pub fn add_contents(&mut self, entries: NonEmpty<DirectoryContents>)
        ensures
            final(self)@.label == old(self)@.label,
            final(self)@.entries == old(self)@.entries + contents_of(entries),
            contents_of(entries).len() >= 1,
    {
        let mut added = nonempty_contents_into_vec(entries);
        assert(contents_views(added@).len() == added@.len());
        self.entries.append(&mut added);
        assert(self@.entries =~= old(self)@.entries + contents_of(entries));
    }

    /// An empty root `Directory`, just containing the special repository
    /// directory.
    pub fn empty_root<Repo>() -> (res: Self) where Repo: RepoBackend
        ensures
            res@ == DirectoryView::mkdir(Label::root_view(), Repo::repo_view()),
    {
        Directory::mkdir(Label::root(), Repo::repo_directory())
    }

    /// The chain of directories of a path whose innermost directory holds
    /// the entries given.
    fn nested(prefix: Vec<Label>, current: Label, entries: Vec<DirectoryContents>) -> (res: Self)
        ensures
            res@ == DirectoryView::nested(
                path::label_views(prefix@).push(current@),
                contents_views(entries@),
            ),
    {
        let ghost path = path::label_views(prefix@).push(current@);
        let ghost inner = contents_views(entries@);
        let mut directory = Directory { label: current, entries };
        assert(directory@.entries =~= inner);
        let mut k: usize = prefix.len();
        assert(path.skip(k as int) =~= seq![current@]);
        while k > 0
            invariant
                k <= prefix@.len(),
                path == path::label_views(prefix@).push(current@),
                directory@ == DirectoryView::nested(path.skip(k as int), inner),
            decreases k,
        {
            k -= 1;
            assert(path.skip(k as int).skip(1) =~= path.skip(k + 1));
            assert(path.skip(k as int).first() == prefix@[k as int]@);
            directory = Directory::mkdir(prefix[k].clone(), directory);
        }
        assert(path.skip(0) =~= path);
        directory
    }

    /// Add the files of one directory path to this directory.
    ///
    /// Files of the root path become the last entries of this directory
    /// itself. For another path the directories of the path are made, one
    /// inside the other and the files in the innermost, and combined into
    /// this directory.
    pub fn add_files(&mut self, dir: &Path, files: NonEmpty<File>)
        ensures
            final(self)@ == old(self)@.with_files(dir@, files_of(files)),
            files_of(files).len() >= 1,
            old(self)@.populated() ==> final(self)@.populated(),
    {
        let entries = nonempty_contents_into_vec(nonempty_map_files(files));
        assert(contents_views(entries@).len() == entries@.len());
        assert(file_entries(files_of(files)).len() == files_of(files).len());
        proof {
            if self@.populated() {
                lemma_with_files_populated(self@, dir@, files_of(files));
            }
        }
        self.add_entries(dir, entries)
    }

    /// Add the entries of one directory path to this directory.
    ///
    /// Entries of the root path become the last entries of this directory
    /// itself. For another path the directories of the path are made, one
    /// inside the other and the entries in the innermost, and combined into
    /// this directory.
    pub fn add_entries(&mut self, dir: &Path, entries: Vec<DirectoryContents>)
        ensures
            final(self)@ == old(self)@.with_entries(dir@, contents_views(entries@)),
    {
        if dir.is_root() {
            let mut entries = entries;
            let ghost added = contents_views(entries@);
            self.entries.append(&mut entries);
            assert(self@.entries =~= old(self)@.entries + added);
        } else {
            let (prefix, current) = dir.split_last();
            let directory = Directory::nested(prefix, current, entries);
            self.combine(&directory)
        }
    }

    /// Add the files of each pair of a directory path and its files to
    /// `root`, one pair after the other.
    pub fn from_pairs(root: Self, pairs: Vec<(Path, NonEmpty<File>)>) -> (res: Self)
        ensures
            res@ == root@.with_all(pair_views(pairs@)),
            root@.populated() ==> res@.populated(),
            forall|i: int| 0 <= i < pairs@.len() ==> (#[trigger] pair_views(pairs@)[i]).1.len() >= 1,
    {
        let mut root = root;
        let ghost start = root@;
        let ghost all = pair_views(pairs@);
        assert(all.take(0) =~= Seq::empty());
        for pair in it: pairs.into_iter()
            invariant
                all == pair_views(pairs@),
                it.seq() == pairs@,
                root@ == start.with_all(all.take(it.index() as int)),
                start.populated() ==> root@.populated(),
                forall|i: int| 0 <= i < it.index() ==> (#[trigger] all[i]).1.len() >= 1,
        {
            let ghost k = it.index() as int;
            assert(all.take(k + 1).drop_last() =~= all.take(k));
            assert(all.take(k + 1).last() == (pair.0@, files_of(pair.1)));
            let (dir, files) = pair;
            root.add_files(&dir, files);
        }
        assert(all.take(pairs@.len() as int) =~= all);
        root
    }

    /// Build the directory of a snapshot from the files of each of its
    /// directory paths: the root directory with the repository directory of
    /// `Repo` as its first entry, and the files of each path added to it as
    /// `add_files` does, in the order in which the map hands its pairs out.
    /// In whatever order that is, the directory of each path is found at the
    /// path, and each of its files in it.
    pub fn from<Repo>(paths: HashMap<Path, NonEmpty<File>>) -> (res: Self) where Repo: RepoBackend
        ensures
            res@.label == Label::root_view(),
            res@.entries.len() >= 1,
            Repo::repo_view().populated() ==> res@.populated(),
            exists|pairs: Seq<(Path, NonEmpty<File>)>|
                {
                    &&& #[trigger] path::pairs_of_map(pairs, paths@)
                    &&& res@ == DirectoryView::mkdir(
                        Label::root_view(),
                        Repo::repo_view(),
                    ).with_all(pair_views(pairs))
                    &&& forall|i: int|
                        0 <= i < pairs.len() ==> (#[trigger] pair_views(pairs)[i]).1.len() >= 1
                },
            forall|key: Path| #[trigger]
                paths@.contains_key(key) && key@.len() > 0 ==> {
                    &&& res@.descend(directory::place_of(key@)) is Some
                    &&& laws::holds_all(
                        res@.descend(directory::place_of(key@))->Some_0,
                        files_of(paths@[key]),
                    )
                },
    {
        let root = Directory::empty_root::<Repo>();
        let pairs = path::hash_map_into_pairs(paths);
        proof {
            lemma_with_all_keeps(root@, pair_views(pairs@));
        }
        let res = Directory::from_pairs(root, pairs);
        assert(path::pairs_of_map(pairs@, paths@));
        proof {
            let views = pair_views(pairs@);
            assert forall|key: Path| #[trigger]
                paths@.contains_key(key) && key@.len() > 0 implies {
                &&& res@.descend(directory::place_of(key@)) is Some
                &&& laws::holds_all(
                    res@.descend(directory::place_of(key@))->Some_0,
                    files_of(paths@[key]),
                )
            } by {
                let i = choose|i: int| 0 <= i < pairs@.len() && (#[trigger] pairs@[i]).0 == key;
                assert(views[i] == (key@, files_of(paths@[key])));
                laws::lemma_with_all_round_trip(root@, views, i);
            }
        }
        res
    }

    /// Merge the entries of a directory of the same place into this one, one
    /// after the other.
    fn absorb(&mut self, entries: &Vec<DirectoryContents>)
        ensures
            final(self)@ == old(self)@.absorb(contents_views(entries@)),
        decreases entries,
    {
        let mut k: usize = 0;
        assert(contents_views(entries@).take(0) =~= Seq::empty());
        while k < entries.len()
            invariant
                k <= entries@.len(),
                self@ == old(self)@.absorb(contents_views(entries@).take(k as int)),
            decreases entries@.len() - k,
        {
            let ghost all = contents_views(entries@);
            assert(all.take(k + 1).drop_last() =~= all.take(k as int));
            assert(all.take(k + 1).last() == entries@[k as int]@);
            let ghost before = self@;
            match &entries[k] {
                DirectoryContents::File(file) => {
                    self.entries.push(DirectoryContents::File(file.clone()));
                    assert(self@.entries =~= before.entries.push(entries@[k as int]@));
                },
                DirectoryContents::Repo => {
                    self.entries.push(DirectoryContents::Repo);
                    assert(self@.entries =~= before.entries.push(entries@[k as int]@));
                },
                DirectoryContents::SubDirectory(dir) => {
                    self.combine(dir);
                },
            }
            k += 1;
        }
        assert(contents_views(entries@).take(k as int) =~= contents_views(entries@));
    }

    /// Merge `other` into this directory as a sub-directory.
    ///
    /// Where this directory has a sub-directory with the label of `other`,
    /// the first such takes up the entries of `other`, one after the other: a
    /// file and the repository marker are added at its end, also where it
    /// holds an entry of that name already, and a sub-directory is combined
    /// with it in the same way. Where it has none, a copy of `other` becomes
    /// the last entry of this directory.
    pub fn combine(&mut self, other: &Directory)
        ensures
            final(self)@ == old(self)@.combine(other@),
            old(self)@.populated() && other@.populated() ==> final(self)@.populated(),
            old(self)@.unique() && other@.unique() && old(self)@.admits(other@)
                ==> final(self)@.unique(),
        decreases other,
    {
        proof {
            if self@.populated() && other@.populated() {
                lemma_combine_populated(self@, other@);
            }
            if self@.unique() && other@.unique() && self@.admits(other@) {
                laws::lemma_combine_unique(self@, other@);
            }
        }
        let ghost before = self@;
        assert(other@.entries =~= contents_views(other.entries@));
        match self.sub_directory_mut(&other.label) {
            Some(subdir) => {
                subdir.absorb(&other.entries);
            },
            None => {
                self.entries.push(DirectoryContents::sub_directory(other.duplicate()));
                assert(self@.entries =~= before.entries.push(ContentsView::SubDirectory(other@)));
            },
        }
    }
}

impl Clone for Directory {
    fn clone(&self) -> (res: Self)
        ensures
            res@ == self@,
    {
        self.duplicate()
    }
}

/// The entries that a non-empty vector of entries holds, first to last, each
/// by its view.
pub uninterp spec fn contents_of(entries: NonEmpty<DirectoryContents>) -> Seq<ContentsView>;

/// `From<NonEmpty<T>>` for `Vec<T>`: the entries as a vector, in order; it
/// has at least one.
#[verifier::external_body]
fn nonempty_contents_into_vec(entries: NonEmpty<DirectoryContents>) -> (res: Vec<DirectoryContents>)
    ensures
        contents_views(res@) == contents_of(entries),
        res@.len() >= 1,
{
    Vec::from(entries)
}

/// The entries that stand for a sequence of files, in order.
pub open spec fn file_entries(files: Seq<FileView>) -> Seq<ContentsView> {
    Seq::new(files.len(), |i: int| ContentsView::File(files[i]))
}

/// The files that a non-empty vector of files holds, first to last, each by
/// its view.
pub uninterp spec fn files_of(files: NonEmpty<File>) -> Seq<FileView>;

/// The entry that holds a file.
fn file_entry(file: File) -> (res: DirectoryContents)
    ensures
        res@ == ContentsView::File(file@),
{
    DirectoryContents::File(file)
}

/// `NonEmpty::map` with the function that makes a file an entry: the entries
/// of the files, in order.
#[verifier::external_body]
fn nonempty_map_files(files: NonEmpty<File>) -> (res: NonEmpty<DirectoryContents>)
    ensures
        contents_of(res) == file_entries(files_of(files)),
{
    files.map(file_entry)
}

/// Pairs of a directory path and its files as mathematical values.
pub open spec fn pair_views(pairs: Seq<(Path, NonEmpty<File>)>) -> Seq<
    (Seq<Seq<char>>, Seq<FileView>),
> {
    Seq::new(pairs.len(), |i: int| (pairs[i].0@, files_of(pairs[i].1)))
}

/// The views of a sequence of directories, in order.
pub open spec fn directory_views(directories: Seq<Directory>) -> Seq<DirectoryView> {
    Seq::new(directories.len(), |i: int| directories[i]@)
}

/// Combining keeps the label and the entries of a directory, each at its
/// place, but for the sub-directory that takes up the other directory.
pub proof fn lemma_combine_keeps(target: DirectoryView, other: DirectoryView)
    ensures
        target.combine(other).label == target.label,
        target.combine(other).entries.len() >= target.entries.len(),
        target.combine(other).entries.len() >= 1,
        forall|i: int|
            0 <= i < target.entries.len() && !(#[trigger] target.entries[i]).is_directory_named(
                other.label,
            ) ==> target.combine(other).entries[i] == target.entries[i],
{
    lemma_sub_directory_from(target.entries, other.label, 0);
}

/// What `sub_directory_from` finds is the first sub-directory with the label
/// at or after `from`; it finds none only where there is none.
pub proof fn lemma_sub_directory_from(entries: Seq<ContentsView>, label: Seq<char>, from: int)
    requires
        0 <= from,
    ensures
        match sub_directory_from(entries, label, from) {
            Some(i) => from <= i < entries.len() && entries[i].is_directory_named(label)
                && forall|j: int| from <= j < i ==> !(#[trigger] entries[j]).is_directory_named(label),
            None => forall|j: int|
                from <= j < entries.len() ==> !(#[trigger] entries[j]).is_directory_named(label),
        },
    decreases entries.len() - from,
{
    if from < entries.len() && !entries[from].is_directory_named(label) {
        lemma_sub_directory_from(entries, label, from + 1);
    }
}

/// Adding files keeps the label of a directory and does not take entries
/// away.
pub proof fn lemma_with_all_keeps(root: DirectoryView, pairs: Seq<(Seq<Seq<char>>, Seq<FileView>)>)
    ensures
        root.with_all(pairs).label == root.label,
        root.with_all(pairs).entries.len() >= root.entries.len(),
    decreases pairs.len(),
{
    if pairs.len() > 0 {
        lemma_with_all_keeps(root, pairs.drop_last());
        let before = root.with_all(pairs.drop_last());
        lemma_combine_keeps(
            before,
            DirectoryView::nested(pairs.last().0, file_entries(pairs.last().1)),
        );
    }
}

/// Whether every sub-directory among the entries, and every directory below
/// it, has an entry.
pub open spec fn all_populated(entries: Seq<ContentsView>) -> bool {
    forall|i: int|
        0 <= i < entries.len() ==> (#[trigger] entries[i] matches ContentsView::SubDirectory(
            directory,
        ) ==> directory.populated())
}

/// A directory that has taken up the entries of another is
/// populated where it was before and the sub-directories among the entries
/// are.
pub proof fn lemma_absorb_populated(target: DirectoryView, entries: Seq<ContentsView>)
    requires
        target.populated(),
        all_populated(entries),
    ensures
        target.absorb(entries).populated(),
    decreases entries,
{
    if entries.len() > 0 {
        assert(all_populated(entries.drop_last())) by {
            assert forall|i: int| 0 <= i < entries.drop_last().len() implies (
            #[trigger] entries.drop_last()[i] matches ContentsView::SubDirectory(directory)
                ==> directory.populated()) by {
                assert(entries.drop_last()[i] == entries[i]);
            }
        }
        lemma_absorb_populated(target, entries.drop_last());
        let merged = target.absorb(entries.drop_last());
        match entries.last() {
            ContentsView::SubDirectory(directory) => {
                assert(entries[entries.len() - 1] == entries.last());
                lemma_combine_populated(merged, directory);
            },
            entry => {
                let after = merged.entries.push(entry);
                assert forall|i: int| 0 <= i < after.len() implies (#[trigger] after[i]
                    matches ContentsView::SubDirectory(directory) ==> directory.populated()) by {
                    if i < merged.entries.len() {
                        assert(after[i] == merged.entries[i]);
                    }
                }
            },
        }
    }
}

/// Combining populated directories gives a populated directory.
/// No directory that can be reached in it has zero entries.
pub proof fn lemma_combine_populated(target: DirectoryView, other: DirectoryView)
    requires
        target.populated(),
        other.populated(),
    ensures
        target.combine(other).populated(),
    decreases other,
{
    let after = target.combine(other).entries;
    lemma_sub_directory_from(target.entries, other.label, 0);
    match sub_directory_from(target.entries, other.label, 0) {
        Some(k) => {
            let sub = target.entries[k]->SubDirectory_0;
            assert(sub.populated());
            lemma_absorb_populated(sub, other.entries);
            assert forall|i: int| 0 <= i < after.len() implies (#[trigger] after[i]
                matches ContentsView::SubDirectory(directory) ==> directory.populated()) by {
                if i != k {
                    assert(after[i] == target.entries[i]);
                }
            }
        },
        None => {
            assert forall|i: int| 0 <= i < after.len() implies (#[trigger] after[i]
                matches ContentsView::SubDirectory(directory) ==> directory.populated()) by {
                if i < target.entries.len() {
                    assert(after[i] == target.entries[i]);
                }
            }
        },
    }
}

/// The chain of directories of a path is populated where the innermost has
/// an entry and the sub-directories among its entries are populated.
pub proof fn lemma_nested_populated(path: Seq<Seq<char>>, entries: Seq<ContentsView>)
    requires
        entries.len() > 0,
        all_populated(entries),
    ensures
        DirectoryView::nested(path, entries).populated(),
    decreases path.len(),
{
    if path.len() > 1 {
        lemma_nested_populated(path.skip(1), entries);
    }
}

/// Adding the files of a directory path, at least one, to a
/// populated directory gives a populated directory.
pub proof fn lemma_with_files_populated(
    root: DirectoryView,
    path: Seq<Seq<char>>,
    files: Seq<FileView>,
)
    requires
        root.populated(),
        files.len() > 0,
    ensures
        root.with_files(path, files).populated(),
{
    if path == Path::root_view() {
        let after = root.entries + file_entries(files);
        assert forall|i: int| 0 <= i < after.len() implies (#[trigger] after[i]
            matches ContentsView::SubDirectory(directory) ==> directory.populated()) by {
            if i < root.entries.len() {
                assert(after[i] == root.entries[i]);
            }
        }
    } else {
        lemma_nested_populated(path, file_entries(files));
        lemma_combine_populated(root, DirectoryView::nested(path, file_entries(files)));
    }
}

/// A directory built from a populated root by adding the files
/// of directory paths, at least one for each path, is populated.
pub proof fn lemma_with_all_populated(
    root: DirectoryView,
    pairs: Seq<(Seq<Seq<char>>, Seq<FileView>)>,
)
    requires
        root.populated(),
        forall|i: int| 0 <= i < pairs.len() ==> (#[trigger] pairs[i]).1.len() > 0,
    ensures
        root.with_all(pairs).populated(),
    decreases pairs.len(),
{
    if pairs.len() > 0 {
        assert forall|i: int| 0 <= i < pairs.drop_last().len() implies (
        #[trigger] pairs.drop_last()[i]).1.len() > 0 by {
            assert(pairs.drop_last()[i] == pairs[i]);
        }
        lemma_with_all_populated(root, pairs.drop_last());
        assert(pairs[pairs.len() - 1] == pairs.last());
        lemma_with_files_populated(root.with_all(pairs.drop_last()), pairs.last().0, pairs.last().1);
    }
}

/// Every directory that is found below a populated directory is
/// populated, so it has at least one entry.
pub proof fn lemma_descend_populated(root: DirectoryView, labels: Seq<Seq<char>>)
    requires
        root.populated(),
        root.descend(labels) is Some,
    ensures
        root.descend(labels)->Some_0.populated(),
        root.descend(labels)->Some_0.entries.len() > 0,
    decreases labels.len(),
{
    if labels.len() > 0 {
        lemma_sub_directory_from(root.entries, labels.first(), 0);
        lemma_descend_populated(root.sub_directory(labels.first())->Some_0, labels.skip(1));
    }
}

} // verus!
