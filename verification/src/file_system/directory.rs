//! A directory built on the keyed forest: files are found by their path from
//! the directory, which does not name the directory itself.
//!
//! Lookups go by label. The order of the entries of a directory follows the
//! insertions and is no part of what a directory means: two directories
//! built from the same files at independent paths hold the same file at
//! every path, in whatever order they were built.

use crate::file_system::path::{
    hash_map_into_pairs, label_views, nonempty_from_slice, nonempty_new, pairs_of_map,
};
use crate::file_system::{Label, Path, SystemType};
use crate::tree::{
    find_branch, find_node, insert, lemma_branch_of_well_formed, lemma_insert_is_not_empty,
    total_size, well_formed, Forest, SubTree, SubTreeView,
};
use crate::tree::laws::{
    independent, insert_all, lemma_built_total_size, lemma_insert_all_concat,
    lemma_inserted_are_found, total_bytes,
};
use nonempty::NonEmpty;
use std::collections::hash_map::DefaultHasher;
use std::collections::HashMap;
use std::hash::{Hash, Hasher};
use vstd::prelude::*;
use vstd::std_specs::convert::FromSpecImpl;
use vstd::std_specs::hash::DefaultHasherAdditionalSpecFns;

verus! {

/// A `File` consists of its file contents (a `Vec` of bytes).
#[derive(Debug, PartialEq, Eq)]
pub struct File {
    /// The contents of a `File` as a vector of bytes.
    pub contents: Vec<u8>,
}

impl View for File {
    type V = Seq<u8>;

    open spec fn view(&self) -> Seq<u8> {
        self.contents@
    }
}

/// What a hasher has been fed once a vector of bytes was hashed into it,
/// given what it had been fed before.
pub uninterp spec fn hashed_into(state: Seq<Seq<u8>>, contents: Seq<u8>) -> Seq<Seq<u8>>;

/// `Hash::hash` of `Vec<u8>` with the default hasher: what the hasher is fed
/// depends on what it was fed before and on the bytes alone.
#[verifier::external_body]
fn hash_contents(contents: &Vec<u8>, state: &mut DefaultHasher)
    ensures
        final(state)@ == hashed_into(old(state)@, contents@),
{
    contents.hash(state)
}

/// The hash of the contents of a file: that of a fresh default hasher into
/// which the contents were hashed.
pub open spec fn checksum_of(contents: Seq<u8>) -> u64 {
    DefaultHasher::spec_finish(hashed_into(Seq::empty(), contents))
}

impl File {
    /// Get the hash of the `File` corresponding to the contents of the file.
    /// Files with the same contents have the same hash.
    pub fn checksum(&self) -> (res: u64)
        ensures
            res == checksum_of(self@),
    {
        let mut hasher = DefaultHasher::new();
        hash_contents(&self.contents, &mut hasher);
        hasher.finish()
    }

    /// Create a new `File` with the contents provided.
    pub fn new(contents: &[u8]) -> (res: Self)
        ensures
            res@ == contents@,
    {
        File { contents: vstd::slice::slice_to_vec(contents) }
    }

    /// Get the size of the `File` corresponding to the number of bytes in
    /// the file contents.
    pub fn size(&self) -> (res: usize)
        ensures
            res == self@.len(),
    {
        self.contents.len()
    }
}

impl Clone for File {
    fn clone(&self) -> (res: Self)
        ensures
            res@ == self@,
    {
        File { contents: self.contents.clone() }
    }
}

/// Where a directory stands: at the root, or under a label.
#[derive(Debug, PartialEq, Eq)]
enum Location {
    Root,
    SubDirectory(Label),
}

/// A `Directory` can be thought of as a set of entries of sub-directories
/// and files, each under its own label. The entries are kept in the order
/// in which their labels were first inserted: see `list_directory`.
#[derive(Debug, PartialEq, Eq)]
pub struct Directory {
    current: Location,
    sub_directories: Forest,
}

/// What a `Directory` is: whether it stands at the root, its label, which
/// is the root label at the root, and its entries, in order.
pub ghost struct DirectoryView {
    pub at_root: bool,
    pub label: Seq<char>,
    pub trees: Seq<SubTreeView>,
}

/// `DirectoryContents` is an enumeration of what a `Directory` can contain
/// and is used for when we are going through the entries of a `Directory`.
#[derive(Debug, PartialEq, Eq)]
pub enum DirectoryContents {
    /// The `File` variant contains the file's name and the `File` itself.
    File {
        /// The name of the file.
        name: Label,
        /// The file data.
        file: File,
    },
    /// The `Directory` variant contains a sub-directory to the current one.
    Directory(Directory),
}

/// What a `DirectoryContents` is.
pub ghost enum ContentsView {
    File { name: Seq<char>, file: Seq<u8> },
    Directory(DirectoryView),
}

impl DirectoryView {
    /// No two entries of one directory have the same label, and every
    /// directory below this one has at least one entry.
    pub open spec fn well_formed(self) -> bool {
        well_formed(self.trees)
    }
}

impl ContentsView {
    /// The entry of a directory that an entry of a forest stands for.
    pub open spec fn of(entry: SubTreeView) -> ContentsView {
        match entry {
            SubTreeView::Node { key, value } => ContentsView::File { name: key, file: value },
            SubTreeView::Branch { key, forest } => ContentsView::Directory(
                DirectoryView { at_root: false, label: key, trees: forest },
            ),
        }
    }

    /// The label of the entry.
    pub open spec fn label(self) -> Seq<char> {
        match self {
            ContentsView::File { name, .. } => name,
            ContentsView::Directory(directory) => directory.label,
        }
    }
}

impl Location {
    /// The label of the place: the root label at the root.
    spec fn label(self) -> Seq<char> {
        match self {
            Location::Root => Label::root_view(),
            Location::SubDirectory(label) => label@,
        }
    }

    fn duplicate(&self) -> (res: Self)
        ensures
            res == *self,
    {
        match self {
            Location::Root => Location::Root,
            Location::SubDirectory(label) => Location::SubDirectory(label.clone()),
        }
    }
}

impl View for Directory {
    type V = DirectoryView;

    closed spec fn view(&self) -> DirectoryView {
        DirectoryView {
            at_root: self.current is Root,
            label: self.current.label(),
            trees: self.sub_directories@,
        }
    }
}

impl View for DirectoryContents {
    type V = ContentsView;

    open spec fn view(&self) -> ContentsView {
        match self {
            DirectoryContents::File { name, file } => ContentsView::File { name: name@, file: file@ },
            DirectoryContents::Directory(directory) => ContentsView::Directory(directory@),
        }
    }
}

impl Clone for Directory {
    fn clone(&self) -> (res: Self)
        ensures
            res@ == self@,
    {
        Directory {
            current: self.current.duplicate(),
            sub_directories: self.sub_directories.clone(),
        }
    }
}

impl Clone for DirectoryContents {
    fn clone(&self) -> (res: Self)
        ensures
            res@ == self@,
    {
        match self {
            DirectoryContents::File { name, file } => DirectoryContents::File {
                name: name.clone(),
                file: file.clone(),
            },
            DirectoryContents::Directory(directory) => DirectoryContents::Directory(
                directory.clone(),
            ),
        }
    }
}

impl DirectoryContents {
    /// Get a label for the `DirectoryContents`, either the name of the `File`
    /// or the name of the `Directory`.
    pub fn label(&self) -> (res: Label)
        ensures
            res@ == self@.label(),
    {
        match self {
            DirectoryContents::File { name, .. } => name.clone(),
            DirectoryContents::Directory(directory) => directory.current(),
        }
    }

}

impl From<SubTree> for DirectoryContents {
    /// The entry of a directory that an entry of a forest stands for: a file
    /// for a node, a sub-directory for a branch.
    fn from(sub_tree: SubTree) -> (res: Self)
        ensures
            res@ == ContentsView::of(sub_tree@),
    {
        match sub_tree {
            SubTree::Node { key, value } => DirectoryContents::File { name: key, file: value },
            SubTree::Branch { key, forest } => DirectoryContents::Directory(
                Directory {
                    current: Location::SubDirectory(key),
                    sub_directories: Forest::from_tree(*forest),
                },
            ),
        }
    }
}

impl FromSpecImpl<SubTree> for DirectoryContents {
    open spec fn obeys_from_spec() -> bool {
        false
    }

    open spec fn from_spec(sub_tree: SubTree) -> Self {
        arbitrary()
    }
}

/// The views of a sequence of entries, in order.
pub open spec fn contents_views(entries: Seq<DirectoryContents>) -> Seq<ContentsView> {
    Seq::new(entries.len(), |i: int| entries[i]@)
}

/// A listing as a mathematical value: each label by its view.
pub open spec fn listing_views(listing: Seq<(Label, SystemType)>) -> Seq<(Seq<char>, SystemType)> {
    Seq::new(listing.len(), |i: int| (listing[i].0@, listing[i].1))
}

/// What a listing shows of an entry of a forest.
pub open spec fn listed(entry: SubTreeView) -> (Seq<char>, SystemType) {
    match entry {
        SubTreeView::Node { key, .. } => (key, SystemType::File),
        SubTreeView::Branch { key, .. } => (key, SystemType::Directory),
    }
}

/// The forest with each of the files inserted, one after the other, under
/// its name in the directory at `directory_path`; with the empty path the
/// files go into the forest itself.
pub open spec fn insert_files(
    trees: Seq<SubTreeView>,
    directory_path: Seq<Seq<char>>,
    files: Seq<(Seq<char>, Seq<u8>)>,
) -> Seq<SubTreeView>
    decreases files.len(),
{
    if files.len() == 0 {
        trees
    } else {
        insert(
            insert_files(trees, directory_path, files.drop_last()),
            directory_path.push(files.last().0),
            files.last().1,
        )
    }
}

/// The path under which the files of a directory path are inserted: none for
/// the root path, whose files go into the forest itself.
pub open spec fn place_of(path: Seq<Seq<char>>) -> Seq<Seq<char>> {
    if path == Path::root_view() {
        Seq::empty()
    } else {
        path
    }
}

/// The forest with the files of each directory path inserted, one pair after
/// the other.
pub open spec fn insert_pairs(
    trees: Seq<SubTreeView>,
    pairs: Seq<(Seq<Seq<char>>, Seq<(Seq<char>, Seq<u8>)>)>,
) -> Seq<SubTreeView>
    decreases pairs.len(),
{
    if pairs.len() == 0 {
        trees
    } else {
        insert_files(
            insert_pairs(trees, pairs.drop_last()),
            place_of(pairs.last().0),
            pairs.last().1,
        )
    }
}

/// Files with their names as mathematical values.
pub open spec fn named_file_views(files: Seq<(Label, File)>) -> Seq<(Seq<char>, Seq<u8>)> {
    Seq::new(files.len(), |i: int| (files[i].0@, files[i].1@))
}

/// The files that a non-empty vector of named files holds, first to last,
/// each by the views of its name and of its contents.
pub uninterp spec fn named_files_of(files: NonEmpty<(Label, File)>) -> Seq<(Seq<char>, Seq<u8>)>;

/// `From<NonEmpty<T>>` for `Vec<T>`: the named files as a vector, in order;
/// it has at least one.
#[verifier::external_body]
fn nonempty_named_files_into_vec(files: NonEmpty<(Label, File)>) -> (res: Vec<(Label, File)>)
    ensures
        named_file_views(res@) == named_files_of(files),
        res@.len() >= 1,
{
    Vec::from(files)
}

/// Pairs of a directory path and its named files as mathematical values.
pub open spec fn pair_views(pairs: Seq<(Path, NonEmpty<(Label, File)>)>) -> Seq<
    (Seq<Seq<char>>, Seq<(Seq<char>, Seq<u8>)>),
> {
    Seq::new(pairs.len(), |i: int| (pairs[i].0@, named_files_of(pairs[i].1)))
}

impl Directory {
    /// Create a root directory.
    pub fn root() -> (res: Self)
        ensures
            res@ == (DirectoryView {
                at_root: true,
                label: Label::root_view(),
                trees: Seq::empty(),
            }),
            res@.well_formed(),
    {
        Directory { current: Location::Root, sub_directories: Forest::root() }
    }

    /// Create a directory, similar to `root`, except with a given name.
    pub fn new(label: Label) -> (res: Self)
        ensures
            res@ == (DirectoryView { at_root: false, label: label@, trees: Seq::empty() }),
            res@.well_formed(),
    {
        Directory { current: Location::SubDirectory(label), sub_directories: Forest::root() }
    }

    /// List the current `Directory`'s files and sub-directories, in the
    /// order of the entries, which is that in which their labels were first
    /// inserted. Sort the listing where a canonical order is needed.
    pub fn list_directory(&self) -> (res: Vec<(Label, SystemType)>)
        ensures
            listing_views(res@) == self@.trees.map_values(|entry: SubTreeView| listed(entry)),
            self@.well_formed() ==> forall|i: int, j: int|
                0 <= i < j < res@.len() ==> (#[trigger] res@[i]).0@ != (#[trigger] res@[j]).0@,
    {
        let mut listing: Vec<(Label, SystemType)> = Vec::new();
        match &self.sub_directories.0 {
            None => {},
            Some(trees) => {
                let mut i: usize = 0;
                while i < trees.0.len()
                    invariant
                        i <= trees.0@.len(),
                        listing@.len() == i,
                        forall|j: int| 0 <= j < i ==> (listing@[j].0@, listing@[j].1) == listed(
                            #[trigger] trees@[j],
                        ),
                    decreases trees.0@.len() - i,
                {
                    assert(trees@[i as int] == trees.0@[i as int]@);
                    match &trees.0[i] {
                        SubTree::Node { key, .. } => {
                            listing.push(SystemType::file(key.clone()));
                        },
                        SubTree::Branch { key, .. } => {
                            listing.push(SystemType::directory(key.clone()));
                        },
                    }
                    i += 1;
                }
            },
        }
        assert(listing_views(listing@) =~= self@.trees.map_values(
            |entry: SubTreeView| listed(entry),
        ));
        assert forall|i: int, j: int|
            self@.well_formed() && 0 <= i < j < listing@.len() implies (#[trigger] listing@[i]).0@
            != (#[trigger] listing@[j]).0@ by {
            assert(listing_views(listing@)[i] == listed(self@.trees[i]));
            assert(listing_views(listing@)[j] == listed(self@.trees[j]));
            assert(self@.trees[i].key() != self@.trees[j].key());
        }
        listing
    }

    /// The entries of the `Directory`, each a file with its name or a
    /// sub-directory, in the order of the entries.
    pub fn iter(&self) -> (res: Vec<DirectoryContents>)
        ensures
            contents_views(res@) == self@.trees.map_values(
                |entry: SubTreeView| ContentsView::of(entry),
            ),
            self@.well_formed() ==> forall|i: int|
                0 <= i < res@.len() ==> (#[trigger] res@[i]@ matches ContentsView::Directory(
                    directory,
                ) ==> directory.trees.len() > 0 && directory.well_formed()),
    {
        let mut entries: Vec<DirectoryContents> = Vec::new();
        match &self.sub_directories.0 {
            None => {},
            Some(trees) => {
                let mut i: usize = 0;
                while i < trees.0.len()
                    invariant
                        i <= trees.0@.len(),
                        entries@.len() == i,
                        forall|j: int| 0 <= j < i ==> entries@[j]@ == ContentsView::of(
                            #[trigger] trees@[j],
                        ),
                    decreases trees.0@.len() - i,
                {
                    assert(trees@[i as int] == trees.0@[i as int]@);
                    entries.push(DirectoryContents::from(trees.0[i].clone()));
                    i += 1;
                }
            },
        }
        assert(contents_views(entries@) =~= self@.trees.map_values(
            |entry: SubTreeView| ContentsView::of(entry),
        ));
        assert forall|i: int| self@.well_formed() && 0 <= i < entries@.len() implies (
        #[trigger] entries@[i]@ matches ContentsView::Directory(directory)
            ==> directory.trees.len() > 0 && directory.well_formed()) by {
            assert(contents_views(entries@)[i] == ContentsView::of(self@.trees[i]));
        }
        entries
    }

    /// Find a `File` in the directory given the `Path` to the `File`.
    ///
    /// This operation fails if the path does not lead to a `File`. If the
    /// search is for a `Directory` then use `find_directory`.
    pub fn find_file(&self, path: &Path) -> (res: Option<File>)
        ensures
            match res {
                Some(file) => find_node(self@.trees, path@) == Some(file@),
                None => find_node(self@.trees, path@) is None,
            },
    {
        let labels = path.iter();
        match self.sub_directories.find_node(labels.as_slice()) {
            Some(file) => Some(file.clone()),
            None => None,
        }
    }

    /// Find a `Directory` in the directory given the `Path` to the
    /// `Directory`. The directory found is named by the last label of the
    /// path.
    ///
    /// This operation fails if the path does not lead to the `Directory`.
    pub fn find_directory(&self, path: &Path) -> (res: Option<Self>)
        ensures
            match res {
                Some(directory) => find_branch(self@.trees, path@) == Some(directory@.trees)
                    && directory@.label == path@.last() && !directory@.at_root,
                None => find_branch(self@.trees, path@) is None,
            },
            self@.well_formed() ==> (res matches Some(directory) ==> directory@.trees.len() > 0
                && directory@.well_formed()),
    {
        proof {
            if self@.well_formed() && find_branch(self@.trees, path@) is Some {
                lemma_branch_of_well_formed(self@.trees, path@);
            }
        }
        let labels = path.iter();
        match self.sub_directories.find_branch(labels.as_slice()) {
            Some(tree) => {
                let (_, current) = path.split_last();
                Some(
                    Directory {
                        current: Location::SubDirectory(current),
                        sub_directories: Forest::from_tree(tree.clone()),
                    },
                )
            },
            None => None,
        }
    }

    /// Get the `Label` of the current directory.
    pub fn current(&self) -> (res: Label)
        ensures
            res@ == self@.label,
            self@.at_root ==> res@ == Label::root_view(),
    {
        match &self.current {
            Location::Root => Label::root(),
            Location::SubDirectory(label) => label.clone(),
        }
    }

    /// Get the total size, in bytes, of a `Directory`. The size is the sum
    /// of all files that can be reached from this `Directory`, which has to
    /// fit a `usize`: see `checked_size`.
    pub fn size(&self) -> (res: usize)
        requires
            total_size(self@.trees) <= usize::MAX,
        ensures
            res == total_size(self@.trees),
    {
        self.sub_directories.total_size()
    }

    /// Get the total size, in bytes, of a `Directory`, or `None` where the
    /// sum of its files does not fit a `usize`.
    pub fn checked_size(&self) -> (res: Option<usize>)
        ensures
            match res {
                Some(size) => size == total_size(self@.trees),
                None => total_size(self@.trees) > usize::MAX,
            },
    {
        self.sub_directories.checked_total_size()
    }

    /// Insert a file into a directory, given the full path to file (file
    /// name inclusive) and the `File` itself.
    pub fn insert_file(&mut self, path: &Path, file: File)
        ensures
            final(self)@.label == old(self)@.label,
            final(self)@.at_root == old(self)@.at_root,
            final(self)@.trees == insert(old(self)@.trees, path@, file@),
            old(self)@.well_formed() ==> final(self)@.well_formed(),
    {
        let labels = path.iter();
        self.sub_directories.insert(labels.as_slice(), file)
    }

    /// Insert files into a shared directory path.
    ///
    /// `directory_path` is used as the prefix to where the files should go.
    /// If empty the files will be placed in the current `Directory`.
    ///
    /// `files` are pairs of file name and the `File` itself.
    pub fn insert_files(&mut self, directory_path: &[Label], files: NonEmpty<(Label, File)>)
        ensures
            final(self)@.label == old(self)@.label,
            final(self)@.at_root == old(self)@.at_root,
            final(self)@.trees == insert_files(
                old(self)@.trees,
                label_views(directory_path@),
                named_files_of(files),
            ),
            named_files_of(files).len() >= 1,
            old(self)@.well_formed() ==> final(self)@.well_formed(),
    {
        let files = nonempty_named_files_into_vec(files);
        assert(named_file_views(files@).len() == files@.len());
        self.insert_each(directory_path, files)
    }

    /// Insert each of the files, one after the other, under its name in the
    /// directory at `directory_path`, or in the current `Directory` where
    /// the path is empty.
    pub fn insert_each(&mut self, directory_path: &[Label], files: Vec<(Label, File)>)
        ensures
            final(self)@.label == old(self)@.label,
            final(self)@.at_root == old(self)@.at_root,
            final(self)@.trees == insert_files(
                old(self)@.trees,
                label_views(directory_path@),
                named_file_views(files@),
            ),
            old(self)@.well_formed() ==> final(self)@.well_formed(),
    {
        let ghost place = label_views(directory_path@);
        let ghost all = named_file_views(files@);
        assert(all.take(0) =~= Seq::empty());
        for named in it: files.into_iter()
            invariant
                all == named_file_views(files@),
                it.seq() == files@,
                place == label_views(directory_path@),
                self@.label == old(self)@.label,
                self@.at_root == old(self)@.at_root,
                self@.trees == insert_files(old(self)@.trees, place, all.take(it.index() as int)),
                old(self)@.well_formed() ==> self@.well_formed(),
        {
            let ghost k = it.index() as int;
            assert(all.take(k + 1).drop_last() =~= all.take(k));
            assert(all.take(k + 1).last() == (named.0@, named.1@));
            let (file_name, file) = named;
            match nonempty_from_slice(directory_path) {
                None => {
                    assert(place =~= Seq::empty());
                    let file_path = Path(nonempty_new(file_name));
                    assert(file_path@ =~= place.push(file_name@));
                    self.insert_file(&file_path, file)
                },
                Some(directory_path) => {
                    let mut file_path = Path(directory_path);
                    file_path.push(file_name);
                    self.insert_file(&file_path, file)
                },
            }
        }
        assert(all.take(files@.len() as int) =~= all);
    }

    /// The root directory with the files of each pair of a directory path
    /// and its named files inserted, one pair after the other. The files of
    /// the root path go into the root directory itself.
    pub fn from_pairs(pairs: Vec<(Path, NonEmpty<(Label, File)>)>) -> (res: Self)
        ensures
            res@.label == Label::root_view(),
            res@.at_root,
            res@.trees == insert_pairs(Seq::empty(), pair_views(pairs@)),
            res@.well_formed(),
            forall|i: int| 0 <= i < pairs@.len() ==> (#[trigger] pair_views(pairs@)[i]).1.len() >= 1,
    {
        let mut directory = Directory::root();
        let ghost all = pair_views(pairs@);
        assert(all.take(0) =~= Seq::empty());
        for pair in it: pairs.into_iter()
            invariant
                all == pair_views(pairs@),
                it.seq() == pairs@,
                directory@.label == Label::root_view(),
                directory@.at_root,
                directory@.trees == insert_pairs(Seq::empty(), all.take(it.index() as int)),
                directory@.well_formed(),
                forall|i: int| 0 <= i < it.index() ==> (#[trigger] all[i]).1.len() >= 1,
        {
            let ghost k = it.index() as int;
            assert(all.take(k + 1).drop_last() =~= all.take(k));
            assert(all.take(k + 1).last() == (pair.0@, named_files_of(pair.1)));
            let (path, files) = pair;
            if path.is_root() {
                let place: Vec<Label> = Vec::new();
                assert(label_views(place@) =~= Seq::empty());
                directory.insert_files(place.as_slice(), files);
            } else {
                let place = path.iter();
                directory.insert_files(place.as_slice(), files);
            }
        }
        assert(all.take(pairs@.len() as int) =~= all);
        directory
    }

    /// Build the root directory of a snapshot from the named files of each
    /// of its directory paths, inserted as `from_pairs` does, in the order
    /// in which the map hands its pairs out. Where the paths of all files
    /// are independent, that order does not matter: each file is found at
    /// its path, and the directory of each path at the path.
    pub fn from_hash_map(files: HashMap<Path, NonEmpty<(Label, File)>>) -> (res: Self)
        ensures
            res@.label == Label::root_view(),
            res@.at_root,
            res@.well_formed(),
            exists|pairs: Seq<(Path, NonEmpty<(Label, File)>)>|
                {
                    &&& #[trigger] pairs_of_map(pairs, files@)
                    &&& res@.trees == insert_pairs(Seq::empty(), pair_views(pairs))
                    &&& forall|i: int|
                        0 <= i < pairs.len() ==> (#[trigger] pair_views(pairs)[i]).1.len() >= 1
                },
            files@.dom().len() > 0 ==> res@.trees.len() > 0,
            independent_files(files@) ==> forall|key: Path, j: int|
                files@.contains_key(key) && 0 <= j < named_files_of(files@[key]).len() ==> {
                    &&& find_node(
                        res@.trees,
                        #[trigger] file_path_of(key@, named_files_of(files@[key]), j),
                    ) == Some(named_files_of(files@[key])[j].1)
                    &&& place_of(key@).len() > 0 ==> find_branch(res@.trees, place_of(key@))
                        is Some
                },
    {
        let pairs = hash_map_into_pairs(files);
        let res = Directory::from_pairs(pairs);
        assert(pairs_of_map(pairs@, files@));
        proof {
            let views = pair_views(pairs@);
            if pairs@.len() > 0 {
                assert(views[pairs@.len() - 1].1.len() >= 1);
                lemma_insert_pairs_is_not_empty(Seq::empty(), views);
            }
            if independent_files(files@) {
                lemma_independent_pairs(pairs@, files@);
                assert forall|key: Path, j: int|
                    files@.contains_key(key) && 0 <= j < named_files_of(
                        files@[key],
                    ).len() implies {
                    &&& find_node(
                        res@.trees,
                        #[trigger] file_path_of(key@, named_files_of(files@[key]), j),
                    ) == Some(named_files_of(files@[key])[j].1)
                    &&& place_of(key@).len() > 0 ==> find_branch(res@.trees, place_of(key@))
                        is Some
                } by {
                    let i = choose|i: int| 0 <= i < pairs@.len() && (#[trigger] pairs@[i]).0 == key;
                    assert(views[i] == (key@, named_files_of(files@[key])));
                    lemma_snapshot_round_trip(views, i, j);
                }
            }
        }
        res
    }
}

/// The insertions that `insert_files` makes: each file at the path of the
/// directory with the name of the file added.
pub open spec fn insertions_of_files(
    directory_path: Seq<Seq<char>>,
    files: Seq<(Seq<char>, Seq<u8>)>,
) -> Seq<(Seq<Seq<char>>, Seq<u8>)> {
    Seq::new(files.len(), |i: int| (directory_path.push(files[i].0), files[i].1))
}

/// The insertions that `insert_pairs` makes, in their order.
pub open spec fn insertions_of_pairs(
    pairs: Seq<(Seq<Seq<char>>, Seq<(Seq<char>, Seq<u8>)>)>,
) -> Seq<(Seq<Seq<char>>, Seq<u8>)>
    decreases pairs.len(),
{
    if pairs.len() == 0 {
        Seq::empty()
    } else {
        insertions_of_pairs(pairs.drop_last()) + insertions_of_files(
            place_of(pairs.last().0),
            pairs.last().1,
        )
    }
}

/// `insert_files` makes the insertions of `insertions_of_files`.
pub proof fn lemma_insert_files_insertions(
    trees: Seq<SubTreeView>,
    directory_path: Seq<Seq<char>>,
    files: Seq<(Seq<char>, Seq<u8>)>,
)
    ensures
        insert_files(trees, directory_path, files) == insert_all(
            trees,
            insertions_of_files(directory_path, files),
        ),
    decreases files.len(),
{
    let items = insertions_of_files(directory_path, files);
    if files.len() > 0 {
        lemma_insert_files_insertions(trees, directory_path, files.drop_last());
        assert(items.drop_last() =~= insertions_of_files(directory_path, files.drop_last()));
    }
}

/// `insert_pairs` makes the insertions of `insertions_of_pairs`.
pub proof fn lemma_insert_pairs_insertions(
    trees: Seq<SubTreeView>,
    pairs: Seq<(Seq<Seq<char>>, Seq<(Seq<char>, Seq<u8>)>)>,
)
    ensures
        insert_pairs(trees, pairs) == insert_all(trees, insertions_of_pairs(pairs)),
    decreases pairs.len(),
{
    if pairs.len() > 0 {
        let before = insert_pairs(trees, pairs.drop_last());
        let items = insertions_of_files(place_of(pairs.last().0), pairs.last().1);
        lemma_insert_pairs_insertions(trees, pairs.drop_last());
        lemma_insert_files_insertions(before, place_of(pairs.last().0), pairs.last().1);
        lemma_insert_all_concat(trees, insertions_of_pairs(pairs.drop_last()), items);
    }
}

/// A forest into which the files of pairs were inserted has an entry, where
/// the last pair has a file.
pub proof fn lemma_insert_pairs_is_not_empty(
    trees: Seq<SubTreeView>,
    pairs: Seq<(Seq<Seq<char>>, Seq<(Seq<char>, Seq<u8>)>)>,
)
    requires
        pairs.len() > 0,
        pairs.last().1.len() > 0,
    ensures
        insert_pairs(trees, pairs).len() > 0,
{
    let files = pairs.last().1;
    let place = place_of(pairs.last().0);
    let before = insert_files(insert_pairs(trees, pairs.drop_last()), place, files.drop_last());
    lemma_insert_is_not_empty(before, place.push(files.last().0), files.last().1);
}

/// The insertion of the file `j` of the pair `i` is among the insertions of
/// the pairs: the result is its index.
pub proof fn lemma_insertion_of(
    pairs: Seq<(Seq<Seq<char>>, Seq<(Seq<char>, Seq<u8>)>)>,
    i: int,
    j: int,
) -> (k: int)
    requires
        0 <= i < pairs.len(),
        0 <= j < pairs[i].1.len(),
    ensures
        0 <= k < insertions_of_pairs(pairs).len(),
        insertions_of_pairs(pairs)[k] == (
            place_of(pairs[i].0).push(pairs[i].1[j].0),
            pairs[i].1[j].1,
        ),
    decreases pairs.len(),
{
    let before = insertions_of_pairs(pairs.drop_last());
    if i == pairs.len() - 1 {
        before.len() + j
    } else {
        assert(pairs.drop_last()[i] == pairs[i]);
        lemma_insertion_of(pairs.drop_last(), i, j)
    }
}

/// Where the paths of all files of the pairs are independent,
/// each file of each pair is found in the directory built from the pairs, at
/// the path of its directory with its name added, and with its bytes; and
/// the directory of each pair but that of the root path is found at its
/// path. The files of the root path are found under their names alone, and
/// no directory stands for the root path.
pub proof fn lemma_snapshot_round_trip(
    pairs: Seq<(Seq<Seq<char>>, Seq<(Seq<char>, Seq<u8>)>)>,
    i: int,
    j: int,
)
    requires
        independent(insertions_of_pairs(pairs)),
        0 <= i < pairs.len(),
        0 <= j < pairs[i].1.len(),
    ensures
        find_node(
            insert_pairs(Seq::empty(), pairs),
            place_of(pairs[i].0).push(pairs[i].1[j].0),
        ) == Some(pairs[i].1[j].1),
        place_of(pairs[i].0).len() > 0 ==> find_branch(
            insert_pairs(Seq::empty(), pairs),
            place_of(pairs[i].0),
        ) is Some,
{
    let k = lemma_insertion_of(pairs, i, j);
    let items = insertions_of_pairs(pairs);
    lemma_insert_pairs_insertions(Seq::empty(), pairs);
    lemma_inserted_are_found(Seq::empty(), items, k);
    let place = place_of(pairs[i].0);
    if place.len() > 0 {
        assert(items[k].0.take(place.len() as int) =~= place);
    }
}

/// Where the paths of all files of the pairs are independent, the
/// directory built from the pairs holds the bytes of all the files.
pub proof fn lemma_snapshot_size(pairs: Seq<(Seq<Seq<char>>, Seq<(Seq<char>, Seq<u8>)>)>)
    requires
        independent(insertions_of_pairs(pairs)),
    ensures
        total_size(insert_pairs(Seq::empty(), pairs)) == total_bytes(insertions_of_pairs(pairs)),
{
    lemma_insert_pairs_insertions(Seq::empty(), pairs);
    lemma_built_total_size(insertions_of_pairs(pairs));
}

/// Where the paths of all files of the pairs are independent, the directory
/// of each pair that has a file is found at its path in the directory built
/// from the pairs, but for the root path, for which no directory stands.
pub proof fn lemma_snapshot_directory(
    pairs: Seq<(Seq<Seq<char>>, Seq<(Seq<char>, Seq<u8>)>)>,
    i: int,
)
    requires
        independent(insertions_of_pairs(pairs)),
        0 <= i < pairs.len(),
        pairs[i].1.len() > 0,
        place_of(pairs[i].0).len() > 0,
    ensures
        find_branch(insert_pairs(Seq::empty(), pairs), place_of(pairs[i].0)) is Some,
{
    lemma_snapshot_round_trip(pairs, i, 0);
}

/// The path at which the file `j` of the files of a directory path is
/// inserted: the path of the directory, or none for the root path, with the
/// name of the file added.
pub open spec fn file_path_of(
    directory_path: Seq<Seq<char>>,
    files: Seq<(Seq<char>, Seq<u8>)>,
    j: int,
) -> Seq<Seq<char>> {
    place_of(directory_path).push(files[j].0)
}

/// Whether the paths of all files of a map are independent: none begins with
/// the path of another file, so no two are equal and none leads through the
/// place of another.
pub open spec fn independent_files(map: Map<Path, NonEmpty<(Label, File)>>) -> bool {
    forall|left: Path, i: int, right: Path, j: int|
        map.contains_key(left) && map.contains_key(right) && 0 <= i < named_files_of(
            map[left],
        ).len() && 0 <= j < named_files_of(map[right]).len() && !(left@ == right@ && i == j)
            ==> !(#[trigger] file_path_of(left@, named_files_of(map[left]), i)).is_prefix_of(
            #[trigger] file_path_of(right@, named_files_of(map[right]), j),
        )
}

/// Each insertion of the pairs is that of a file of a pair: the result is
/// the index of the pair and that of the file among its files. The
/// insertion stands after all those of the pairs before, at the place of
/// the file among the files of its pair.
pub proof fn lemma_insertion_source(
    pairs: Seq<(Seq<Seq<char>>, Seq<(Seq<char>, Seq<u8>)>)>,
    k: int,
) -> (source: (int, int))
    requires
        0 <= k < insertions_of_pairs(pairs).len(),
    ensures
        0 <= source.0 < pairs.len(),
        0 <= source.1 < pairs[source.0].1.len(),
        k == insertions_of_pairs(pairs.take(source.0)).len() + source.1,
        insertions_of_pairs(pairs)[k] == (
            file_path_of(pairs[source.0].0, pairs[source.0].1, source.1),
            pairs[source.0].1[source.1].1,
        ),
    decreases pairs.len(),
{
    let before = insertions_of_pairs(pairs.drop_last());
    if k >= before.len() {
        assert(pairs.take(pairs.len() - 1) =~= pairs.drop_last());
        (pairs.len() - 1, k - before.len())
    } else {
        let source = lemma_insertion_source(pairs.drop_last(), k);
        assert(pairs.drop_last()[source.0] == pairs[source.0]);
        assert(pairs.drop_last().take(source.0) =~= pairs.take(source.0));
        source
    }
}

/// The insertions of the pairs of a map are independent where the paths of
/// all files of the map are.
pub proof fn lemma_independent_pairs(
    pairs: Seq<(Path, NonEmpty<(Label, File)>)>,
    map: Map<Path, NonEmpty<(Label, File)>>,
)
    requires
        pairs_of_map(pairs, map),
        independent_files(map),
    ensures
        independent(insertions_of_pairs(pair_views(pairs))),
{
    let views = pair_views(pairs);
    let items = insertions_of_pairs(views);
    assert forall|a: int| 0 <= a < items.len() implies (#[trigger] items[a]).0.len() > 0 by {
        let source = lemma_insertion_source(views, a);
    }
    assert forall|a: int, b: int|
        0 <= a < items.len() && 0 <= b < items.len() && a != b implies !(
    #[trigger] items[a]).0.is_prefix_of((#[trigger] items[b]).0) by {
        let left = lemma_insertion_source(views, a);
        let right = lemma_insertion_source(views, b);
        let left_key = pairs[left.0].0;
        let right_key = pairs[right.0].0;
        assert(views[left.0] == (left_key@, named_files_of(map[left_key])));
        assert(views[right.0] == (right_key@, named_files_of(map[right_key])));
        if left.0 < right.0 {
            assert(pairs[left.0].0@ != pairs[right.0].0@);
        } else if right.0 < left.0 {
            assert(pairs[right.0].0@ != pairs[left.0].0@);
        }
        assert(!(left_key@ == right_key@ && left.1 == right.1));
        assert(!file_path_of(left_key@, named_files_of(map[left_key]), left.1).is_prefix_of(
            file_path_of(right_key@, named_files_of(map[right_key]), right.1),
        ));
    }
}

} // verus!
