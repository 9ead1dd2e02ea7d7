//! A forest of trees keyed by labels: branches hold further trees, nodes
//! hold files.
//!
//! The entries of one level are kept in the order in which their keys were
//! first inserted. All operations address an entry by the first entry of its
//! level that has the key; in a well-formed forest no other has it.

pub mod laws;

use crate::file_system::directory::File;
use crate::file_system::path::{label_views, Label};
use vstd::prelude::*;

verus! {

/// An entry of a forest: a `Node` holds a file, a `Branch` holds the trees
/// below it.
#[derive(Debug, PartialEq, Eq)]
pub enum SubTree {
    Node { key: Label, value: File },
    Branch { key: Label, forest: Box<Tree> },
}

/// The entries of one level, in order. A tree below a branch of a
/// well-formed forest has at least one entry.
#[derive(Debug, PartialEq, Eq)]
pub struct Tree(pub Vec<SubTree>);

/// A forest is either empty or a tree.
#[derive(Debug, PartialEq, Eq)]
pub struct Forest(pub Option<Tree>);

/// What a `SubTree` is: a file's bytes under a key, or the entries below a
/// key, in order.
pub ghost enum SubTreeView {
    Node { key: Seq<char>, value: Seq<u8> },
    Branch { key: Seq<char>, forest: Seq<SubTreeView> },
}

impl SubTreeView {
    /// The key of the entry.
    pub open spec fn key(self) -> Seq<char> {
        match self {
            SubTreeView::Node { key, .. } => key,
            SubTreeView::Branch { key, .. } => key,
        }
    }

    /// The entries below the entry: none below a node.
    pub open spec fn below(self) -> Seq<SubTreeView> {
        match self {
            SubTreeView::Node { .. } => Seq::empty(),
            SubTreeView::Branch { forest, .. } => forest,
        }
    }
}

/// The index of the first entry with this key among the entries from index
/// `from` on.
pub open spec fn position_from(forest: Seq<SubTreeView>, key: Seq<char>, from: int) -> Option<int>
    decreases forest.len() - from,
{
    if from < 0 || from >= forest.len() {
        None
    } else if forest[from].key() == key {
        Some(from)
    } else {
        position_from(forest, key, from + 1)
    }
}

/// The index of the first entry with this key.
pub open spec fn position(forest: Seq<SubTreeView>, key: Seq<char>) -> Option<int> {
    position_from(forest, key, 0)
}

/// The entry at a path: the first label selects an entry of the forest, each
/// further label an entry below the branch selected before. There is none
/// for the empty path, where a label selects nothing, and where a label but
/// the last selects a node.
pub open spec fn find(forest: Seq<SubTreeView>, path: Seq<Seq<char>>) -> Option<SubTreeView>
    decreases path.len(),
{
    if path.len() == 0 {
        None
    } else {
        match position(forest, path.first()) {
            None => None,
            Some(i) => if path.len() == 1 {
                Some(forest[i])
            } else {
                match forest[i] {
                    SubTreeView::Branch { forest: below, .. } => find(below, path.skip(1)),
                    SubTreeView::Node { .. } => None,
                }
            },
        }
    }
}

/// The bytes of the file at a path, where the path leads to a node.
pub open spec fn find_node(forest: Seq<SubTreeView>, path: Seq<Seq<char>>) -> Option<Seq<u8>> {
    match find(forest, path) {
        Some(SubTreeView::Node { value, .. }) => Some(value),
        _ => None,
    }
}

/// The entries below the branch at a path, where the path leads to a branch.
pub open spec fn find_branch(forest: Seq<SubTreeView>, path: Seq<Seq<char>>) -> Option<
    Seq<SubTreeView>,
> {
    match find(forest, path) {
        Some(SubTreeView::Branch { forest: below, .. }) => Some(below),
        _ => None,
    }
}

/// The forest with a file inserted at a path.
///
/// The entry for the first label takes the place of the first entry with
/// that key, or comes last where there is none. For the last label of the
/// path it is a node with the file, whatever was there. For a label before
/// the last it is a branch: its trees are those of the branch that was
/// there, or none where there was a node or nothing, with the file inserted
/// at the rest of the path.
pub open spec fn insert(forest: Seq<SubTreeView>, path: Seq<Seq<char>>, value: Seq<u8>) -> Seq<
    SubTreeView,
>
    decreases path.len(),
{
    if path.len() == 0 {
        forest
    } else {
        let key = path.first();
        let entry = if path.len() == 1 {
            SubTreeView::Node { key, value }
        } else {
            let below = match position(forest, key) {
                Some(i) => forest[i].below(),
                None => Seq::empty(),
            };
            SubTreeView::Branch { key, forest: insert(below, path.skip(1), value) }
        };
        match position(forest, key) {
            Some(i) => forest.update(i, entry),
            None => forest.push(entry),
        }
    }
}

/// The number of bytes of all files in the forest.
pub open spec fn total_size(forest: Seq<SubTreeView>) -> nat
    decreases forest,
{
    if forest.len() == 0 {
        0
    } else {
        total_size(forest.drop_last()) + match forest.last() {
            SubTreeView::Node { value, .. } => value.len(),
            SubTreeView::Branch { forest: below, .. } => total_size(below),
        }
    }
}

/// No two entries of one level have the same key, and every branch has at
/// least one entry below it: at this level and at every level below.
pub open spec fn well_formed(forest: Seq<SubTreeView>) -> bool
    decreases forest,
{
    &&& forall|i: int, j: int|
        0 <= i < j < forest.len() ==> (#[trigger] forest[i]).key() != (#[trigger] forest[j]).key()
    &&& forall|i: int|
        0 <= i < forest.len() ==> (#[trigger] forest[i] matches SubTreeView::Branch {
            forest: below,
            ..
        } ==> below.len() > 0 && well_formed(below))
}

impl SubTree {
    /// The entry as a mathematical value.
    pub open spec fn model(&self) -> SubTreeView
        decreases self,
    {
        match self {
            SubTree::Node { key, value } => SubTreeView::Node { key: key@, value: value@ },
            SubTree::Branch { key, forest } => SubTreeView::Branch {
                key: key@,
                forest: forest.model(),
            },
        }
    }
}

impl Tree {
    /// The entries as mathematical values, in order.
    pub open spec fn model(&self) -> Seq<SubTreeView>
        decreases self,
    {
        Seq::new(
            self.0@.len(),
            |i: int|
                if 0 <= i < self.0@.len() {
                    self.0@[i].model()
                } else {
                    SubTreeView::Branch { key: Seq::empty(), forest: Seq::empty() }
                },
        )
    }
}

impl View for SubTree {
    type V = SubTreeView;

    open spec fn view(&self) -> SubTreeView {
        self.model()
    }
}

impl View for Tree {
    type V = Seq<SubTreeView>;

    open spec fn view(&self) -> Seq<SubTreeView> {
        self.model()
    }
}

impl View for Forest {
    type V = Seq<SubTreeView>;

    open spec fn view(&self) -> Seq<SubTreeView> {
        match self.0 {
            Some(tree) => tree@,
            None => Seq::empty(),
        }
    }
}

impl SubTree {
    /// The key of the entry.
    pub fn key(&self) -> (res: &Label)
        ensures
            res@ == self@.key(),
    {
        match self {
            SubTree::Node { key, .. } => key,
            SubTree::Branch { key, .. } => key,
        }
    }

    /// A copy of the entry, with everything below it.
    fn duplicate(&self) -> (res: Self)
        ensures
            res@ == self@,
        decreases self,
    {
        match self {
            SubTree::Node { key, value } => SubTree::Node { key: key.clone(), value: value.clone() },
            SubTree::Branch { key, forest } => SubTree::Branch {
                key: key.clone(),
                forest: Box::new(forest.duplicate()),
            },
        }
    }
}

impl Clone for SubTree {
    fn clone(&self) -> (res: Self)
        ensures
            res@ == self@,
    {
        self.duplicate()
    }
}

impl Tree {
    /// A copy of the tree, with everything below it.
    fn duplicate(&self) -> (res: Self)
        ensures
            res@ == self@,
        decreases self,
    {
        let mut entries: Vec<SubTree> = Vec::new();
        let mut i: usize = 0;
        while i < self.0.len()
            invariant
                i <= self.0@.len(),
                entries@.len() == i,
                forall|j: int| 0 <= j < i ==> entries@[j]@ == self.0@[j]@,
            decreases self.0@.len() - i,
        {
            entries.push(self.0[i].duplicate());
            i += 1;
        }
        let res = Tree(entries);
        assert(res@ =~= self@);
        res
    }

    /// The index of the first entry with this key.
    pub fn position(&self, key: &Label) -> (res: Option<usize>)
        ensures
            match res {
                Some(i) => position(self@, key@) == Some(i as int) && i < self.0@.len(),
                None => position(self@, key@) is None,
            },
    {
        let mut i: usize = 0;
        while i < self.0.len()
            invariant
                i <= self.0@.len(),
                position(self@, key@) == position_from(self@, key@, i as int),
            decreases self.0@.len() - i,
        {
            assert(self@[i as int] == self.0@[i as int]@);
            if *self.0[i].key() == *key {
                return Some(i);
            }
            i += 1;
        }
        None
    }

    /// The entry at a path, if the path leads to one.
    pub fn find(&self, path: &[Label]) -> (res: Option<&SubTree>)
        ensures
            match res {
                Some(entry) => find(self@, label_views(path@)) == Some(entry@),
                None => find(self@, label_views(path@)) is None,
            },
    {
        if path.len() == 0 {
            return None;
        }
        let ghost labels = label_views(path@);
        let mut tree: &Tree = self;
        let mut k: usize = 0;
        assert(labels.skip(0) =~= labels);
        loop
            invariant
                k < path@.len(),
                labels == label_views(path@),
                find(self@, labels) == find(tree@, labels.skip(k as int)),
            decreases path@.len() - k,
        {
            assert(labels.skip(k as int).first() == path@[k as int]@);
            assert(labels.skip(k as int).skip(1) =~= labels.skip(k + 1));
            match tree.position(&path[k]) {
                None => {
                    return None;
                },
                Some(i) => {
                    assert(tree@[i as int] == tree.0@[i as int]@);
                    if k + 1 == path.len() {
                        return Some(&tree.0[i]);
                    }
                    match &tree.0[i] {
                        SubTree::Branch { forest, .. } => {
                            tree = forest;
                        },
                        SubTree::Node { .. } => {
                            return None;
                        },
                    }
                    k += 1;
                },
            }
        }
    }

    /// The file at a path, if the path leads to a node.
    pub fn find_node(&self, path: &[Label]) -> (res: Option<&File>)
        ensures
            match res {
                Some(file) => find_node(self@, label_views(path@)) == Some(file@),
                None => find_node(self@, label_views(path@)) is None,
            },
    {
        match self.find(path) {
            Some(SubTree::Node { value, .. }) => Some(value),
            _ => None,
        }
    }

    /// The tree below the branch at a path, if the path leads to a branch.
    pub fn find_branch(&self, path: &[Label]) -> (res: Option<&Tree>)
        ensures
            match res {
                Some(tree) => find_branch(self@, label_views(path@)) == Some(tree@),
                None => find_branch(self@, label_views(path@)) is None,
            },
    {
        match self.find(path) {
            Some(SubTree::Branch { forest, .. }) => Some(forest),
            _ => None,
        }
    }

    /// Insert a file at a path; the empty path changes nothing.
    ///
    /// Branches are made for the labels before the last as far as they are
    /// missing. What stood at the path before, a node or a branch, gives way
    /// to the file; a node that stood where the path needs a branch gives way
    /// to the branch.
    pub fn insert(&mut self, path: &[Label], value: File)
        ensures
            final(self)@ == insert(old(self)@, label_views(path@), value@),
            well_formed(old(self)@) ==> well_formed(final(self)@),
        decreases path@.len(),
    {
        proof {
            if well_formed(self@) {
                lemma_insert_well_formed(self@, label_views(path@), value@);
            }
        }
        if path.len() == 0 {
            return ;
        }
        let ghost labels = label_views(path@);
        let ghost before = self@;
        let key = &path[0];
        let found = self.position(key);
        if path.len() == 1 {
            let entry = SubTree::Node { key: key.clone(), value };
            match found {
                Some(i) => {
                    self.0[i] = entry;
                    assert(self@ =~= before.update(i as int, entry@));
                },
                None => {
                    self.0.push(entry);
                    assert(self@ =~= before.push(entry@));
                },
            }
        } else {
            let rest = vstd::slice::slice_subrange(path, 1, path.len());
            assert(label_views(rest@) =~= labels.skip(1));
            match found {
                Some(i) => {
                    assert(before[i as int] == self.0@[i as int]@);
                    let is_branch = match &self.0[i] {
                        SubTree::Branch { .. } => true,
                        SubTree::Node { .. } => false,
                    };
                    proof {
                        lemma_position_from(before, key@, 0);
                    }
                    if is_branch {
                        match &mut self.0[i] {
                            SubTree::Branch { forest, .. } => {
                                forest.insert(rest, value);
                            },
                            SubTree::Node { .. } => {},
                        }
                        assert(self@ =~= before.update(
                            i as int,
                            SubTreeView::Branch {
                                key: labels.first(),
                                forest: insert(before[i as int].below(), labels.skip(1), value@),
                            },
                        ));
                    } else {
                        let mut below = Tree(Vec::new());
                        assert(below@ =~= Seq::empty());
                        below.insert(rest, value);
                        let entry = SubTree::Branch { key: key.clone(), forest: Box::new(below) };
                        self.0[i] = entry;
                        assert(self@ =~= before.update(i as int, entry@));
                    }
                },
                None => {
                    let mut below = Tree(Vec::new());
                    assert(below@ =~= Seq::empty());
                    below.insert(rest, value);
                    let entry = SubTree::Branch { key: key.clone(), forest: Box::new(below) };
                    self.0.push(entry);
                    assert(self@ =~= before.push(entry@));
                },
            }
        }
    }

    /// The number of bytes of all files in the tree.
    pub fn total_size(&self) -> (res: usize)
        requires
            total_size(self@) <= usize::MAX,
        ensures
            res == total_size(self@),
        decreases self,
    {
        let mut size: usize = 0;
        let mut i: usize = 0;
        assert(self@.take(0) =~= Seq::empty());
        while i < self.0.len()
            invariant
                i <= self.0@.len(),
                size == total_size(self@.take(i as int)),
                total_size(self@) <= usize::MAX,
            decreases self.0@.len() - i,
        {
            assert(self@.take(i + 1).drop_last() =~= self@.take(i as int));
            assert(self@.take(i + 1).last() == self.0@[i as int]@);
            proof {
                lemma_total_size_take(self@, i + 1);
            }
            let added = match &self.0[i] {
                SubTree::Node { value, .. } => value.size(),
                SubTree::Branch { forest, .. } => forest.total_size(),
            };
            size = size + added;
            i += 1;
        }
        assert(self@.take(i as int) =~= self@);
        size
    }

    /// The number of bytes of all files in the tree, or `None` where it
    /// does not fit a `usize`.
    pub fn checked_total_size(&self) -> (res: Option<usize>)
        ensures
            match res {
                Some(size) => size == total_size(self@),
                None => total_size(self@) > usize::MAX,
            },
        decreases self,
    {
        let mut size: usize = 0;
        let mut i: usize = 0;
        assert(self@.take(0) =~= Seq::empty());
        while i < self.0.len()
            invariant
                i <= self.0@.len(),
                size == total_size(self@.take(i as int)),
            decreases self.0@.len() - i,
        {
            assert(self@.take(i + 1).drop_last() =~= self@.take(i as int));
            assert(self@.take(i + 1).last() == self.0@[i as int]@);
            proof {
                lemma_total_size_take(self@, i + 1);
            }
            let added = match &self.0[i] {
                SubTree::Node { value, .. } => Some(value.size()),
                SubTree::Branch { forest, .. } => forest.checked_total_size(),
            };
            match added {
                None => {
                    return None;
                },
                Some(added) => match size.checked_add(added) {
                    None => {
                        return None;
                    },
                    Some(sum) => {
                        size = sum;
                    },
                },
            }
            i += 1;
        }
        assert(self@.take(i as int) =~= self@);
        Some(size)
    }
}

impl Forest {
    /// The empty forest.
    pub fn root() -> (res: Self)
        ensures
            res@ == Seq::<SubTreeView>::empty(),
    {
        Forest(None)
    }

    /// The forest of a tree.
    pub fn from_tree(tree: Tree) -> (res: Self)
        ensures
            res@ == tree@,
    {
        Forest(Some(tree))
    }

    /// The file at a path, if the path leads to a node.
    pub fn find_node(&self, path: &[Label]) -> (res: Option<&File>)
        ensures
            match res {
                Some(file) => find_node(self@, label_views(path@)) == Some(file@),
                None => find_node(self@, label_views(path@)) is None,
            },
    {
        match &self.0 {
            Some(tree) => tree.find_node(path),
            None => {
                assert(find(self@, label_views(path@)) is None);
                None
            },
        }
    }

    /// The tree below the branch at a path, if the path leads to a branch.
    pub fn find_branch(&self, path: &[Label]) -> (res: Option<&Tree>)
        ensures
            match res {
                Some(tree) => find_branch(self@, label_views(path@)) == Some(tree@),
                None => find_branch(self@, label_views(path@)) is None,
            },
    {
        match &self.0 {
            Some(tree) => tree.find_branch(path),
            None => {
                assert(find(self@, label_views(path@)) is None);
                None
            },
        }
    }

    /// Insert a file at a path; the empty path changes nothing. See
    /// `Tree::insert`.
    pub fn insert(&mut self, path: &[Label], value: File)
        ensures
            final(self)@ == insert(old(self)@, label_views(path@), value@),
            well_formed(old(self)@) ==> well_formed(final(self)@),
    {
        proof {
            if well_formed(self@) {
                lemma_insert_well_formed(self@, label_views(path@), value@);
            }
        }
        match &mut self.0 {
            Some(tree) => {
                tree.insert(path, value);
            },
            None => {
                let mut tree = Tree(Vec::new());
                assert(tree@ =~= Seq::empty());
                tree.insert(path, value);
                if tree.0.len() > 0 {
                    self.0 = Some(tree);
                } else {
                    assert(tree@ =~= Seq::empty());
                }
            },
        }
    }

    /// The number of bytes of all files in the forest.
    pub fn total_size(&self) -> (res: usize)
        requires
            total_size(self@) <= usize::MAX,
        ensures
            res == total_size(self@),
    {
        match &self.0 {
            Some(tree) => tree.total_size(),
            None => 0,
        }
    }

    /// The number of bytes of all files in the forest, or `None` where it
    /// does not fit a `usize`.
    pub fn checked_total_size(&self) -> (res: Option<usize>)
        ensures
            match res {
                Some(size) => size == total_size(self@),
                None => total_size(self@) > usize::MAX,
            },
    {
        match &self.0 {
            Some(tree) => tree.checked_total_size(),
            None => Some(0),
        }
    }
}

impl Clone for Forest {
    fn clone(&self) -> (res: Self)
        ensures
            res@ == self@,
    {
        match &self.0 {
            Some(tree) => Forest(Some(tree.duplicate())),
            None => Forest(None),
        }
    }
}

impl Clone for Tree {
    fn clone(&self) -> (res: Self)
        ensures
            res@ == self@,
    {
        self.duplicate()
    }
}

/// What `position_from` finds is the first entry with the key at or after
/// `from`; it finds none only where there is none.
pub proof fn lemma_position_from(forest: Seq<SubTreeView>, key: Seq<char>, from: int)
    requires
        0 <= from,
    ensures
        match position_from(forest, key, from) {
            Some(i) => from <= i < forest.len() && forest[i].key() == key && forall|j: int|
                from <= j < i ==> (#[trigger] forest[j]).key() != key,
            None => forall|j: int| from <= j < forest.len() ==> (#[trigger] forest[j]).key() != key,
        },
    decreases forest.len() - from,
{
    if from < forest.len() && forest[from].key() != key {
        lemma_position_from(forest, key, from + 1);
    }
}

/// Forests with the same keys at the same places have a key at the same
/// position.
pub proof fn lemma_position_same_keys(
    left: Seq<SubTreeView>,
    right: Seq<SubTreeView>,
    key: Seq<char>,
    from: int,
)
    requires
        left.len() == right.len(),
        forall|j: int| 0 <= j < left.len() ==> (#[trigger] left[j]).key() == right[j].key(),
    ensures
        position_from(left, key, from) == position_from(right, key, from),
    decreases left.len() - from,
{
    if 0 <= from < left.len() && left[from].key() != key {
        lemma_position_same_keys(left, right, key, from + 1);
    }
}

/// The position of a key in a forest with one more entry at its end: where
/// it was, or at the new entry where it was nowhere and the new entry has
/// the key.
pub proof fn lemma_position_push(
    forest: Seq<SubTreeView>,
    entry: SubTreeView,
    key: Seq<char>,
    from: int,
)
    requires
        0 <= from <= forest.len(),
    ensures
        position_from(forest.push(entry), key, from) == match position_from(forest, key, from) {
            Some(i) => Some(i),
            None => if entry.key() == key {
                Some(forest.len() as int)
            } else {
                None
            },
        },
    decreases forest.len() - from,
{
    let longer = forest.push(entry);
    if from < forest.len() {
        assert(longer[from] == forest[from]);
        if forest[from].key() != key {
            lemma_position_push(forest, entry, key, from + 1);
        }
    } else {
        assert(longer[from] == entry);
        assert(position_from(longer, key, from + 1) is None);
    }
}

/// The entry that `insert` puts at the first label of a path.
pub open spec fn inserted_entry(
    forest: Seq<SubTreeView>,
    path: Seq<Seq<char>>,
    value: Seq<u8>,
) -> SubTreeView {
    if path.len() == 1 {
        SubTreeView::Node { key: path.first(), value }
    } else {
        let below = match position(forest, path.first()) {
            Some(i) => forest[i].below(),
            None => Seq::empty(),
        };
        SubTreeView::Branch { key: path.first(), forest: insert(below, path.skip(1), value) }
    }
}

/// Where `insert` puts its entry, and that the keys of the other entries
/// stay where they were.
pub proof fn lemma_insert_position(forest: Seq<SubTreeView>, path: Seq<Seq<char>>, value: Seq<u8>)
    requires
        path.len() > 0,
    ensures
        ({
            let after = insert(forest, path, value);
            let entry = inserted_entry(forest, path, value);
            match position(forest, path.first()) {
                Some(i) => {
                    &&& 0 <= i < forest.len()
                    &&& forest[i].key() == path.first()
                    &&& after == forest.update(i, entry)
                    &&& position(after, path.first()) == Some(i)
                    &&& forall|key: Seq<char>| #[trigger]
                        position(after, key) == position(forest, key)
                },
                None => {
                    &&& after == forest.push(entry)
                    &&& position(after, path.first()) == Some(forest.len() as int)
                    &&& forall|key: Seq<char>|
                        key != path.first() ==> #[trigger] position(after, key) == position(
                            forest,
                            key,
                        )
                },
            }
        }),
{
    let after = insert(forest, path, value);
    let entry = inserted_entry(forest, path, value);
    lemma_position_from(forest, path.first(), 0);
    match position(forest, path.first()) {
        Some(i) => {
            assert forall|key: Seq<char>| #[trigger]
                position(after, key) == position(forest, key) by {
                lemma_position_same_keys(after, forest, key, 0);
            }
        },
        None => {
            lemma_position_push(forest, entry, path.first(), 0);
            assert forall|key: Seq<char>| key != path.first() implies #[trigger] position(
                after,
                key,
            ) == position(forest, key) by {
                lemma_position_push(forest, entry, key, 0);
            }
        },
    }
}

/// A file is found where it was inserted: at the path of the insertion
/// stands a node with the last label of the path as its key and the file
/// as its value.
pub proof fn lemma_insert_then_find(forest: Seq<SubTreeView>, path: Seq<Seq<char>>, value: Seq<u8>)
    requires
        path.len() > 0,
    ensures
        find(insert(forest, path, value), path) == Some(
            SubTreeView::Node { key: path.last(), value },
        ),
        find_node(insert(forest, path, value), path) == Some(value),
        find_branch(insert(forest, path, value), path) is None,
    decreases path.len(),
{
    lemma_insert_position(forest, path, value);
    if path.len() > 1 {
        let below = match position(forest, path.first()) {
            Some(i) => forest[i].below(),
            None => Seq::empty(),
        };
        lemma_insert_then_find(below, path.skip(1), value);
    }
}

/// After an insertion a branch stands at every path that the path of the
/// insertion goes through: at each of its beginnings but itself.
pub proof fn lemma_insert_makes_branches(
    forest: Seq<SubTreeView>,
    path: Seq<Seq<char>>,
    value: Seq<u8>,
    n: int,
)
    requires
        0 < n < path.len(),
    ensures
        find_branch(insert(forest, path, value), path.take(n)) is Some,
    decreases path.len(),
{
    lemma_insert_position(forest, path, value);
    assert(path.take(n).first() == path.first());
    if n > 1 {
        let below = match position(forest, path.first()) {
            Some(i) => forest[i].below(),
            None => Seq::empty(),
        };
        assert(path.take(n).skip(1) =~= path.skip(1).take(n - 1));
        lemma_insert_makes_branches(below, path.skip(1), value, n - 1);
    }
}

/// An insertion changes nothing at a path that does not begin with the path
/// of the insertion and is not a beginning of it.
pub proof fn lemma_insert_keeps_others(
    forest: Seq<SubTreeView>,
    path: Seq<Seq<char>>,
    value: Seq<u8>,
    other: Seq<Seq<char>>,
)
    requires
        path.len() > 0,
        !path.is_prefix_of(other),
        !other.is_prefix_of(path),
    ensures
        find(insert(forest, path, value), other) == find(forest, other),
        find_node(insert(forest, path, value), other) == find_node(forest, other),
        find_branch(insert(forest, path, value), other) == find_branch(forest, other),
    decreases path.len(),
{
    lemma_insert_position(forest, path, value);
    let after = insert(forest, path, value);
    assert(other.len() > 0) by {
        if other.len() == 0 {
            assert(other =~= path.subrange(0, 0));
        }
    }
    if other.first() != path.first() {
        lemma_position_from(forest, other.first(), 0);
        lemma_position_from(forest, path.first(), 0);
        assert(position(after, other.first()) == position(forest, other.first()));
    } else {
        assert(other.len() > 1) by {
            if other.len() == 1 {
                assert(other =~= path.subrange(0, 1));
            }
        }
        assert(path.len() > 1) by {
            if path.len() == 1 {
                assert(path =~= other.subrange(0, 1));
            }
        }
        let below = match position(forest, path.first()) {
            Some(i) => forest[i].below(),
            None => Seq::empty(),
        };
        assert(!path.skip(1).is_prefix_of(other.skip(1))) by {
            if path.skip(1).is_prefix_of(other.skip(1)) {
                assert(path =~= other.subrange(0, path.len() as int)) by {
                    assert forall|j: int| 0 <= j < path.len() implies path[j] == other[j] by {
                        if j > 0 {
                            assert(path.skip(1)[j - 1] == other.skip(1).subrange(
                                0,
                                path.skip(1).len() as int,
                            )[j - 1]);
                        }
                    }
                }
            }
        }
        assert(!other.skip(1).is_prefix_of(path.skip(1))) by {
            if other.skip(1).is_prefix_of(path.skip(1)) {
                assert(other =~= path.subrange(0, other.len() as int)) by {
                    assert forall|j: int| 0 <= j < other.len() implies other[j] == path[j] by {
                        if j > 0 {
                            assert(other.skip(1)[j - 1] == path.skip(1).subrange(
                                0,
                                other.skip(1).len() as int,
                            )[j - 1]);
                        }
                    }
                }
            }
        }
        lemma_insert_keeps_others(below, path.skip(1), value, other.skip(1));
        assert(find(Seq::<SubTreeView>::empty(), other.skip(1)) is None);
    }
}

/// An insertion leaves at least one entry.
pub proof fn lemma_insert_is_not_empty(
    forest: Seq<SubTreeView>,
    path: Seq<Seq<char>>,
    value: Seq<u8>,
)
    requires
        path.len() > 0,
    ensures
        insert(forest, path, value).len() > 0,
        insert(forest, path, value).len() >= forest.len(),
{
    lemma_insert_position(forest, path, value);
}

/// An insertion into a well-formed forest gives a well-formed forest: no
/// key occurs twice on a level, and no branch is empty.
pub proof fn lemma_insert_well_formed(
    forest: Seq<SubTreeView>,
    path: Seq<Seq<char>>,
    value: Seq<u8>,
)
    requires
        well_formed(forest),
    ensures
        well_formed(insert(forest, path, value)),
    decreases path.len(),
{
    if path.len() > 0 {
        lemma_insert_position(forest, path, value);
        lemma_position_from(forest, path.first(), 0);
        let after = insert(forest, path, value);
        let entry = inserted_entry(forest, path, value);
        if path.len() > 1 {
            let below = match position(forest, path.first()) {
                Some(i) => forest[i].below(),
                None => Seq::empty(),
            };
            assert(well_formed(below));
            lemma_insert_well_formed(below, path.skip(1), value);
            lemma_insert_is_not_empty(below, path.skip(1), value);
        }
        assert forall|i: int, j: int| 0 <= i < j < after.len() implies (#[trigger] after[i]).key()
            != (#[trigger] after[j]).key() by {
            match position(forest, path.first()) {
                Some(k) => {
                    assert(after[i].key() == forest[i].key());
                    assert(after[j].key() == forest[j].key());
                },
                None => {
                    if j < forest.len() {
                        assert(after[i] == forest[i] && after[j] == forest[j]);
                    } else {
                        assert(after[i] == forest[i]);
                    }
                },
            }
        }
        assert forall|i: int| 0 <= i < after.len() implies (#[trigger] after[i]
            matches SubTreeView::Branch { forest: below, .. } ==> below.len() > 0 && well_formed(
            below,
        )) by {
            match position(forest, path.first()) {
                Some(k) => {
                    if i != k {
                        assert(after[i] == forest[i]);
                    }
                },
                None => {
                    if i < forest.len() {
                        assert(after[i] == forest[i]);
                    }
                },
            }
        }
    }
}

/// In a well-formed forest the branch at a path has at least one entry, and
/// its entries are a well-formed forest.
pub proof fn lemma_branch_of_well_formed(forest: Seq<SubTreeView>, path: Seq<Seq<char>>)
    requires
        well_formed(forest),
        find_branch(forest, path) is Some,
    ensures
        find_branch(forest, path)->Some_0.len() > 0,
        well_formed(find_branch(forest, path)->Some_0),
    decreases path.len(),
{
    lemma_position_from(forest, path.first(), 0);
    if path.len() > 1 {
        let i = position(forest, path.first())->Some_0;
        lemma_branch_of_well_formed(forest[i].below(), path.skip(1));
    }
}

/// Nothing is found at a path that goes on from the path of a file.
pub proof fn lemma_nothing_below_file(
    forest: Seq<SubTreeView>,
    path: Seq<Seq<char>>,
    longer: Seq<Seq<char>>,
)
    requires
        find_node(forest, path) is Some,
        path.is_prefix_of(longer),
        path.len() < longer.len(),
    ensures
        find(forest, longer) is None,
    decreases path.len(),
{
    assert(longer.first() == path.first()) by {
        assert(path[0] == longer.subrange(0, path.len() as int)[0]);
    }
    if path.len() > 1 {
        let i = position(forest, path.first())->Some_0;
        assert(path.skip(1).is_prefix_of(longer.skip(1))) by {
            assert(path.skip(1) =~= longer.skip(1).subrange(0, path.len() - 1)) by {
                assert forall|j: int| 0 <= j < path.len() - 1 implies path.skip(1)[j]
                    == longer.skip(1)[j] by {
                    assert(path[j + 1] == longer.subrange(0, path.len() as int)[j + 1]);
                }
            }
        }
        lemma_nothing_below_file(forest[i].below(), path.skip(1), longer.skip(1));
    }
}

/// The number of bytes of the files of an entry.
pub open spec fn entry_size(entry: SubTreeView) -> nat {
    match entry {
        SubTreeView::Node { value, .. } => value.len(),
        SubTreeView::Branch { forest, .. } => total_size(forest),
    }
}

/// The bytes of a forest are those of its entries: replacing one entry
/// changes the sum by the difference of the two.
pub proof fn lemma_total_size_update(forest: Seq<SubTreeView>, i: int, entry: SubTreeView)
    requires
        0 <= i < forest.len(),
    ensures
        total_size(forest.update(i, entry)) + entry_size(forest[i]) == total_size(forest)
            + entry_size(entry),
    decreases forest.len(),
{
    let after = forest.update(i, entry);
    if i == forest.len() - 1 {
        assert(after.drop_last() =~= forest.drop_last());
    } else {
        assert(after.drop_last() =~= forest.drop_last().update(i, entry));
        lemma_total_size_update(forest.drop_last(), i, entry);
    }
}

/// The number of bytes that an insertion at a path takes away: those of
/// what stood at the path, or of the node that stood where the path needs
/// a branch.
pub open spec fn displaced(forest: Seq<SubTreeView>, path: Seq<Seq<char>>) -> nat
    decreases path.len(),
{
    if path.len() == 0 {
        0
    } else {
        match position(forest, path.first()) {
            None => 0,
            Some(i) => if path.len() == 1 {
                entry_size(forest[i])
            } else {
                match forest[i] {
                    SubTreeView::Node { value, .. } => value.len(),
                    SubTreeView::Branch { forest: below, .. } => displaced(below, path.skip(1)),
                }
            },
        }
    }
}

/// An insertion adds the bytes of the file and takes away those that it
/// displaces.
pub proof fn lemma_insert_total_size(
    forest: Seq<SubTreeView>,
    path: Seq<Seq<char>>,
    value: Seq<u8>,
)
    requires
        path.len() > 0,
    ensures
        total_size(insert(forest, path, value)) + displaced(forest, path) == total_size(forest)
            + value.len(),
    decreases path.len(),
{
    lemma_insert_position(forest, path, value);
    let after = insert(forest, path, value);
    let entry = inserted_entry(forest, path, value);
    let below = match position(forest, path.first()) {
        Some(i) => forest[i].below(),
        None => Seq::empty(),
    };
    if path.len() > 1 {
        lemma_insert_total_size(below, path.skip(1), value);
    }
    match position(forest, path.first()) {
        Some(i) => {
            lemma_total_size_update(forest, i, entry);
        },
        None => {
            assert(after.drop_last() =~= forest);
            assert(displaced(Seq::<SubTreeView>::empty(), path.skip(1)) == 0);
        },
    }
}

/// An insertion displaces nothing where nothing stands at its path and no
/// node stands at a beginning of its path.
pub proof fn lemma_displaced_nothing(forest: Seq<SubTreeView>, path: Seq<Seq<char>>)
    requires
        path.len() > 0,
        find(forest, path) is None,
        forall|n: int| 0 < n < path.len() ==> find_node(forest, #[trigger] path.take(n)) is None,
    ensures
        displaced(forest, path) == 0,
    decreases path.len(),
{
    match position(forest, path.first()) {
        None => {},
        Some(i) => {
            assert(path.len() > 1);
            assert(path.take(1).first() == path.first());
            assert(find_node(forest, path.take(1)) is None);
            let below = forest[i].below();
            assert forall|n: int| 0 < n < path.skip(1).len() implies find_node(
                below,
                #[trigger] path.skip(1).take(n),
            ) is None by {
                assert(path.take(n + 1).skip(1) =~= path.skip(1).take(n));
                assert(path.take(n + 1).first() == path.first());
                assert(find_node(forest, path.take(n + 1)) is None);
            }
            lemma_displaced_nothing(below, path.skip(1));
        },
    }
}

/// The files of the first entries of a forest have no more bytes than
/// those of all its entries.
pub proof fn lemma_total_size_take(forest: Seq<SubTreeView>, n: int)
    requires
        0 <= n <= forest.len(),
    ensures
        total_size(forest.take(n)) <= total_size(forest),
    decreases forest.len() - n,
{
    if n < forest.len() {
        lemma_total_size_take(forest, n + 1);
        assert(forest.take(n + 1).drop_last() =~= forest.take(n));
    } else {
        assert(forest.take(n) =~= forest);
    }
}

} // verus!
