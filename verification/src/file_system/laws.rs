//! What holds of labelled directories that were combined.

use crate::file_system::{
    file_entries, file_from, lemma_combine_keeps, lemma_sub_directory_from, listing_of, sub_directory_from, ContentsView,
    DirectoryView, FileView, Path, SystemType,
};
use vstd::prelude::*;

verus! {

/// What `file_from` finds is the first file with the name at or after
/// `from`; it finds none only where there is none.
pub proof fn lemma_file_from(entries: Seq<ContentsView>, label: Seq<char>, from: int)
    requires
        0 <= from,
    ensures
        match file_from(entries, label, from) {
            Some(i) => from <= i < entries.len() && entries[i].is_file_named(label) && forall|
                j: int,
            | from <= j < i ==> !(#[trigger] entries[j]).is_file_named(label),
            None => forall|j: int|
                from <= j < entries.len() ==> !(#[trigger] entries[j]).is_file_named(label),
        },
    decreases entries.len() - from,
{
    if from < entries.len() && !entries[from].is_file_named(label) {
        lemma_file_from(entries, label, from + 1);
    }
}

/// Entries that are sub-directories with the same labels at the same places
/// have the first sub-directory with a label at the same place.
pub proof fn lemma_sub_directory_from_same(
    left: Seq<ContentsView>,
    right: Seq<ContentsView>,
    label: Seq<char>,
    from: int,
)
    requires
        left.len() == right.len(),
        forall|j: int|
            0 <= j < left.len() ==> (#[trigger] left[j]).is_directory_named(label)
                == right[j].is_directory_named(label),
    ensures
        sub_directory_from(left, label, from) == sub_directory_from(right, label, from),
    decreases left.len() - from,
{
    if 0 <= from < left.len() && !left[from].is_directory_named(label) {
        lemma_sub_directory_from_same(left, right, label, from + 1);
    }
}

/// Entries that are files with the same names at the same places have the
/// first file with a name at the same place.
pub proof fn lemma_file_from_same(
    left: Seq<ContentsView>,
    right: Seq<ContentsView>,
    label: Seq<char>,
    from: int,
)
    requires
        left.len() == right.len(),
        forall|j: int|
            0 <= j < left.len() ==> (#[trigger] left[j]).is_file_named(label)
                == right[j].is_file_named(label),
    ensures
        file_from(left, label, from) == file_from(right, label, from),
    decreases left.len() - from,
{
    if 0 <= from < left.len() && !left[from].is_file_named(label) {
        lemma_file_from_same(left, right, label, from + 1);
    }
}

/// The first sub-directory with a label among entries with one more at their
/// end: where it was, or the new entry where there was none and the new
/// entry is one.
pub proof fn lemma_sub_directory_from_push(
    entries: Seq<ContentsView>,
    entry: ContentsView,
    label: Seq<char>,
    from: int,
)
    requires
        0 <= from <= entries.len(),
    ensures
        sub_directory_from(entries.push(entry), label, from) == match sub_directory_from(
            entries,
            label,
            from,
        ) {
            Some(i) => Some(i),
            None => if entry.is_directory_named(label) {
                Some(entries.len() as int)
            } else {
                None
            },
        },
    decreases entries.len() - from,
{
    let longer = entries.push(entry);
    if from < entries.len() {
        assert(longer[from] == entries[from]);
        if !entries[from].is_directory_named(label) {
            lemma_sub_directory_from_push(entries, entry, label, from + 1);
        }
    } else {
        assert(longer[from] == entry);
        assert(sub_directory_from(longer, label, from + 1) is None);
    }
}

/// The first file with a name among entries with one more at their end:
/// where it was, or the new entry where there was none and the new entry is
/// one.
pub proof fn lemma_file_from_push(
    entries: Seq<ContentsView>,
    entry: ContentsView,
    label: Seq<char>,
    from: int,
)
    requires
        0 <= from <= entries.len(),
    ensures
        file_from(entries.push(entry), label, from) == match file_from(entries, label, from) {
            Some(i) => Some(i),
            None => if entry.is_file_named(label) {
                Some(entries.len() as int)
            } else {
                None
            },
        },
    decreases entries.len() - from,
{
    let longer = entries.push(entry);
    if from < entries.len() {
        assert(longer[from] == entries[from]);
        if !entries[from].is_file_named(label) {
            lemma_file_from_push(entries, entry, label, from + 1);
        }
    } else {
        assert(longer[from] == entry);
        assert(file_from(longer, label, from + 1) is None);
    }
}

/// A listing of entries of which one sub-directory gave way to another with
/// the same label shows what it showed before.
pub proof fn lemma_listing_update(entries: Seq<ContentsView>, i: int, entry: ContentsView)
    requires
        0 <= i < entries.len(),
        entries[i].listed() == entry.listed(),
    ensures
        listing_of(entries.update(i, entry)) == listing_of(entries),
    decreases entries.len(),
{
    let after = entries.update(i, entry);
    if i == entries.len() - 1 {
        assert(after.drop_last() =~= entries.drop_last());
    } else {
        assert(after.drop_last() =~= entries.drop_last().update(i, entry));
        lemma_listing_update(entries.drop_last(), i, entry);
    }
}

/// Taking up entries keeps the label of a directory and takes no entry
/// away.
pub proof fn lemma_absorb_keeps(target: DirectoryView, entries: Seq<ContentsView>)
    ensures
        target.absorb(entries).label == target.label,
        target.absorb(entries).entries.len() >= target.entries.len(),
    decreases entries.len(),
{
    if entries.len() > 0 {
        lemma_absorb_keeps(target, entries.drop_last());
        let merged = target.absorb(entries.drop_last());
        match entries.last() {
            ContentsView::SubDirectory(directory) => {
                lemma_combine_keeps(merged, directory);
            },
            _ => {},
        }
    }
}

/// After `other` was
/// combined into a directory, its first sub-directory with the label of
/// `other` is the one that was there with the entries of `other` taken up,
/// or `other` itself where there was none; the first sub-directory with any
/// other label is the one that was there.
pub proof fn lemma_combine_sub_directory(
    target: DirectoryView,
    other: DirectoryView,
    label: Seq<char>,
)
    ensures
        target.combine(other).sub_directory(label) == if label == other.label {
            match target.sub_directory(label) {
                Some(directory) => Some(directory.absorb(other.entries)),
                None => Some(other),
            }
        } else {
            target.sub_directory(label)
        },
{
    let after = target.combine(other).entries;
    lemma_sub_directory_from(target.entries, other.label, 0);
    lemma_sub_directory_from(target.entries, label, 0);
    match sub_directory_from(target.entries, other.label, 0) {
        Some(i) => {
            let merged = (target.entries[i]->SubDirectory_0).absorb(other.entries);
            lemma_absorb_keeps(target.entries[i]->SubDirectory_0, other.entries);
            assert forall|j: int| 0 <= j < after.len() implies (#[trigger] after[j]).is_directory_named(
                label,
            ) == target.entries[j].is_directory_named(label) by {
                if j != i {
                    assert(after[j] == target.entries[j]);
                }
            }
            lemma_sub_directory_from_same(after, target.entries, label, 0);
            if label != other.label {
                let found = sub_directory_from(target.entries, label, 0);
                if found is Some {
                    assert(found->Some_0 != i);
                }
            }
        },
        None => {
            lemma_sub_directory_from_push(
                target.entries,
                ContentsView::SubDirectory(other),
                label,
                0,
            );
        },
    }
}

/// Combining adds no file to the directory itself and shadows none: the
/// first file with a name is the one that was there.
pub proof fn lemma_combine_file(target: DirectoryView, other: DirectoryView, label: Seq<char>)
    ensures
        target.combine(other).file_in_directory(label) == target.file_in_directory(label),
{
    let after = target.combine(other).entries;
    lemma_sub_directory_from(target.entries, other.label, 0);
    lemma_file_from(target.entries, label, 0);
    match sub_directory_from(target.entries, other.label, 0) {
        Some(i) => {
            assert forall|j: int| 0 <= j < after.len() implies (#[trigger] after[j]).is_file_named(
                label,
            ) == target.entries[j].is_file_named(label) by {
                if j != i {
                    assert(after[j] == target.entries[j]);
                }
            }
            lemma_file_from_same(after, target.entries, label, 0);
            let found = file_from(target.entries, label, 0);
            if found is Some {
                assert(found->Some_0 != i);
            }
        },
        None => {
            lemma_file_from_push(target.entries, ContentsView::SubDirectory(other), label, 0);
        },
    }
}

/// Combining on disjoint labels adds one sub-directory to the listing, at
/// its end; combining on a shared label leaves the listing as it was, so the
/// shared label is listed once.
pub proof fn lemma_combine_listing(target: DirectoryView, other: DirectoryView)
    ensures
        listing_of(target.combine(other).entries) == if target.sub_directory(other.label) is Some {
            listing_of(target.entries)
        } else {
            listing_of(target.entries).push((other.label, SystemType::Directory))
        },
{
    lemma_sub_directory_from(target.entries, other.label, 0);
    match sub_directory_from(target.entries, other.label, 0) {
        Some(i) => {
            let merged = (target.entries[i]->SubDirectory_0).absorb(other.entries);
            lemma_absorb_keeps(target.entries[i]->SubDirectory_0, other.entries);
            lemma_listing_update(target.entries, i, ContentsView::SubDirectory(merged));
        },
        None => {
            let after = target.entries.push(ContentsView::SubDirectory(other));
            assert(after.drop_last() =~= target.entries);
            assert(listing_of(target.entries) + seq![(other.label, SystemType::Directory)]
                =~= listing_of(target.entries).push((other.label, SystemType::Directory)));
        },
    }
}

/// The first file with a name in a directory that has taken up entries is
/// the one that was there, or, where there was none, the first among the
/// entries taken up: files are added at the end and none is taken away.
pub proof fn lemma_absorb_file(target: DirectoryView, entries: Seq<ContentsView>, label: Seq<char>)
    ensures
        target.absorb(entries).file_in_directory(label) == match target.file_in_directory(label) {
            Some(file) => Some(file),
            None => match file_from(entries, label, 0) {
                Some(k) => Some(entries[k]->File_0),
                None => None::<FileView>,
            },
        },
    decreases entries.len(),
{
    if entries.len() == 0 {
    } else {
        let init = entries.drop_last();
        let merged = target.absorb(init);
        lemma_absorb_file(target, init, label);
        lemma_file_from(init, label, 0);
        lemma_file_from(entries, label, 0);
        lemma_file_from_push(init, entries.last(), label, 0);
        assert(init.push(entries.last()) =~= entries);
        let earlier = file_from(init, label, 0);
        if earlier is Some {
            assert(init[earlier->Some_0] == entries[earlier->Some_0]);
        }
        match entries.last() {
            ContentsView::SubDirectory(directory) => {
                lemma_combine_file(merged, directory, label);
            },
            entry => {
                lemma_file_from(merged.entries, label, 0);
                lemma_file_from_push(merged.entries, entry, label, 0);
                let found = file_from(merged.entries, label, 0);
                if found is Some {
                    assert(merged.entries.push(entry)[found->Some_0] == merged.entries[found->Some_0]);
                }
            },
        }
    }
}

/// A directory that has taken up entries has a sub-directory with a label
/// exactly where it had one before or one of the entries is one: the
/// sub-directories of both sides are there, each label once more at most.
pub proof fn lemma_absorb_sub_directory(
    target: DirectoryView,
    entries: Seq<ContentsView>,
    label: Seq<char>,
)
    ensures
        target.absorb(entries).sub_directory(label) is Some <==> target.sub_directory(label)
            is Some || sub_directory_from(entries, label, 0) is Some,
    decreases entries.len(),
{
    if entries.len() > 0 {
        let init = entries.drop_last();
        let merged = target.absorb(init);
        lemma_absorb_sub_directory(target, init, label);
        lemma_sub_directory_from_push(init, entries.last(), label, 0);
        assert(init.push(entries.last()) =~= entries);
        match entries.last() {
            ContentsView::SubDirectory(directory) => {
                lemma_combine_sub_directory(merged, directory, label);
            },
            entry => {
                lemma_sub_directory_from_push(merged.entries, entry, label, 0);
            },
        }
    }
}

/// Where a directory has no sub-directory with
/// the label of `other`, combining adds `other` as its last entry and
/// changes nothing else. Every directory of `other` is then found under the
/// label of `other`, and every directory that was found before, under
/// another label, is found as before.
pub proof fn lemma_combine_disjoint(
    target: DirectoryView,
    other: DirectoryView,
    labels: Seq<Seq<char>>,
)
    requires
        target.sub_directory(other.label) is None,
    ensures
        target.combine(other).entries == target.entries.push(ContentsView::SubDirectory(other)),
        target.combine(other).descend(seq![other.label] + labels) == other.descend(labels),
        labels.len() > 0 && labels.first() != other.label ==> target.combine(other).descend(labels)
            == target.descend(labels),
{
    let path = seq![other.label] + labels;
    lemma_combine_sub_directory(target, other, other.label);
    assert(path.skip(1) =~= labels);
    assert(path.first() == other.label);
    if labels.len() > 0 {
        lemma_combine_sub_directory(target, other, labels.first());
    }
}

/// After a directory was combined in on a label of its own, the file at a
/// path of two labels or more that starts with the label of `other` is the
/// one that `other` has at that path. A path of one label is left out: it
/// names a file of the directory that is searched, not of `other`.
pub proof fn lemma_combine_disjoint_file(
    target: DirectoryView,
    other: DirectoryView,
    path: Seq<Seq<char>>,
)
    requires
        target.sub_directory(other.label) is None,
        path.len() >= 2,
        path.first() == other.label,
    ensures
        target.combine(other).find_file(seq![target.label] + path) == other.find_file(path),
{
    let longer = seq![target.label] + path;
    let labels = path.drop_last().skip(1);
    lemma_combine_disjoint(target, other, labels);
    lemma_combine_keeps(target, other);
    assert(longer.drop_last() =~= seq![target.label] + path.drop_last());
    assert(longer.drop_last().skip(1) =~= path.drop_last());
    assert(path.drop_last() =~= seq![other.label] + labels);
    assert(longer.last() == path.last());
}

/// The label under which an entry is listed, if it is listed.
pub open spec fn label_of(entry: ContentsView) -> Option<Seq<char>> {
    match entry {
        ContentsView::SubDirectory(directory) => Some(directory.label),
        ContentsView::File(file) => Some(file.filename),
        ContentsView::Repo => None,
    }
}

/// Whether one of the entries is listed under this label.
pub open spec fn has_label(entries: Seq<ContentsView>, label: Seq<char>) -> bool {
    exists|i: int| 0 <= i < entries.len() && label_of(#[trigger] entries[i]) == Some(label)
}

/// Whether no two of the entries are listed under the same label.
pub open spec fn distinct_labels(entries: Seq<ContentsView>) -> bool {
    forall|i: int, j: int|
        0 <= i < j < entries.len() && label_of(#[trigger] entries[i]) is Some ==> label_of(
            entries[i],
        ) != label_of(#[trigger] entries[j])
}

impl DirectoryView {
    /// No two entries of this directory are listed under the
    /// same label, be they files or sub-directories, and the same holds of
    /// every directory below it.
    pub open spec fn unique(self) -> bool
        decreases self,
    {
        &&& distinct_labels(self.entries)
        &&& forall|i: int|
            0 <= i < self.entries.len() ==> (#[trigger] self.entries[i]
                matches ContentsView::SubDirectory(directory) ==> directory.unique())
    }

    /// Whether this directory can take up the entries one after the other
    /// without a name being given twice: each file comes to a directory that
    /// lists nothing under its name, and each sub-directory can be combined.
    pub open spec fn takes(self, entries: Seq<ContentsView>) -> bool
        decreases entries,
    {
        entries.len() == 0 || {
            let merged = self.absorb(entries.drop_last());
            &&& self.takes(entries.drop_last())
            &&& match entries.last() {
                ContentsView::SubDirectory(directory) => merged.admits(directory),
                ContentsView::File(file) => !has_label(merged.entries, file.filename),
                ContentsView::Repo => true,
            }
        }
    }

    /// Whether `other` can be combined into this directory without a name
    /// being given twice: the sub-directory that takes up `other` can take
    /// its entries, or, where `other` becomes a new entry, nothing is listed
    /// under its label.
    pub open spec fn admits(self, other: DirectoryView) -> bool
        decreases other,
    {
        match sub_directory_from(self.entries, other.label, 0) {
            Some(i) => (self.entries[i]->SubDirectory_0).takes(other.entries),
            None => !has_label(self.entries, other.label),
        }
    }
}

/// Whether the sub-directories among the entries are unique.
pub open spec fn all_unique(entries: Seq<ContentsView>) -> bool {
    forall|i: int|
        0 <= i < entries.len() ==> (#[trigger] entries[i] matches ContentsView::SubDirectory(
            directory,
        ) ==> directory.unique())
}

/// A unique directory that takes up entries without a name being
/// given twice stays unique.
pub proof fn lemma_absorb_unique(target: DirectoryView, entries: Seq<ContentsView>)
    requires
        target.unique(),
        all_unique(entries),
        target.takes(entries),
    ensures
        target.absorb(entries).unique(),
    decreases entries,
{
    if entries.len() > 0 {
        let init = entries.drop_last();
        assert(all_unique(init)) by {
            assert forall|i: int| 0 <= i < init.len() implies (#[trigger] init[i]
                matches ContentsView::SubDirectory(directory) ==> directory.unique()) by {
                assert(init[i] == entries[i]);
            }
        }
        lemma_absorb_unique(target, init);
        let merged = target.absorb(init);
        assert(entries[entries.len() - 1] == entries.last());
        match entries.last() {
            ContentsView::SubDirectory(directory) => {
                lemma_combine_unique(merged, directory);
            },
            entry => {
                let after = merged.entries.push(entry);
                assert(distinct_labels(after)) by {
                    assert forall|i: int, j: int|
                        0 <= i < j < after.len() && label_of(#[trigger] after[i])
                            is Some implies label_of(after[i]) != label_of(
                        #[trigger] after[j],
                    ) by {
                        assert(after[i] == merged.entries[i]);
                        if j < merged.entries.len() {
                            assert(after[j] == merged.entries[j]);
                        }
                    }
                }
                assert forall|i: int| 0 <= i < after.len() implies (#[trigger] after[i]
                    matches ContentsView::SubDirectory(directory) ==> directory.unique()) by {
                    if i < merged.entries.len() {
                        assert(after[i] == merged.entries[i]);
                    }
                }
            },
        }
    }
}

/// Combining unique directories gives a unique directory, where
/// no name is given twice on the way. No two entries of a directory that can
/// be reached in it are then listed under the same label.
pub proof fn lemma_combine_unique(target: DirectoryView, other: DirectoryView)
    requires
        target.unique(),
        other.unique(),
        target.admits(other),
    ensures
        target.combine(other).unique(),
    decreases other,
{
    let after = target.combine(other).entries;
    lemma_sub_directory_from(target.entries, other.label, 0);
    match sub_directory_from(target.entries, other.label, 0) {
        Some(k) => {
            let sub = target.entries[k]->SubDirectory_0;
            assert(sub.unique());
            lemma_absorb_unique(sub, other.entries);
            lemma_absorb_keeps(sub, other.entries);
            assert forall|i: int| 0 <= i < after.len() implies label_of(#[trigger] after[i])
                == label_of(target.entries[i]) by {
                if i != k {
                    assert(after[i] == target.entries[i]);
                }
            }
            assert forall|i: int| 0 <= i < after.len() implies (#[trigger] after[i]
                matches ContentsView::SubDirectory(directory) ==> directory.unique()) by {
                if i != k {
                    assert(after[i] == target.entries[i]);
                }
            }
            assert(distinct_labels(after)) by {
                assert forall|i: int, j: int|
                    0 <= i < j < after.len() && label_of(#[trigger] after[i])
                        is Some implies label_of(after[i]) != label_of(#[trigger] after[j]) by {
                    assert(label_of(target.entries[i]) != label_of(target.entries[j]));
                }
            }
        },
        None => {
            assert forall|i: int| 0 <= i < after.len() implies (#[trigger] after[i]
                matches ContentsView::SubDirectory(directory) ==> directory.unique()) by {
                if i < target.entries.len() {
                    assert(after[i] == target.entries[i]);
                }
            }
            assert(distinct_labels(after)) by {
                assert forall|i: int, j: int|
                    0 <= i < j < after.len() && label_of(#[trigger] after[i])
                        is Some implies label_of(after[i]) != label_of(#[trigger] after[j]) by {
                    assert(after[i] == target.entries[i]);
                    if j < target.entries.len() {
                        assert(after[j] == target.entries[j]);
                    }
                }
            }
        },
    }
}

/// Where a name is given twice, uniqueness is lost: a directory that is
/// combined into one that lists a file under its label makes that label
/// occur twice.
pub proof fn lemma_combine_not_unique(target: DirectoryView, other: DirectoryView)
    requires
        target.sub_directory(other.label) is None,
        has_label(target.entries, other.label),
    ensures
        !target.combine(other).unique(),
{
    let after = target.combine(other).entries;
    let i = choose|i: int|
        0 <= i < target.entries.len() && label_of(#[trigger] target.entries[i]) == Some(
            other.label,
        );
    let j = target.entries.len() as int;
    assert(after[i] == target.entries[i]);
    assert(after[j] == ContentsView::SubDirectory(other));
    assert(label_of(after[i]) == label_of(after[j]));
}

/// Whether the file is one of the entries of the directory.
pub open spec fn has_file(directory: DirectoryView, file: FileView) -> bool {
    directory.entries.contains(ContentsView::File(file))
}

/// Whether every file of `before` is a file of `after`, and every file that
/// is found in `before` under a name is found in `after` under that name.
pub open spec fn keeps_files(before: DirectoryView, after: DirectoryView) -> bool {
    &&& forall|name: Seq<char>|
        (#[trigger] before.file_in_directory(name)) is Some ==> after.file_in_directory(name)
            == before.file_in_directory(name)
    &&& forall|file: FileView| #[trigger] has_file(before, file) ==> has_file(after, file)
}

/// Whether the directory at the end of the labels is found in `after` where
/// it is found in `before`, with every file of it.
pub open spec fn keeps_found(
    before: DirectoryView,
    after: DirectoryView,
    labels: Seq<Seq<char>>,
) -> bool {
    before.descend(labels) matches Some(directory) ==> after.descend(labels) is Some
        && keeps_files(directory, after.descend(labels)->Some_0)
}

/// One more entry at the end takes no file away, nor the place of one that
/// is found under its name.
pub proof fn lemma_push_keeps_files(directory: DirectoryView, entry: ContentsView)
    ensures
        keeps_files(
            directory,
            DirectoryView { label: directory.label, entries: directory.entries.push(entry) },
        ),
{
    let after = DirectoryView { label: directory.label, entries: directory.entries.push(entry) };
    assert forall|name: Seq<char>|
        (#[trigger] directory.file_in_directory(name)) is Some implies after.file_in_directory(
        name,
    ) == directory.file_in_directory(name) by {
        lemma_file_from(directory.entries, name, 0);
        lemma_file_from_push(directory.entries, entry, name, 0);
    }
    assert forall|file: FileView| #[trigger] has_file(directory, file) implies has_file(
        after,
        file,
    ) by {
        let i = choose|i: int|
            0 <= i < directory.entries.len() && directory.entries[i] == ContentsView::File(file);
        assert(after.entries[i] == ContentsView::File(file));
    }
}

/// Combining takes no file of the directory itself away, nor the place of
/// one that is found under its name.
pub proof fn lemma_combine_keeps_files(target: DirectoryView, other: DirectoryView)
    ensures
        keeps_files(target, target.combine(other)),
{
    let after = target.combine(other);
    lemma_sub_directory_from(target.entries, other.label, 0);
    assert forall|name: Seq<char>|
        (#[trigger] target.file_in_directory(name)) is Some implies after.file_in_directory(name)
        == target.file_in_directory(name) by {
        lemma_combine_file(target, other, name);
    }
    assert forall|file: FileView| #[trigger] has_file(target, file) implies has_file(
        after,
        file,
    ) by {
        let i = choose|i: int|
            0 <= i < target.entries.len() && target.entries[i] == ContentsView::File(file);
        assert(after.entries[i] == ContentsView::File(file));
    }
}

/// What is found in a directory is found after it has taken up entries.
pub proof fn lemma_absorb_keeps_found(
    target: DirectoryView,
    entries: Seq<ContentsView>,
    labels: Seq<Seq<char>>,
)
    ensures
        keeps_found(target, target.absorb(entries), labels),
    decreases entries,
{
    if entries.len() > 0 && target.descend(labels) is Some {
        let init = entries.drop_last();
        let merged = target.absorb(init);
        lemma_absorb_keeps_found(target, init, labels);
        let after = target.absorb(entries);
        assert(entries[entries.len() - 1] == entries.last());
        match entries.last() {
            ContentsView::SubDirectory(directory) => {
                lemma_combine_keeps_found(merged, directory, labels);
            },
            entry => {
                if labels.len() == 0 {
                    lemma_push_keeps_files(merged, entry);
                } else {
                    lemma_sub_directory_from(merged.entries, labels.first(), 0);
                    lemma_sub_directory_from_push(merged.entries, entry, labels.first(), 0);
                }
            },
        }
    }
}

/// What is found in a directory is found after another was combined into
/// it: every directory, at the labels that led to it, and every file in it,
/// under its name.
pub proof fn lemma_combine_keeps_found(
    target: DirectoryView,
    other: DirectoryView,
    labels: Seq<Seq<char>>,
)
    ensures
        keeps_found(target, target.combine(other), labels),
    decreases other,
{
    if target.descend(labels) is Some {
        if labels.len() == 0 {
            lemma_combine_keeps_files(target, other);
        } else {
            lemma_combine_sub_directory(target, other, labels.first());
            if labels.first() == other.label {
                let sub = target.sub_directory(labels.first())->Some_0;
                lemma_sub_directory_from(target.entries, other.label, 0);
                lemma_absorb_keeps_found(sub, other.entries, labels.skip(1));
            }
        }
    }
}

/// Entries with files added at their end have the first sub-directory with a
/// label where it was, and the first file with a name where it was, if there
/// was one.
pub proof fn lemma_files_added(
    entries: Seq<ContentsView>,
    files: Seq<FileView>,
    label: Seq<char>,
)
    ensures
        sub_directory_from(entries + file_entries(files), label, 0) == sub_directory_from(
            entries,
            label,
            0,
        ),
        file_from(entries, label, 0) is Some ==> file_from(
            entries + file_entries(files),
            label,
            0,
        ) == file_from(entries, label, 0),
    decreases files.len(),
{
    if files.len() == 0 {
        assert(entries + file_entries(files) =~= entries);
    } else {
        let init = entries + file_entries(files.drop_last());
        let last = ContentsView::File(files.last());
        assert(entries + file_entries(files) =~= init.push(last));
        lemma_files_added(entries, files.drop_last(), label);
        lemma_sub_directory_from_push(init, last, label, 0);
        lemma_file_from_push(init, last, label, 0);
    }
}

/// What is found in a directory is found after the files of a directory
/// path were added to it.
pub proof fn lemma_with_files_keeps_found(
    root: DirectoryView,
    path: Seq<Seq<char>>,
    files: Seq<FileView>,
    labels: Seq<Seq<char>>,
)
    ensures
        keeps_found(root, root.with_files(path, files), labels),
{
    let after = root.with_files(path, files);
    if root.descend(labels) is Some {
        if path == Path::root_view() {
            if labels.len() == 0 {
                assert forall|name: Seq<char>|
                    (#[trigger] root.file_in_directory(name))
                        is Some implies after.file_in_directory(name) == root.file_in_directory(
                    name,
                ) by {
                    lemma_files_added(root.entries, files, name);
                    lemma_file_from(root.entries, name, 0);
                }
                assert forall|file: FileView| #[trigger] has_file(root, file) implies has_file(
                    after,
                    file,
                ) by {
                    let i = choose|i: int|
                        0 <= i < root.entries.len() && root.entries[i] == ContentsView::File(file);
                    assert(after.entries[i] == ContentsView::File(file));
                }
            } else {
                lemma_files_added(root.entries, files, labels.first());
                lemma_sub_directory_from(root.entries, labels.first(), 0);
            }
        } else {
            lemma_combine_keeps_found(root, DirectoryView::nested(path, file_entries(files)), labels);
        }
    }
}

/// The innermost directory of the chain of a path is found in the chain at
/// the path without its first label.
pub proof fn lemma_nested_descend(path: Seq<Seq<char>>, entries: Seq<ContentsView>)
    requires
        path.len() > 0,
    ensures
        DirectoryView::nested(path, entries).label == path.first(),
        DirectoryView::nested(path, entries).descend(path.skip(1)) == Some(
            DirectoryView { label: path.last(), entries },
        ),
    decreases path.len(),
{
    if path.len() > 1 {
        let rest = path.skip(1);
        lemma_nested_descend(rest, entries);
        let inner = DirectoryView::nested(rest, entries);
        let chain = DirectoryView::nested(path, entries);
        assert(chain.entries[0] == ContentsView::SubDirectory(inner));
        assert(sub_directory_from(chain.entries, rest.first(), 0) == Some(0int));
        assert(rest.last() == path.last());
    }
}

/// Whether each of the files is a file of the directory, and a file is
/// found in the directory under the name of each.
pub open spec fn holds_all(directory: DirectoryView, files: Seq<FileView>) -> bool {
    forall|k: int|
        0 <= k < files.len() ==> directory.file_in_directory((#[trigger] files[k]).filename)
            is Some && has_file(directory, files[k])
}

/// A directory that has taken up entries has each file among them as a
/// file of its own.
pub proof fn lemma_absorb_has_file(target: DirectoryView, entries: Seq<ContentsView>, k: int)
    requires
        0 <= k < entries.len(),
        entries[k] is File,
    ensures
        has_file(target.absorb(entries), entries[k]->File_0),
    decreases entries.len(),
{
    let init = entries.drop_last();
    let merged = target.absorb(init);
    let after = target.absorb(entries);
    if k == entries.len() - 1 {
        assert(after.entries == merged.entries.push(entries[k]));
        assert(after.entries[merged.entries.len() as int] == entries[k]);
    } else {
        assert(init[k] == entries[k]);
        lemma_absorb_has_file(target, init, k);
        match entries.last() {
            ContentsView::SubDirectory(directory) => {
                lemma_combine_keeps_files(merged, directory);
            },
            entry => {
                lemma_push_keeps_files(merged, entry);
            },
        }
    }
}

/// After the chain of directories of a path, with files in its innermost,
/// was combined into a directory, the directory of the path is found in it
/// at the path; each of the files is a file of that directory, and a file is
/// found in it under the name of each.
pub proof fn lemma_combine_nested(
    target: DirectoryView,
    path: Seq<Seq<char>>,
    files: Seq<FileView>,
)
    requires
        path.len() > 0,
    ensures
        target.combine(DirectoryView::nested(path, file_entries(files))).descend(path) is Some,
        holds_all(
            target.combine(DirectoryView::nested(path, file_entries(files))).descend(path)->Some_0,
            files,
        ),
    decreases path.len(),
{
    let added = file_entries(files);
    let chain = DirectoryView::nested(path, added);
    let after = target.combine(chain);
    lemma_nested_descend(path, added);
    lemma_combine_sub_directory(target, chain, path.first());
    match target.sub_directory(path.first()) {
        Some(sub) => {
            if path.len() == 1 {
                let merged = sub.absorb(added);
                assert(path.skip(1) =~= Seq::<Seq<char>>::empty());
                assert(after.descend(path) == Some(merged));
                assert forall|k: int| 0 <= k < files.len() implies merged.file_in_directory(
                    (#[trigger] files[k]).filename,
                ) is Some && has_file(merged, files[k]) by {
                    lemma_absorb_file(sub, added, files[k].filename);
                    lemma_file_from(added, files[k].filename, 0);
                    assert(added[k].is_file_named(files[k].filename));
                    lemma_absorb_has_file(sub, added, k);
                }
            } else {
                let inner = DirectoryView::nested(path.skip(1), added);
                assert(chain.entries =~= seq![ContentsView::SubDirectory(inner)]);
                assert(chain.entries.drop_last() =~= Seq::<ContentsView>::empty());
                assert(sub.absorb(chain.entries.drop_last()) == sub);
                assert(sub.absorb(chain.entries) == sub.combine(inner));
                lemma_combine_nested(sub, path.skip(1), files);
            }
        },
        None => {
            let innermost = DirectoryView { label: path.last(), entries: added };
            assert(after.descend(path) == Some(innermost));
            assert forall|k: int| 0 <= k < files.len() implies innermost.file_in_directory(
                (#[trigger] files[k]).filename,
            ) is Some && has_file(innermost, files[k]) by {
                lemma_file_from(added, files[k].filename, 0);
                assert(added[k].is_file_named(files[k].filename));
                assert(added[k] == ContentsView::File(files[k]));
            }
        },
    }
}

/// In a directory built by adding the files of directory paths to a root,
/// the directory of each path is found at the path, whatever the order of
/// the paths; each of its files is a file of that directory, and a file is
/// found in it under the name of each. The files of the root path are in
/// the root itself. Where a name was given twice in one directory, the file
/// that came first is the one found: see `lemma_with_all_round_trip_exact`.
pub proof fn lemma_with_all_round_trip(
    root: DirectoryView,
    pairs: Seq<(Seq<Seq<char>>, Seq<FileView>)>,
    i: int,
)
    requires
        0 <= i < pairs.len(),
        pairs[i].0.len() > 0,
    ensures
        ({
            let built = root.with_all(pairs);
            let place = if pairs[i].0 == Path::root_view() {
                Seq::empty()
            } else {
                pairs[i].0
            };
            built.descend(place) is Some && holds_all(built.descend(place)->Some_0, pairs[i].1)
        }),
    decreases pairs.len(),
{
    let built = root.with_all(pairs);
    let init = pairs.drop_last();
    let before = root.with_all(init);
    let last = pairs.last();
    let path = pairs[i].0;
    let files = pairs[i].1;
    let place = if path == Path::root_view() {
        Seq::empty()
    } else {
        path
    };
    if i == pairs.len() - 1 {
        if path == Path::root_view() {
            let added = file_entries(files);
            assert forall|k: int| 0 <= k < files.len() implies built.file_in_directory(
                (#[trigger] files[k]).filename,
            ) is Some && has_file(built, files[k]) by {
                lemma_file_from(built.entries, files[k].filename, 0);
                assert(built.entries[before.entries.len() + k] == added[k]);
                assert(built.entries[before.entries.len() + k].is_file_named(files[k].filename));
            }
        } else {
            lemma_combine_nested(before, path, files);
        }
    } else {
        assert(init[i] == pairs[i]);
        lemma_with_all_round_trip(root, init, i);
        lemma_with_files_keeps_found(before, last.0, last.1, place);
        let found = before.descend(place)->Some_0;
        let after = built.descend(place)->Some_0;
        assert forall|k: int| 0 <= k < files.len() implies after.file_in_directory(
            (#[trigger] files[k]).filename,
        ) is Some && has_file(after, files[k]) by {
            assert(found.file_in_directory(files[k].filename) is Some);
            assert(has_file(found, files[k]));
        }
    }
}

/// In a directory whose entries are listed under different labels, a file
/// of the directory is the one found under its name.
pub proof fn lemma_unique_file(directory: DirectoryView, file: FileView)
    requires
        distinct_labels(directory.entries),
        has_file(directory, file),
    ensures
        directory.file_in_directory(file.filename) == Some(file),
{
    let i = choose|i: int|
        0 <= i < directory.entries.len() && directory.entries[i] == ContentsView::File(file);
    lemma_file_from(directory.entries, file.filename, 0);
    assert(directory.entries[i].is_file_named(file.filename));
    let first = file_from(directory.entries, file.filename, 0)->Some_0;
    if first < i {
        assert(label_of(directory.entries[first]) == label_of(directory.entries[i]));
    }
}

/// In a unique directory built by adding the files of directory paths to a
/// root, each file of each path is found with its contents: in the
/// directory of its path, under its name, the file found is that file.
pub proof fn lemma_with_all_round_trip_exact(
    root: DirectoryView,
    pairs: Seq<(Seq<Seq<char>>, Seq<FileView>)>,
    i: int,
    k: int,
)
    requires
        0 <= i < pairs.len(),
        pairs[i].0.len() > 0,
        0 <= k < pairs[i].1.len(),
        root.with_all(pairs).unique(),
    ensures
        ({
            let built = root.with_all(pairs);
            let place = if pairs[i].0 == Path::root_view() {
                Seq::empty()
            } else {
                pairs[i].0
            };
            built.descend(place) is Some && (built.descend(place)->Some_0).file_in_directory(
                pairs[i].1[k].filename,
            ) == Some(pairs[i].1[k])
        }),
{
    let built = root.with_all(pairs);
    let place = if pairs[i].0 == Path::root_view() {
        Seq::empty()
    } else {
        pairs[i].0
    };
    lemma_with_all_round_trip(root, pairs, i);
    lemma_descend_unique(built, place);
    let found = built.descend(place)->Some_0;
    assert(has_file(found, pairs[i].1[k]));
    lemma_unique_file(found, pairs[i].1[k]);
}

/// The directory that is found at labels below a directory is found at the
/// path that starts with the label of the directory, and a file that is
/// found in it is found at that path with the name of the file added.
pub proof fn lemma_found_by_path(root: DirectoryView, labels: Seq<Seq<char>>, name: Seq<char>)
    requires
        root.descend(labels) is Some,
    ensures
        root.find_directory(seq![root.label] + labels) == root.descend(labels),
        root.find_file((seq![root.label] + labels).push(name)) == (root.descend(
            labels,
        )->Some_0).file_in_directory(name),
{
    let path = seq![root.label] + labels;
    assert(path.skip(1) =~= labels);
    assert(path.push(name).drop_last() =~= path);
}

/// The chain of directories of a path is unique where no two of the
/// entries of its innermost are listed under the same label and the
/// sub-directories among them are unique.
pub proof fn lemma_nested_unique(path: Seq<Seq<char>>, entries: Seq<ContentsView>)
    requires
        distinct_labels(entries),
        all_unique(entries),
    ensures
        DirectoryView::nested(path, entries).unique(),
    decreases path.len(),
{
    if path.len() > 1 {
        lemma_nested_unique(path.skip(1), entries);
    }
}

/// A unique directory stays unique when the entries of a
/// directory path are added to it, where no name is given twice: among the
/// entries themselves, among the entries of the root together with them
/// for the root path, or on the way of combining for another path.
pub proof fn lemma_with_entries_unique(
    root: DirectoryView,
    path: Seq<Seq<char>>,
    entries: Seq<ContentsView>,
)
    requires
        root.unique(),
        distinct_labels(entries),
        all_unique(entries),
        path == Path::root_view() ==> distinct_labels(root.entries + entries),
        path != Path::root_view() ==> root.admits(DirectoryView::nested(path, entries)),
    ensures
        root.with_entries(path, entries).unique(),
{
    if path == Path::root_view() {
        let after = root.entries + entries;
        assert forall|i: int| 0 <= i < after.len() implies (#[trigger] after[i]
            matches ContentsView::SubDirectory(directory) ==> directory.unique()) by {
            if i < root.entries.len() {
                assert(after[i] == root.entries[i]);
            } else {
                assert(after[i] == entries[i - root.entries.len()]);
            }
        }
    } else {
        lemma_nested_unique(path, entries);
        lemma_combine_unique(root, DirectoryView::nested(path, entries));
    }
}

/// Every directory that is found below a unique directory is
/// unique.
pub proof fn lemma_descend_unique(root: DirectoryView, labels: Seq<Seq<char>>)
    requires
        root.unique(),
        root.descend(labels) is Some,
    ensures
        root.descend(labels)->Some_0.unique(),
    decreases labels.len(),
{
    if labels.len() > 0 {
        lemma_sub_directory_from(root.entries, labels.first(), 0);
        lemma_descend_unique(root.sub_directory(labels.first())->Some_0, labels.skip(1));
    }
}

} // verus!
