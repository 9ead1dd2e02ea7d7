//! What holds of a forest that was built by a sequence of insertions.

use crate::tree::{
    displaced, find, find_branch, find_node, insert, lemma_displaced_nothing,
    lemma_insert_keeps_others, lemma_insert_makes_branches, lemma_insert_then_find,
    lemma_insert_total_size, lemma_nothing_below_file, total_size, SubTreeView,
};
use vstd::prelude::*;

verus! {

/// The forest with each file of a sequence inserted at its path, one after
/// the other.
pub open spec fn insert_all(
    forest: Seq<SubTreeView>,
    items: Seq<(Seq<Seq<char>>, Seq<u8>)>,
) -> Seq<SubTreeView>
    decreases items.len(),
{
    if items.len() == 0 {
        forest
    } else {
        insert(insert_all(forest, items.drop_last()), items.last().0, items.last().1)
    }
}

/// The paths are not empty, and none of them begins with another: so no two
/// are equal, and none leads through the place of another.
pub open spec fn independent(items: Seq<(Seq<Seq<char>>, Seq<u8>)>) -> bool {
    &&& forall|i: int| 0 <= i < items.len() ==> (#[trigger] items[i]).0.len() > 0
    &&& forall|i: int, j: int|
        0 <= i < items.len() && 0 <= j < items.len() && i != j ==> !(#[trigger] items[i]).0.is_prefix_of(
            (#[trigger] items[j]).0,
        )
}

/// The number of bytes of all files of a sequence.
pub open spec fn total_bytes(items: Seq<(Seq<Seq<char>>, Seq<u8>)>) -> nat
    decreases items.len(),
{
    if items.len() == 0 {
        0
    } else {
        total_bytes(items.drop_last()) + items.last().1.len()
    }
}

/// Inserting two sequences one after the other is inserting their
/// concatenation.
pub proof fn lemma_insert_all_concat(
    forest: Seq<SubTreeView>,
    first: Seq<(Seq<Seq<char>>, Seq<u8>)>,
    second: Seq<(Seq<Seq<char>>, Seq<u8>)>,
)
    ensures
        insert_all(forest, first + second) == insert_all(insert_all(forest, first), second),
    decreases second.len(),
{
    if second.len() == 0 {
        assert(first + second =~= first);
    } else {
        assert((first + second).drop_last() =~= first + second.drop_last());
        lemma_insert_all_concat(forest, first, second.drop_last());
    }
}

/// A beginning of a path, cut from it, begins whatever the path begins.
proof fn lemma_prefix_of_take(short: Seq<Seq<char>>, long: Seq<Seq<char>>, n: int)
    requires
        0 <= n <= long.len(),
        short.is_prefix_of(long.take(n)),
    ensures
        short.is_prefix_of(long),
{
    assert(short =~= long.subrange(0, short.len() as int)) by {
        assert forall|j: int| 0 <= j < short.len() implies short[j] == long[j] by {
            assert(short[j] == long.take(n).subrange(0, short.len() as int)[j]);
        }
    }
}

/// In a forest built by insertions at independent paths, each
/// file is found at its path, with its bytes, and a branch is found at every
/// path that its path goes through. This holds whatever the forest held
/// before and in whatever order the insertions were made.
pub proof fn lemma_inserted_are_found(
    forest: Seq<SubTreeView>,
    items: Seq<(Seq<Seq<char>>, Seq<u8>)>,
    i: int,
)
    requires
        independent(items),
        0 <= i < items.len(),
    ensures
        find_node(insert_all(forest, items), items[i].0) == Some(items[i].1),
        forall|n: int|
            0 < n < items[i].0.len() ==> find_branch(
                insert_all(forest, items),
                #[trigger] items[i].0.take(n),
            ) is Some,
    decreases items.len(),
{
    let before = insert_all(forest, items.drop_last());
    let last = items.last();
    let path = items[i].0;
    if i == items.len() - 1 {
        lemma_insert_then_find(before, last.0, last.1);
        assert forall|n: int| 0 < n < path.len() implies find_branch(
            insert_all(forest, items),
            #[trigger] path.take(n),
        ) is Some by {
            lemma_insert_makes_branches(before, last.0, last.1, n);
        }
    } else {
        let init = items.drop_last();
        assert(independent(init)) by {
            assert forall|a: int, b: int|
                0 <= a < init.len() && 0 <= b < init.len() && a != b implies !(
                #[trigger] init[a]).0.is_prefix_of((#[trigger] init[b]).0) by {
                assert(init[a] == items[a] && init[b] == items[b]);
            }
            assert forall|a: int| 0 <= a < init.len() implies (#[trigger] init[a]).0.len() > 0 by {
                assert(init[a] == items[a]);
            }
        }
        assert(init[i] == items[i]);
        lemma_inserted_are_found(forest, init, i);
        assert(!last.0.is_prefix_of(path));
        assert(!path.is_prefix_of(last.0));
        lemma_insert_keeps_others(before, last.0, last.1, path);
        assert forall|n: int| 0 < n < path.len() implies find_branch(
            insert_all(forest, items),
            #[trigger] path.take(n),
        ) is Some by {
            let part = path.take(n);
            assert(find_branch(before, part) is Some);
            if last.0.is_prefix_of(part) {
                lemma_prefix_of_take(last.0, path, n);
            } else if part.is_prefix_of(last.0) {
                assert(part.len() < last.0.len()) by {
                    if part.len() == last.0.len() {
                        assert(last.0 =~= part.subrange(0, last.0.len() as int));
                        lemma_prefix_of_take(last.0, path, n);
                    }
                }
                assert(last.0.take(n) =~= part);
                lemma_insert_makes_branches(before, last.0, last.1, n);
            } else {
                lemma_insert_keeps_others(before, last.0, last.1, part);
            }
        }
    }
}

/// No file is found at a path that begins with none of the paths at which
/// files were inserted into the empty forest.
pub proof fn lemma_no_file_elsewhere(items: Seq<(Seq<Seq<char>>, Seq<u8>)>, path: Seq<Seq<char>>)
    requires
        forall|i: int| 0 <= i < items.len() ==> (#[trigger] items[i]).0.len() > 0,
        forall|i: int| 0 <= i < items.len() ==> !(#[trigger] items[i]).0.is_prefix_of(path),
    ensures
        find_node(insert_all(Seq::empty(), items), path) is None,
    decreases items.len(),
{
    if items.len() > 0 {
        let init = items.drop_last();
        let last = items.last();
        let before = insert_all(Seq::empty(), init);
        assert forall|i: int| 0 <= i < init.len() implies (#[trigger] init[i]).0.len() > 0
            && !init[i].0.is_prefix_of(path) by {
            assert(init[i] == items[i]);
        }
        lemma_no_file_elsewhere(init, path);
        if path.is_prefix_of(last.0) {
            if path.len() > 0 {
                assert(path.len() < last.0.len()) by {
                    if path.len() == last.0.len() {
                        assert(last.0 =~= path.subrange(0, last.0.len() as int));
                    }
                }
                assert(last.0.take(path.len() as int) =~= path);
                lemma_insert_makes_branches(before, last.0, last.1, path.len() as int);
            }
        } else {
            lemma_insert_keeps_others(before, last.0, last.1, path);
        }
    }
}

/// Nothing is found at a path that begins with none of the paths at which
/// files were inserted into the empty forest, and with which none of them
/// begins.
pub proof fn lemma_nothing_elsewhere(items: Seq<(Seq<Seq<char>>, Seq<u8>)>, path: Seq<Seq<char>>)
    requires
        forall|i: int| 0 <= i < items.len() ==> (#[trigger] items[i]).0.len() > 0,
        forall|i: int|
            0 <= i < items.len() ==> !(#[trigger] items[i]).0.is_prefix_of(path)
                && !path.is_prefix_of(items[i].0),
    ensures
        find(insert_all(Seq::empty(), items), path) is None,
    decreases items.len(),
{
    if items.len() > 0 {
        let init = items.drop_last();
        let last = items.last();
        let before = insert_all(Seq::empty(), init);
        assert forall|i: int| 0 <= i < init.len() implies (#[trigger] init[i]).0.len() > 0
            && !init[i].0.is_prefix_of(path) && !path.is_prefix_of(init[i].0) by {
            assert(init[i] == items[i]);
        }
        lemma_nothing_elsewhere(init, path);
        lemma_insert_keeps_others(before, last.0, last.1, path);
    }
}

/// A forest built from the empty forest by insertions at independent
/// paths holds the bytes of all the files, however deep their paths go and
/// in whatever order they were inserted.
pub proof fn lemma_built_total_size(items: Seq<(Seq<Seq<char>>, Seq<u8>)>)
    requires
        independent(items),
    ensures
        total_size(insert_all(Seq::empty(), items)) == total_bytes(items),
    decreases items.len(),
{
    if items.len() > 0 {
        let init = items.drop_last();
        let last = items.last();
        let before = insert_all(Seq::empty(), init);
        assert(independent(init)) by {
            assert forall|a: int, b: int|
                0 <= a < init.len() && 0 <= b < init.len() && a != b implies !(
                #[trigger] init[a]).0.is_prefix_of((#[trigger] init[b]).0) by {
                assert(init[a] == items[a] && init[b] == items[b]);
            }
            assert forall|a: int| 0 <= a < init.len() implies (#[trigger] init[a]).0.len() > 0 by {
                assert(init[a] == items[a]);
            }
        }
        lemma_built_total_size(init);
        assert forall|k: int| 0 <= k < init.len() implies (#[trigger] init[k]).0.len() > 0
            && !init[k].0.is_prefix_of(last.0) && !last.0.is_prefix_of(init[k].0) by {
            assert(init[k] == items[k]);
            assert(items[items.len() - 1] == last);
        }
        lemma_nothing_elsewhere(init, last.0);
        assert forall|n: int| 0 < n < last.0.len() implies find_node(
            before,
            #[trigger] last.0.take(n),
        ) is None by {
            assert forall|k: int| 0 <= k < init.len() implies !(#[trigger] init[k]).0.is_prefix_of(
                last.0.take(n),
            ) by {
                if init[k].0.is_prefix_of(last.0.take(n)) {
                    lemma_prefix_of_take(init[k].0, last.0, n);
                }
            }
            lemma_no_file_elsewhere(init, last.0.take(n));
        }
        lemma_displaced_nothing(before, last.0);
        lemma_insert_total_size(before, last.0, last.1);
    }
}

/// Whether each item of `left` is an item of `right`.
pub open spec fn all_among(
    left: Seq<(Seq<Seq<char>>, Seq<u8>)>,
    right: Seq<(Seq<Seq<char>>, Seq<u8>)>,
) -> bool {
    forall|i: int| 0 <= i < left.len() ==> right.contains(#[trigger] left[i])
}

/// The file that is found at a path in a forest built from the empty forest
/// at independent paths: that of the item with this path, none where no item
/// has it.
pub proof fn lemma_built_find_node(items: Seq<(Seq<Seq<char>>, Seq<u8>)>, path: Seq<Seq<char>>)
    requires
        independent(items),
    ensures
        match find_node(insert_all(Seq::empty(), items), path) {
            Some(value) => items.contains((path, value)),
            None => forall|i: int| 0 <= i < items.len() ==> (#[trigger] items[i]).0 != path,
        },
{
    let built = insert_all(Seq::empty(), items);
    if exists|i: int| 0 <= i < items.len() && (#[trigger] items[i]).0.is_prefix_of(path) {
        let i = choose|i: int| 0 <= i < items.len() && (#[trigger] items[i]).0.is_prefix_of(path);
        lemma_inserted_are_found(Seq::empty(), items, i);
        if items[i].0.len() < path.len() {
            lemma_nothing_below_file(built, items[i].0, path);
            assert forall|k: int| 0 <= k < items.len() implies (#[trigger] items[k]).0 != path by {
                if items[k].0 == path {
                    assert(k != i);
                    assert(items[i].0.is_prefix_of(items[k].0));
                }
            }
        } else {
            assert(items[i].0 =~= path);
            assert(items[i] == (path, items[i].1));
        }
    } else {
        lemma_no_file_elsewhere(items, path);
        assert forall|i: int| 0 <= i < items.len() implies (#[trigger] items[i]).0 != path by {
            if items[i].0 == path {
                assert(path =~= path.subrange(0, path.len() as int));
            }
        }
    }
}

/// The order of the insertions does not matter: two forests built from the
/// empty forest from the same files at the same independent paths, in
/// whatever order, hold the same file at every path.
pub proof fn lemma_order_does_not_matter(
    left: Seq<(Seq<Seq<char>>, Seq<u8>)>,
    right: Seq<(Seq<Seq<char>>, Seq<u8>)>,
    path: Seq<Seq<char>>,
)
    requires
        independent(left),
        independent(right),
        all_among(left, right),
        all_among(right, left),
    ensures
        find_node(insert_all(Seq::empty(), left), path) == find_node(
            insert_all(Seq::empty(), right),
            path,
        ),
{
    lemma_built_find_node(left, path);
    lemma_built_find_node(right, path);
    let in_left = find_node(insert_all(Seq::empty(), left), path);
    let in_right = find_node(insert_all(Seq::empty(), right), path);
    if in_left is Some {
        let i = choose|i: int| 0 <= i < left.len() && left[i] == (path, in_left->Some_0);
        assert(right.contains(left[i]));
        let j = choose|j: int| 0 <= j < right.len() && right[j] == left[i];
        lemma_inserted_are_found(Seq::empty(), right, j);
    } else if in_right is Some {
        let j = choose|j: int| 0 <= j < right.len() && right[j] == (path, in_right->Some_0);
        assert(left.contains(right[j]));
        let i = choose|i: int| 0 <= i < left.len() && left[i] == right[j];
        lemma_inserted_are_found(Seq::empty(), left, i);
    }
}

} // verus!
