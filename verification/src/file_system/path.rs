//! Path segments (`Label`) and non-empty sequences of them (`Path`).

use nonempty::NonEmpty;
use std::collections::HashMap;
use vstd::prelude::*;
use vstd::std_specs::cmp::PartialEqSpecImpl;
use vstd::std_specs::convert::FromSpecImpl;

verus! {

/// A name of one path segment: of a file or of a directory.
///
/// Its view is the sequence of its characters; two labels are equal when
/// their views are.
#[derive(Debug, PartialOrd, Ord, Hash)]
pub struct Label(pub String);

impl View for Label {
    type V = Seq<char>;

    open spec fn view(&self) -> Seq<char> {
        self.0@
    }
}

impl Clone for Label {
    fn clone(&self) -> (res: Self)
        ensures
            res == *self,
    {
        Label(self.0.clone())
    }
}

impl PartialEq for Label {
    fn eq(&self, other: &Self) -> (res: bool) {
        self.0 == other.0
    }
}

impl PartialEqSpecImpl for Label {
    open spec fn obeys_eq_spec() -> bool {
        true
    }

    open spec fn eq_spec(&self, other: &Self) -> bool {
        self@ == other@
    }
}

impl Eq for Label {

}

impl From<String> for Label {
    fn from(item: String) -> (res: Self) {
        Label(item)
    }
}

impl FromSpecImpl<String> for Label {
    open spec fn obeys_from_spec() -> bool {
        true
    }

    open spec fn from_spec(item: String) -> Self {
        Label(item)
    }
}

impl From<&str> for Label {
    fn from(item: &str) -> (res: Self)
        ensures
            res@ == item@,
    {
        Label(item.to_owned())
    }
}

impl FromSpecImpl<&str> for Label {
    open spec fn obeys_from_spec() -> bool {
        false
    }

    open spec fn from_spec(item: &str) -> Self {
        arbitrary()
    }
}

impl Label {
    /// The characters of the root label, `"~"`.
    pub open spec fn root_view() -> Seq<char> {
        seq!['~']
    }

    /// The root label for the root directory, i.e. `"~"`.
    pub fn root() -> (res: Self)
        ensures
            res@ == Self::root_view(),
    {
        proof {
            reveal_strlit("~");
        }
        let res = Label("~".to_owned());
        assert(res@ =~= Self::root_view());
        res
    }
}

/// The views of a sequence of labels, in order.
pub open spec fn label_views(labels: Seq<Label>) -> Seq<Seq<char>> {
    Seq::new(labels.len(), |i: int| labels[i]@)
}

/// A non-empty vector of the `nonempty` crate.
#[verifier::external_type_specification]
#[verifier::external_body]
#[verifier::reject_recursive_types(T)]
pub struct ExNonEmpty<T>(NonEmpty<T>);

/// The labels that a non-empty vector of labels holds, first to last, each by
/// its view.
pub uninterp spec fn labels_of(labels: NonEmpty<Label>) -> Seq<Seq<char>>;

/// `NonEmpty::new`: the vector that holds the one label given.
#[verifier::external_body]
pub(crate) fn nonempty_new(head: Label) -> (res: NonEmpty<Label>)
    ensures
        labels_of(res) == seq![head@],
{
    NonEmpty::new(head)
}

/// `NonEmpty::push`: the label is added at the end, the others stay.
#[verifier::external_body]
fn nonempty_push(labels: &mut NonEmpty<Label>, label: Label)
    ensures
        labels_of(*final(labels)) == labels_of(*old(labels)).push(label@),
{
    labels.push(label)
}

/// `NonEmpty::append`: the labels of `other` are moved to the end, in order,
/// and `other` is left empty.
#[verifier::external_body]
fn nonempty_append(labels: &mut NonEmpty<Label>, other: &mut Vec<Label>)
    ensures
        labels_of(*final(labels)) == labels_of(*old(labels)) + label_views(old(other)@),
        final(other)@.len() == 0,
{
    labels.append(other)
}

/// `NonEmpty::split_first`: the first label and the slice of those after it.
#[verifier::external_body]
fn nonempty_split_first(labels: &NonEmpty<Label>) -> (res: (&Label, &[Label]))
    ensures
        labels_of(*labels) == seq![res.0@] + label_views(res.1@),
{
    labels.split_first()
}

/// `NonEmpty::split`: the first label, the slice of those between the first
/// and the last, and the last label; the last is `None` where the vector holds
/// one label only.
#[verifier::external_body]
fn nonempty_split(labels: &NonEmpty<Label>) -> (res: (&Label, &[Label], Option<&Label>))
    ensures
        match res.2 {
            None => res.1@.len() == 0 && labels_of(*labels) == seq![res.0@],
            Some(last) => labels_of(*labels) == (seq![res.0@] + label_views(res.1@)).push(
                last@,
            ),
        },
{
    labels.split()
}

/// `NonEmpty::from_slice`: `None` for the empty slice, else a vector of
/// clones of the slice's labels, in order.
#[verifier::external_body]
pub(crate) fn nonempty_from_slice(slice: &[Label]) -> (res: Option<NonEmpty<Label>>)
    ensures
        match res {
            None => slice@.len() == 0,
            Some(labels) => slice@.len() > 0 && labels_of(labels) == label_views(slice@),
        },
{
    NonEmpty::from_slice(slice)
}

/// `Clone::clone` of `NonEmpty`: a vector of clones of the labels, in order.
#[verifier::external_body]
fn nonempty_clone(labels: &NonEmpty<Label>) -> (res: NonEmpty<Label>)
    ensures
        labels_of(res) == labels_of(*labels),
{
    labels.clone()
}

/// `PartialEq::eq` of `NonEmpty`: whether both hold equal labels in the same
/// order.
#[verifier::external_body]
fn nonempty_eq(left: &NonEmpty<Label>, right: &NonEmpty<Label>) -> (res: bool)
    ensures
        res == (labels_of(*left) == labels_of(*right)),
{
    left == right
}

/// `From<NonEmpty<T>>` for `Vec<T>`: the labels as a vector, in order; it
/// has at least one.
#[verifier::external_body]
fn nonempty_into_vec(labels: NonEmpty<Label>) -> (res: Vec<Label>)
    ensures
        label_views(res@) == labels_of(labels),
        res@.len() >= 1,
{
    Vec::from(labels)
}

/// The path separator.
pub open spec fn separator() -> char {
    '/'
}

/// `s` without the separators at its start and at its end.
pub open spec fn trim_separators(s: Seq<char>) -> Seq<char>
    decreases s.len(),
{
    if s.len() > 0 && s.first() == separator() {
        trim_separators(s.skip(1))
    } else if s.len() > 0 && s.last() == separator() {
        trim_separators(s.drop_last())
    } else {
        s
    }
}

/// The pieces of `s` between its separators, in order: one more than `s` has
/// separators, some of them empty where two separators meet or one stands at
/// an end.
pub open spec fn split_at_separators(s: Seq<char>) -> Seq<Seq<char>>
    decreases s.len(),
{
    if s.len() == 0 {
        seq![Seq::<char>::empty()]
    } else {
        let before = split_at_separators(s.drop_last());
        if s.last() == separator() {
            before.push(Seq::<char>::empty())
        } else {
            before.update(before.len() - 1, before.last().push(s.last()))
        }
    }
}

/// `str::trim_matches` with the separator as its pattern: the slice that is
/// left when every separator at the start and at the end is taken away.
#[verifier::external_body]
fn trim_matches_separator(s: &str) -> (res: &str)
    ensures
        res@ == trim_separators(s@),
{
    s.trim_matches('/')
}

/// `str::split` with the separator as its pattern: the substrings between
/// the separators, in order, each made a label.
#[verifier::external_body]
fn split_separator(s: &str) -> (res: Vec<Label>)
    ensures
        label_views(res@) == split_at_separators(s@),
{
    s.split('/').map(|l| Label::from(l)).collect()
}

/// Whether the pairs are those of a map keyed by paths, each once and in any
/// order: there are as many as the map has keys, each is a key of the map
/// with its value, no two have the same path, and every key has its pair.
pub open spec fn pairs_of_map<V>(pairs: Seq<(Path, V)>, map: Map<Path, V>) -> bool {
    &&& pairs.len() == map.dom().len()
    &&& forall|i: int|
        0 <= i < pairs.len() ==> map.contains_key((#[trigger] pairs[i]).0) && map[pairs[i].0]
            == pairs[i].1
    &&& forall|i: int, j: int|
        0 <= i < j < pairs.len() ==> (#[trigger] pairs[i]).0@ != (#[trigger] pairs[j]).0@
    &&& forall|key: Path| #[trigger]
        map.contains_key(key) ==> exists|i: int|
            0 <= i < pairs.len() && (#[trigger] pairs[i]).0 == key
}

/// `HashMap::into_iter`: the pairs of the map, each once, in the order in
/// which the map hands them out, which is not stated.
#[verifier::external_body]
pub(crate) fn hash_map_into_pairs<V>(map: HashMap<Path, V>) -> (res: Vec<(Path, V)>)
    ensures
        pairs_of_map(res@, map@),
{
    map.into_iter().collect()
}

/// A non-empty sequence of labels, from the outermost to the innermost.
///
/// Its view is the sequence of the views of its labels; it is never empty.
#[derive(Debug, Hash)]
pub struct Path(pub NonEmpty<Label>);

impl View for Path {
    type V = Seq<Seq<char>>;

    open spec fn view(&self) -> Seq<Seq<char>> {
        labels_of(self.0)
    }
}

impl Clone for Path {
    fn clone(&self) -> (res: Self)
        ensures
            res@ == self@,
    {
        Path(nonempty_clone(&self.0))
    }
}

impl PartialEq for Path {
    fn eq(&self, other: &Self) -> (res: bool) {
        nonempty_eq(&self.0, &other.0)
    }
}

impl PartialEqSpecImpl for Path {
    open spec fn obeys_eq_spec() -> bool {
        true
    }

    open spec fn eq_spec(&self, other: &Self) -> bool {
        self@ == other@
    }
}

impl Eq for Path {

}

impl Path {
    /// The view of the root path: the root label alone.
    pub open spec fn root_view() -> Seq<Seq<char>> {
        seq![Label::root_view()]
    }

    /// The root path is the singleton containing the root label.
    pub fn root() -> (res: Self)
        ensures
            res@ == Self::root_view(),
    {
        Path(nonempty_new(Label::root()))
    }

    /// Check that this is the root path.
    pub fn is_root(&self) -> (res: bool)
        ensures
            res == (self@ == Self::root_view()),
    {
        let root = Self::root();
        nonempty_eq(&self.0, &root.0)
    }

    /// Append the labels of `path` to this path. `path` keeps its labels.
    pub fn append(&mut self, path: &mut Self)
        ensures
            final(self)@ == old(self)@ + old(path)@,
            final(path)@ == old(path)@,
    {
        let mut other = nonempty_into_vec(nonempty_clone(&path.0));
        nonempty_append(&mut self.0, &mut other)
    }

    /// Push a new `Label` onto the end of the `Path`.
    pub fn push(&mut self, label: Label)
        ensures
            final(self)@ == old(self)@.push(label@),
    {
        nonempty_push(&mut self.0, label)
    }

    /// The labels of the path, first to last.
    pub fn iter(&self) -> (res: Vec<Label>)
        ensures
            label_views(res@) == self@,
            res@.len() >= 1,
    {
        nonempty_into_vec(nonempty_clone(&self.0))
    }

    /// Get the first `Label` and the rest of the `Label`s.
    pub fn split_first(&self) -> (res: (&Label, &[Label]))
        ensures
            res.0@ == self@.first(),
            label_views(res.1@) == self@.skip(1),
            self@ == seq![res.0@] + label_views(res.1@),
    {
        let res = nonempty_split_first(&self.0);
        assert(self@.skip(1) =~= label_views(res.1@));
        res
    }

    /// Get the prefix of the `Label`s and the last `Label`.
    ///
    /// The prefix holds every label but the last, so it is empty exactly for
    /// a path of one label; a label that occurs again later in the path is
    /// kept in the prefix.
    pub fn split_last(&self) -> (res: (Vec<Label>, Label))
        ensures
            label_views(res.0@) == self@.drop_last(),
            res.1@ == self@.last(),
            self@ == label_views(res.0@).push(res.1@),
    {
        let (first, middle, last) = nonempty_split(&self.0);
        match last {
            None => {
                let prefix: Vec<Label> = Vec::new();
                assert(label_views(prefix@) =~= self@.drop_last());
                assert(self@ =~= label_views(prefix@).push(first@));
                (prefix, first.clone())
            },
            Some(last) => {
                let mut prefix: Vec<Label> = Vec::new();
                prefix.push(first.clone());
                let mut i: usize = 0;
                while i < middle.len()
                    invariant
                        i <= middle@.len(),
                        prefix@.len() == i + 1,
                        label_views(prefix@) == seq![first@] + label_views(
                            middle@.subrange(0, i as int),
                        ),
                    decreases middle@.len() - i,
                {
                    let ghost before = prefix@;
                    prefix.push(middle[i].clone());
                    assert(label_views(prefix@) =~= label_views(before).push(middle@[i as int]@));
                    assert(label_views(middle@.subrange(0, i + 1)) =~= label_views(
                        middle@.subrange(0, i as int),
                    ).push(middle@[i as int]@));
                    i += 1;
                }
                assert(middle@.subrange(0, i as int) =~= middle@);
                assert(label_views(prefix@) =~= self@.drop_last());
                (prefix, last.clone())
            },
        }
    }

    /// Constructor given at least one `Label` to work from followed
    /// by 0 or more `Label`s to add to the `Path`.
    pub fn from_labels(root: Label, labels: &[Label]) -> (res: Path)
        ensures
            res@ == seq![root@] + label_views(labels@),
    {
        let mut path = Path(nonempty_new(root));
        let mut i: usize = 0;
        while i < labels.len()
            invariant
                i <= labels@.len(),
                path@ == seq![root@] + label_views(labels@.subrange(0, i as int)),
            decreases labels@.len() - i,
        {
            path.push(labels[i].clone());
            assert(path@ =~= seq![root@] + label_views(labels@.subrange(0, i + 1)));
            i += 1;
        }
        assert(labels@.subrange(0, i as int) =~= labels@);
        path
    }

    /// The view of the path that `from_string` makes of a string: the root
    /// path for the empty string, else the pieces between the separators of
    /// the string without the separators at its ends.
    pub open spec fn from_string_view(path: Seq<char>) -> Seq<Seq<char>> {
        if path.len() == 0 {
            Self::root_view()
        } else {
            split_at_separators(trim_separators(path))
        }
    }

    /// Convert a string to a `Path`, taking `/` as the separator.
    ///
    /// Separators at the start and at the end are ignored, and the empty
    /// string gives the root path. The segments are not checked: where two
    /// separators meet, the path has an empty label.
    pub fn from_string(path: &str) -> (res: Self)
        ensures
            res@ == Self::from_string_view(path@),
    {
        if path.is_empty() {
            Path::root()
        } else {
            let labels = split_separator(trim_matches_separator(path));
            match nonempty_from_slice(labels.as_slice()) {
                Some(labels) => Path(labels),
                None => {
                    proof {
                        lemma_split_is_not_empty(trim_separators(path@));
                    }
                    assert(label_views(labels@).len() == labels@.len());
                    Path::root()
                },
            }
        }
    }
}

/// Splitting gives at least one piece.
pub proof fn lemma_split_is_not_empty(s: Seq<char>)
    ensures
        split_at_separators(s).len() >= 1,
    decreases s.len(),
{
    if s.len() > 0 {
        lemma_split_is_not_empty(s.drop_last());
    }
}

} // verus!
