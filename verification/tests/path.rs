use radicle_surf::file_system::{Label, Path};

fn labels(names: &[&str]) -> Vec<Label> {
    names.iter().map(|name| Label::from(*name)).collect()
}

#[test]
fn root_label_is_a_tilde() {
    assert_eq!(Label::root(), Label("~".to_string()));
    assert_eq!(Label::from("~"), Label::from("~".to_string()));
}

#[test]
fn root_path_is_the_root_label_alone() {
    assert_eq!(Path::root().iter(), vec![Label::root()]);
    assert!(Path::root().is_root());
    assert!(!Path::from_string("foo").is_root());
    assert!(!Path::from_labels(Label::root(), &labels(&["foo"])).is_root());
    assert!(!Path::from_labels(Label::root(), &labels(&["~"])).is_root());
}

#[test]
fn append_joins_two_paths() {
    let mut path1 = Path::from_labels("foo".into(), &["bar".into()]);
    let mut path2 = Path::from_labels("baz".into(), &["quux".into()]);
    path1.append(&mut path2);
    assert_eq!(
        path1,
        Path::from_labels("foo".into(), &["bar".into(), "baz".into(), "quux".into()])
    );
    assert_eq!(path2, Path::from_labels("baz".into(), &["quux".into()]));
}

#[test]
fn push_adds_a_label_at_the_end() {
    let path = Path::from_labels(
        Label::root(),
        &["foo".into(), "bar".into(), "baz.rs".into()],
    );

    let mut expected = Path::root();
    expected.push("foo".into());
    expected.push("bar".into());
    expected.push("baz.rs".into());

    assert_eq!(path, expected);
    let path_vec: Vec<Label> = path.0.into();
    assert_eq!(path_vec, labels(&["~", "foo", "bar", "baz.rs"]));
}

#[test]
fn split_first_gives_head_and_rest() {
    let path = Path::from_string("foo/bar/baz");
    let (first, rest) = path.split_first();
    assert_eq!(first, &Label::from("foo"));
    assert_eq!(rest, &labels(&["bar", "baz"])[..]);

    let single = Path::from_string("foo");
    let (first, rest) = single.split_first();
    assert_eq!(first, &Label::from("foo"));
    assert!(rest.is_empty());
}

#[test]
fn split_last_of_one_label() {
    let path = Path::from_labels("foo".into(), &[]);
    assert_eq!(path.split_last(), (vec![], "foo".into()));
    let path = Path::from_labels("x".into(), &[]);
    assert_eq!(path.split_last(), (vec![], "x".into()));
}

#[test]
fn split_last_of_several_labels() {
    let path = Path::from_labels("foo".into(), &["bar".into()]);
    assert_eq!(path.split_last(), (vec!["foo".into()], "bar".into()));

    let path = Path::from_labels("foo".into(), &["bar".into(), "baz".into()]);
    assert_eq!(
        path.split_last(),
        (vec!["foo".into(), "bar".into()], "baz".into())
    );
}

#[test]
fn split_last_keeps_a_repeated_label() {
    let path = Path::from_labels("foo".into(), &["bar".into(), "foo".into()]);
    assert_eq!(
        path.split_last(),
        (vec!["foo".into(), "bar".into()], "foo".into())
    );

    let path = Path::from_labels("x".into(), &["y".into(), "x".into()]);
    assert_eq!(path.split_last(), (labels(&["x", "y"]), "x".into()));

    let path = Path::from_labels("x".into(), &["x".into()]);
    assert_eq!(path.split_last(), (labels(&["x"]), "x".into()));
}

#[test]
fn from_string_splits_on_the_separator() {
    assert_eq!(
        Path::from_string("foo/bar/baz.rs"),
        Path::from_labels("foo".into(), &["bar".into(), "baz.rs".into()])
    );
    assert_eq!(
        Path::from_string("foo/bar/baz/"),
        Path::from_labels("foo".into(), &["bar".into(), "baz".into()])
    );
    assert_eq!(
        Path::from_string("//foo/bar//"),
        Path::from_labels("foo".into(), &["bar".into()])
    );
}

#[test]
fn from_string_of_the_empty_string_is_the_root() {
    assert_eq!(Path::from_string(""), Path::root());
    assert!(Path::from_string("").is_root());
}

#[test]
fn from_string_does_not_check_segments() {
    assert_eq!(
        Path::from_string("foo//bar"),
        Path::from_labels("foo".into(), &["".into(), "bar".into()])
    );
    assert_eq!(Path::from_string("/"), Path::from_labels("".into(), &[]));
}

#[test]
fn iter_gives_the_labels_in_order() {
    assert_eq!(Path::from_string("a/b/c").iter(), labels(&["a", "b", "c"]));
}
