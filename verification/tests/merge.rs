use nonempty::NonEmpty;
use radicle_surf::file_system::{
    Directory, DirectoryContents, DirectoryView, File, Label, Path, RepoBackend, SystemType,
};
use std::collections::HashMap;

struct Git {}

impl RepoBackend for Git {
    // Stands for `repo_directory` in contracts; nothing calls it.
    fn repo_view() -> DirectoryView {
        unreachable!()
    }

    fn repo_directory() -> Directory {
        Directory {
            label: ".git".into(),
            entries: vec![DirectoryContents::Repo],
        }
    }
}

fn file(name: &str, contents: &[u8]) -> File {
    File { filename: name.into(), contents: contents.to_vec() }
}

fn directory(label: &str, entries: Vec<DirectoryContents>) -> Directory {
    Directory { label: label.into(), entries }
}

fn sub(directory: Directory) -> DirectoryContents {
    DirectoryContents::sub_directory(directory)
}

#[test]
fn constructors_of_contents() {
    assert_eq!(
        DirectoryContents::file("a.rs".into(), b"abc"),
        DirectoryContents::File(file("a.rs", b"abc"))
    );
    assert_eq!(DirectoryContents::repo(), DirectoryContents::Repo);
    assert_eq!(
        DirectoryContents::sub_directory(directory("d", vec![DirectoryContents::Repo])),
        DirectoryContents::SubDirectory(Box::new(directory("d", vec![DirectoryContents::Repo])))
    );
    assert_eq!(SystemType::file("a".into()), (Label::from("a"), SystemType::File));
    assert_eq!(SystemType::directory("a".into()), (Label::from("a"), SystemType::Directory));
}

#[test]
fn empty_root_holds_the_repository_directory() {
    let root = Directory::empty_root::<Git>();
    assert_eq!(
        root,
        directory("~", vec![sub(directory(".git", vec![DirectoryContents::Repo]))])
    );
    assert_eq!(root.list_directory(), vec![SystemType::directory(".git".into())]);
    assert_eq!(
        root.sub_directories(),
        vec![directory(".git", vec![DirectoryContents::Repo])]
    );
}

#[test]
fn listing_skips_the_repository_marker() {
    let dir = directory(
        "d",
        vec![
            DirectoryContents::Repo,
            DirectoryContents::File(file("a", b"")),
            sub(directory("b", vec![DirectoryContents::Repo])),
        ],
    );
    assert_eq!(
        dir.list_directory(),
        vec![SystemType::file("a".into()), SystemType::directory("b".into())]
    );
}

#[test]
fn add_contents_appends_in_order() {
    let mut dir = directory("d", vec![DirectoryContents::File(file("a", b"1"))]);
    let mut more = NonEmpty::new(DirectoryContents::File(file("b", b"2")));
    more.push(DirectoryContents::Repo);
    dir.add_contents(more);
    assert_eq!(
        dir,
        directory(
            "d",
            vec![
                DirectoryContents::File(file("a", b"1")),
                DirectoryContents::File(file("b", b"2")),
                DirectoryContents::Repo,
            ]
        )
    );
}

#[test]
fn lookups_take_the_first_match() {
    let dir = directory(
        "d",
        vec![
            DirectoryContents::File(file("x", b"first")),
            sub(directory("x", vec![DirectoryContents::File(file("in", b"1"))])),
            DirectoryContents::File(file("x", b"second")),
            sub(directory("x", vec![DirectoryContents::File(file("in", b"2"))])),
        ],
    );
    assert_eq!(dir.file_in_directory(&"x".into()), Some(file("x", b"first")));
    assert_eq!(dir.file_in_directory(&"in".into()), None);
    assert_eq!(
        dir.sub_directory(&"x".into()),
        Some(directory("x", vec![DirectoryContents::File(file("in", b"1"))]))
    );
    assert_eq!(dir.sub_directory(&"y".into()), None);
    assert_eq!(dir.sub_directories().len(), 2);
}

#[test]
fn find_directory_starts_at_the_own_label() {
    let root = Directory::mkdir(
        "~".into(),
        directory("a", vec![sub(directory("b", vec![DirectoryContents::File(file("f", b"1"))]))]),
    );
    assert_eq!(root.find_directory(&Path::from_string("~")), Some(root.clone()));
    assert_eq!(
        root.find_directory(&Path::from_string("~/a/b")),
        Some(directory("b", vec![DirectoryContents::File(file("f", b"1"))]))
    );
    assert_eq!(root.find_directory(&Path::from_string("a/b")), None);
    assert_eq!(root.find_directory(&Path::from_string("~/b")), None);
    assert_eq!(root.find_directory(&Path::from_string("~/a/b/f")), None);
    assert_eq!(root.find_file(&Path::from_string("~/a/b/f")), Some(file("f", b"1")));
    assert_eq!(root.find_file(&Path::from_string("~/a/b")), None);
    assert_eq!(root.find_file(&Path::from_string("a/b/f")), None);
}

#[test]
fn find_file_with_one_label_looks_in_the_directory_itself() {
    let dir = directory("d", vec![DirectoryContents::File(file("f", b"1"))]);
    assert_eq!(dir.find_file(&Path::from_string("f")), Some(file("f", b"1")));
    assert_eq!(dir.find_file(&Path::from_string("d")), None);
    assert_eq!(dir.find_file(&Path::from_string("d/f")), Some(file("f", b"1")));
}

#[test]
fn combine_on_disjoint_labels_adds_a_sub_directory() {
    let a = directory("a", vec![DirectoryContents::File(file("x", b"1"))]);
    let b = directory("b", vec![DirectoryContents::File(file("y", b"2"))]);
    let mut root = directory("~", vec![sub(a.clone())]);
    root.combine(&b);
    assert_eq!(root, directory("~", vec![sub(a.clone()), sub(b.clone())]));
    assert_eq!(root.find_directory(&Path::from_string("~/a")), Some(a));
    assert_eq!(root.find_directory(&Path::from_string("~/b")), Some(b));
    assert_eq!(root.find_file(&Path::from_string("~/a/x")), Some(file("x", b"1")));
    assert_eq!(root.find_file(&Path::from_string("~/b/y")), Some(file("y", b"2")));
    assert_eq!(
        root.list_directory(),
        vec![SystemType::directory("a".into()), SystemType::directory("b".into())]
    );
}

#[test]
fn combine_on_a_shared_label_merges() {
    let mut root = directory(
        "~",
        vec![sub(Directory::mkdir(
            "foo".into(),
            directory("bar", vec![DirectoryContents::File(file("baz.rs", b"1"))]),
        ))],
    );
    let other = Directory::mkdir(
        "foo".into(),
        directory(
            "bar",
            vec![
                DirectoryContents::File(file("quux.rs", b"2")),
                DirectoryContents::Repo,
                sub(directory("deep", vec![DirectoryContents::File(file("f", b"3"))])),
            ],
        ),
    );
    root.combine(&other);
    assert_eq!(root.list_directory(), vec![SystemType::directory("foo".into())]);
    let foo = root.find_directory(&Path::from_string("~/foo")).unwrap();
    assert_eq!(foo.list_directory(), vec![SystemType::directory("bar".into())]);
    let bar = root.find_directory(&Path::from_string("~/foo/bar")).unwrap();
    assert_eq!(
        bar.list_directory(),
        vec![
            SystemType::file("baz.rs".into()),
            SystemType::file("quux.rs".into()),
            SystemType::directory("deep".into()),
        ]
    );
    assert_eq!(bar.entries.len(), 4);
    assert_eq!(root.find_file(&Path::from_string("~/foo/bar/deep/f")), Some(file("f", b"3")));
}

#[test]
fn combine_does_not_deduplicate_files() {
    let mut root = directory(
        "~",
        vec![sub(directory("d", vec![DirectoryContents::File(file("f", b"old"))]))],
    );
    root.combine(&directory("d", vec![DirectoryContents::File(file("f", b"new"))]));
    let d = root.find_directory(&Path::from_string("~/d")).unwrap();
    assert_eq!(
        d.list_directory(),
        vec![SystemType::file("f".into()), SystemType::file("f".into())]
    );
    assert_eq!(root.find_file(&Path::from_string("~/d/f")), Some(file("f", b"old")));
}

#[test]
fn add_files_under_the_root_path_and_below() {
    let mut root = Directory::empty_root::<Git>();
    root.add_files(&Path::root(), NonEmpty::new(file("top", b"1")));
    let mut below = NonEmpty::new(file("x", b"2"));
    below.push(file("y", b"3"));
    root.add_files(&Path::from_string("a/b"), below);
    assert_eq!(
        root,
        directory(
            "~",
            vec![
                sub(directory(".git", vec![DirectoryContents::Repo])),
                DirectoryContents::File(file("top", b"1")),
                sub(Directory::mkdir(
                    "a".into(),
                    directory(
                        "b",
                        vec![
                            DirectoryContents::File(file("x", b"2")),
                            DirectoryContents::File(file("y", b"3")),
                        ]
                    )
                )),
            ]
        )
    );
}

#[test]
fn from_pairs_adds_in_order() {
    let pairs = vec![
        (Path::from_string("a"), NonEmpty::new(file("x", b"1"))),
        (Path::from_string("a/b"), NonEmpty::new(file("y", b"2"))),
        (Path::from_string("a"), NonEmpty::new(file("z", b"3"))),
    ];
    let root = Directory::from_pairs(directory("~", vec![DirectoryContents::Repo]), pairs);
    assert_eq!(
        root,
        directory(
            "~",
            vec![
                DirectoryContents::Repo,
                sub(directory(
                    "a",
                    vec![
                        DirectoryContents::File(file("x", b"1")),
                        sub(directory("b", vec![DirectoryContents::File(file("y", b"2"))])),
                        DirectoryContents::File(file("z", b"3")),
                    ]
                )),
            ]
        )
    );
}

#[test]
fn from_a_map_builds_under_the_root() {
    let mut map = HashMap::new();
    map.insert(Path::from_string("src"), NonEmpty::new(file("lib.rs", b"lib")));
    let root = Directory::from::<Git>(map);
    assert_eq!(
        root,
        directory(
            "~",
            vec![
                sub(directory(".git", vec![DirectoryContents::Repo])),
                sub(directory("src", vec![DirectoryContents::File(file("lib.rs", b"lib"))])),
            ]
        )
    );
    assert_eq!(root.find_file(&Path::from_string("~/src/lib.rs")), Some(file("lib.rs", b"lib")));
}

#[test]
fn clones_are_equal() {
    let root = Directory::mkdir(
        "~".into(),
        directory("a", vec![DirectoryContents::File(file("f", b"1")), DirectoryContents::Repo]),
    );
    assert_eq!(root.clone(), root);
    assert_eq!(root.entries[0].clone(), root.entries[0]);
    assert_eq!(file("f", b"1").clone(), file("f", b"1"));
}

#[test]
fn add_entries_under_the_root_path_and_below() {
    let mut root = directory("~", vec![DirectoryContents::Repo]);
    root.add_entries(&Path::root(), vec![DirectoryContents::File(file("top", b"1"))]);
    root.add_entries(
        &Path::from_string("a/b"),
        vec![DirectoryContents::File(file("x", b"2")), DirectoryContents::Repo],
    );
    root.add_entries(&Path::from_string("a"), vec![DirectoryContents::File(file("y", b"3"))]);
    assert_eq!(
        root,
        directory(
            "~",
            vec![
                DirectoryContents::Repo,
                DirectoryContents::File(file("top", b"1")),
                sub(directory(
                    "a",
                    vec![
                        sub(directory(
                            "b",
                            vec![DirectoryContents::File(file("x", b"2")), DirectoryContents::Repo]
                        )),
                        DirectoryContents::File(file("y", b"3")),
                    ]
                )),
            ]
        )
    );
}

#[test]
fn the_empty_map_gives_the_root_with_the_repository_directory() {
    let root = Directory::from::<Git>(HashMap::new());
    assert_eq!(root, Directory::empty_root::<Git>());
    assert_eq!(
        Directory::from_pairs(Directory::empty_root::<Git>(), Vec::new()),
        Directory::empty_root::<Git>()
    );
}

#[test]
fn every_key_of_the_map_is_found_with_its_files() {
    let mut map = HashMap::new();
    let mut files = NonEmpty::new(file("x", b"1"));
    files.push(file("y", b"22"));
    map.insert(Path::from_string("a/b"), files);
    map.insert(Path::from_string("a/c"), NonEmpty::new(file("x", b"333")));
    map.insert(Path::root(), NonEmpty::new(file("top", b"4444")));
    let root = Directory::from::<Git>(map.clone());
    for (key, files) in map {
        let mut path = Path::root();
        if !key.is_root() {
            path.append(&mut key.clone());
        }
        assert!(root.find_directory(&path).is_some());
        for named in files {
            let mut file_path = path.clone();
            file_path.push(named.filename.clone());
            assert_eq!(root.find_file(&file_path), Some(named));
        }
    }
}

#[test]
fn files_of_a_combined_directory_are_found_below_its_label() {
    let a = directory("a", vec![DirectoryContents::File(file("x", b"1"))]);
    let b = directory(
        "b",
        vec![
            DirectoryContents::File(file("y", b"2")),
            sub(directory("c", vec![DirectoryContents::File(file("z", b"3"))])),
        ],
    );
    let mut root = directory("~", vec![sub(a)]);
    root.combine(&b);
    assert_eq!(root.find_file(&Path::from_string("~/b/y")), b.find_file(&Path::from_string("b/y")));
    assert_eq!(
        root.find_file(&Path::from_string("~/b/c/z")),
        b.find_file(&Path::from_string("b/c/z"))
    );
    assert_eq!(root.find_file(&Path::from_string("~/b/c/z")), Some(file("z", b"3")));
    assert_eq!(b.find_file(&Path::from_string("y")), Some(file("y", b"2")));
    assert_eq!(root.find_file(&Path::from_string("~/y")), None);
}
