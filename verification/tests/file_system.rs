use nonempty::NonEmpty;
use radicle_surf::file_system::{
    Directory, DirectoryContents, DirectoryView, File, Label, Path, RepoBackend, SystemType,
};
use std::collections::HashMap;

#[derive(Debug, Clone)]
struct TestRepo {}

impl RepoBackend for TestRepo {
    // Stands for `repo_directory` in contracts; nothing calls it.
    fn repo_view() -> DirectoryView {
        unreachable!()
    }

    fn repo_directory() -> Directory {
        Directory {
            label: ".test".into(),
            entries: vec![DirectoryContents::Repo],
        }
    }
}

fn prop_all_directories_and_files(directory_map: HashMap<Path, (File, Vec<File>)>) -> bool {
    let mut new_directory_map = HashMap::new();
    for (path, files) in directory_map {
        let mut files_nonempty = NonEmpty::new(files.0.clone());
        files_nonempty.append(&mut files.1.clone());
        new_directory_map.insert(path.clone(), files_nonempty);
    }

    let directory = Directory::from::<TestRepo>(new_directory_map.clone());

    for (directory_path, files) in new_directory_map {
        for file in files.iter() {
            let mut path = Path::root();
            path.append(&mut directory_path.clone());

            if !directory.find_directory(&path).is_some() {
                println!("Directory not found");
                println!("Directory: {:#?}", directory);
                println!("Path: {:#?}", path);
                return false;
            }

            path.push(file.filename.clone());
            if !directory.find_file(&path).is_some() {
                println!("File not found");
                println!("Directory: {:#?}", directory);
                println!("Path: {:#?}", path);
                return false;
            }
        }
    }
    true
}

#[test]
fn test_find_added_file() {
    let file_path = Path::from_labels(Label::root(), &["foo.hs".into()]);

    let file = File {
        filename: "foo.hs".into(),
        contents: "module Banana ...".into(),
    };

    let directory: Directory = Directory {
        label: Label::root(),
        entries: vec![DirectoryContents::File(file.clone())],
    };

    // Search for "~/foo.hs"
    assert_eq!(directory.find_file(&file_path), Some(file))
}

#[test]
fn test_find_added_file_long_path() {
    let file_path = Path::from_labels(
        Label::root(),
        &["foo".into(), "bar".into(), "baz.hs".into()],
    );

    let file = File {
        filename: "baz.hs".into(),
        contents: "module Banana ...".into(),
    };

    let directory: Directory = Directory::mkdir(
        Label::root(),
        Directory::mkdir(
            "foo".into(),
            Directory {
                label: "bar".into(),
                entries: vec![DirectoryContents::File(file.clone())],
            },
        ),
    );

    // Search for "~/foo/bar/baz.hs"
    assert_eq!(directory.find_file(&file_path), Some(file))
}

#[test]
fn test_404_file_not_found() {
    let file_path = Path::from_labels(Label::root(), &["bar.hs".into()]);

    let directory: Directory = Directory {
        label: Label::root(),
        entries: vec![DirectoryContents::file(
            "foo.hs".into(),
            "module Banana ...".as_bytes(),
        )],
    };

    // Search for "~/bar.hs"
    assert_eq!(directory.find_file(&file_path), None)
}

#[test]
fn test_list_directory() {
    let foo = DirectoryContents::file("foo.hs".into(), "module Banana ...".as_bytes());
    let bar = DirectoryContents::file("bar.hs".into(), "module Banana ...".as_bytes());
    let baz = DirectoryContents::file("baz.hs".into(), "module Banana ...".as_bytes());

    let mut files = NonEmpty::new(foo);
    files.push(bar);
    files.push(baz);

    let directory: Directory = Directory {
        label: Label::root(),
        entries: files.into(),
    };

    assert_eq!(
        directory.list_directory(),
        vec![
            SystemType::file("foo.hs".into()),
            SystemType::file("bar.hs".into()),
            SystemType::file("baz.hs".into()),
        ]
    );
}

#[test]
fn test_create_and_list() {
    let mut directory_map = HashMap::new();

    // Root files set up
    let mut root_files = NonEmpty::new(File {
        filename: "foo.rs".into(),
        contents: "use crate::bar".as_bytes().to_vec(),
    });
    root_files.push(File {
        filename: "bar.rs".into(),
        contents: "fn hello_world()".as_bytes().to_vec(),
    });
    directory_map.insert(Path::root(), root_files);

    // Haskell files set up
    let mut haskell_files = NonEmpty::new(File {
        filename: "foo.hs".into(),
        contents: "module Foo where".as_bytes().to_vec(),
    });
    haskell_files.push(File {
        filename: "bar.hs".into(),
        contents: "module Bar where".as_bytes().to_vec(),
    });
    directory_map.insert(Path(NonEmpty::new("haskell".into())), haskell_files);

    let directory = Directory::from::<TestRepo>(directory_map);
    let mut directory_contents = directory.list_directory();
    directory_contents.sort();

    assert_eq!(
        directory_contents,
        vec![
            SystemType::directory(".test".into()),
            SystemType::file("bar.rs".into()),
            SystemType::file("foo.rs".into()),
            SystemType::directory("haskell".into()),
        ]
    );

    let sub_directory = directory
        .find_directory(&Path::from_labels("~".into(), &["haskell".into()]))
        .unwrap();
    let mut sub_directory_contents = sub_directory.list_directory();
    sub_directory_contents.sort();

    assert_eq!(
        sub_directory_contents,
        vec![
            SystemType::file("bar.hs".into()),
            SystemType::file("foo.hs".into()),
        ]
    );
}

#[test]
fn mod_test_all_directories_and_files() {
    let mut directory_map = HashMap::new();

    let path1 = Path::from_labels("foo".into(), &["bar".into(), "baz".into()]);
    let file1 = File {
        filename: "monadic.rs".into(),
        contents: "".as_bytes().to_vec(),
    };
    let file2 = File {
        filename: "oscoin.rs".into(),
        contents: "".as_bytes().to_vec(),
    };
    directory_map.insert(path1, (file1, vec![file2]));

    let path2 = Path::from_labels("foo".into(), &["bar".into(), "quux".into()]);
    let file3 = File {
        filename: "radicle.rs".into(),
        contents: "".as_bytes().to_vec(),
    };
    directory_map.insert(path2, (file3, vec![]));

    assert!(prop_all_directories_and_files(directory_map))
}

#[test]
fn mod_test_file_name_is_same_as_root() {
    // This test ensures that if the filename is the same the root of the
    // directory, that search_path.split_last() doesn't toss away the prefix.
    let path = Path::from_labels(Label("foo".into()), &[Label("bar".into())]);
    let files = (
        File {
            filename: Label("~".into()),
            contents: Vec::new(),
        },
        vec![],
    );
    let mut directory_map = HashMap::new();
    directory_map.insert(path, files);

    assert!(prop_all_directories_and_files(directory_map));
}

/// Given:
/// foo
/// `-- bar
///     `-- baz
///         `-- quux.rs
///
/// And:
/// foo
/// `-- bar
///     `-- quux
///         `-- hallo.rs
///
/// We expect:
/// foo
/// `-- bar
///     |-- baz
///     |   `-- quux.rs
///     `-- quux
///         `-- hallo.rs
#[test]
fn test_combine_dirs() {
    let mut root = Directory::empty_root::<TestRepo>();
    let quux = Directory::mkdir(
        "foo".into(),
        Directory::mkdir(
            "bar".into(),
            Directory {
                label: "baz".into(),
                entries: vec![DirectoryContents::file("quux.rs".into(), b"")],
            },
        ),
    );
    root.entries.push(DirectoryContents::sub_directory(quux));

    let hallo = Directory::mkdir(
        "foo".into(),
        Directory::mkdir(
            "bar".into(),
            Directory {
                label: "quux".into(),
                entries: vec![DirectoryContents::file("hallo.rs".into(), b"")],
            },
        ),
    );

    let mut expected_root = Directory::empty_root::<TestRepo>();
    let expected_quux = DirectoryContents::sub_directory(Directory {
        label: "baz".into(),
        entries: vec![DirectoryContents::file("quux.rs".into(), b"")],
    });
    let expected_hallo = DirectoryContents::sub_directory(Directory {
        label: "quux".into(),
        entries: vec![DirectoryContents::file("hallo.rs".into(), b"")],
    });
    let mut subdirs = NonEmpty::new(expected_quux);
    subdirs.push(expected_hallo);

    let expected = Directory::mkdir(
        "foo".into(),
        Directory {
            label: "bar".into(),
            entries: subdirs.into(),
        },
    );
    expected_root
        .entries
        .push(DirectoryContents::sub_directory(expected));

    root.combine(&hallo);

    assert_eq!(root, expected_root)
}

/// Given:
/// foo
/// `-- bar
///     `-- baz.rs
/// And:
/// foo
/// `-- bar
///     `-- quux.rs
///
/// We expect:
/// foo
/// `-- bar
///     |-- baz.rs
///     `-- quux.rs
#[test]
fn test_combine_files() {
    let mut root = Directory::empty_root::<TestRepo>();
    let baz = Directory::mkdir(
        "foo".into(),
        Directory {
            label: "bar".into(),
            entries: vec![DirectoryContents::file("baz.rs".into(), b"")],
        },
    );
    root.entries.push(DirectoryContents::sub_directory(baz));

    let quux = Directory::mkdir(
        "foo".into(),
        Directory {
            label: "bar".into(),
            entries: vec![DirectoryContents::file("quux.rs".into(), b"")],
        },
    );

    let mut expected_root = Directory::empty_root::<TestRepo>();
    let mut files = NonEmpty::new(DirectoryContents::file("baz.rs".into(), b""));
    files.push(DirectoryContents::file("quux.rs".into(), b""));
    let expected = Directory::mkdir(
        "foo".into(),
        Directory {
            label: "bar".into(),
            entries: files.into(),
        },
    );
    expected_root
        .entries
        .push(DirectoryContents::sub_directory(expected));

    root.combine(&quux);

    assert_eq!(root, expected_root)
}
