use nonempty::NonEmpty;
use quickcheck::QuickCheck;
use radicle_surf::file_system::directory::{Directory, File};
use radicle_surf::file_system::{Label, Path};
use std::collections::HashMap;

fn is_prefix(short: &[String], long: &[String]) -> bool {
    short.len() <= long.len() && short == &long[..short.len()]
}

/// The items whose paths are not empty and begin with no path kept before,
/// nor one kept before with them.
fn independent(items: Vec<(Vec<String>, Vec<u8>)>) -> Vec<(Vec<String>, Vec<u8>)> {
    let mut kept: Vec<(Vec<String>, Vec<u8>)> = Vec::new();
    for (path, contents) in items {
        if path.is_empty() {
            continue;
        }
        if kept.iter().any(|(other, _)| is_prefix(other, &path) || is_prefix(&path, other)) {
            continue;
        }
        kept.push((path, contents));
    }
    kept
}

fn path_of(labels: &[String]) -> Path {
    let rest: Vec<Label> = labels[1..].iter().map(|l| Label(l.clone())).collect();
    Path::from_labels(Label(labels[0].clone()), &rest)
}

fn prop_round_trip(items: Vec<(Vec<String>, Vec<u8>)>) -> bool {
    let items = independent(items);
    let mut directory = Directory::root();
    for (path, contents) in items.iter() {
        directory.insert_file(&path_of(path), File::new(contents));
    }
    let total: usize = items.iter().map(|(_, contents)| contents.len()).sum();
    if directory.size() != total || directory.checked_size() != Some(total) {
        return false;
    }
    for (path, contents) in items.iter() {
        if directory.find_file(&path_of(path)) != Some(File::new(contents)) {
            return false;
        }
        for n in 1..path.len() {
            match directory.find_directory(&path_of(&path[..n])) {
                Some(found) => {
                    if found.list_directory().is_empty() {
                        return false;
                    }
                }
                None => return false,
            }
        }
    }
    true
}

fn prop_order_does_not_matter(items: Vec<(Vec<String>, Vec<u8>)>) -> bool {
    let items = independent(items);
    let mut forward = Directory::root();
    for (path, contents) in items.iter() {
        forward.insert_file(&path_of(path), File::new(contents));
    }
    let mut backward = Directory::root();
    for (path, contents) in items.iter().rev() {
        backward.insert_file(&path_of(path), File::new(contents));
    }
    let mut listing_forward = forward.list_directory();
    let mut listing_backward = backward.list_directory();
    listing_forward.sort();
    listing_backward.sort();
    listing_forward == listing_backward
        && items.iter().all(|(path, _)| {
            forward.find_file(&path_of(path)) == backward.find_file(&path_of(path))
        })
}

fn prop_labels_are_listed_once(items: Vec<(Vec<String>, Vec<u8>)>) -> bool {
    let mut directory = Directory::root();
    for (path, contents) in items.iter() {
        if !path.is_empty() {
            directory.insert_file(&path_of(path), File::new(contents));
        }
    }
    let mut listing = directory.list_directory();
    let listed = listing.len();
    listing.sort();
    listing.dedup_by(|a, b| a.0 == b.0);
    listing.len() == listed
}

fn prop_map_round_trip(items: Vec<(Vec<String>, Vec<u8>)>) -> bool {
    let root = vec!["~".to_string()];
    let mut map: HashMap<Path, NonEmpty<(Label, File)>> = HashMap::new();
    let mut expected = Vec::new();
    for (path, contents) in independent(items) {
        if path.len() < 2 || path[..path.len() - 1] == root[..] {
            continue;
        }
        let directory_path = path_of(&path[..path.len() - 1]);
        let name = Label(path[path.len() - 1].clone());
        let named = (name, File::new(&contents));
        match map.remove(&directory_path) {
            Some(mut files) => {
                files.push(named);
                map.insert(directory_path, files);
            }
            None => {
                map.insert(directory_path, NonEmpty::new(named));
            }
        }
        expected.push((path, contents));
    }
    let directory = Directory::from_hash_map(map);
    expected.iter().all(|(path, contents)| {
        directory.find_file(&path_of(path)) == Some(File::new(contents))
            && directory.find_directory(&path_of(&path[..path.len() - 1])).is_some()
    })
}

#[test]
fn round_trip_of_independent_paths() {
    QuickCheck::new()
        .tests(60)
        .quickcheck(prop_round_trip as fn(Vec<(Vec<String>, Vec<u8>)>) -> bool);
}

#[test]
fn order_of_insertion_does_not_matter() {
    QuickCheck::new()
        .tests(60)
        .quickcheck(prop_order_does_not_matter as fn(Vec<(Vec<String>, Vec<u8>)>) -> bool);
}

#[test]
fn labels_are_listed_once() {
    QuickCheck::new()
        .tests(60)
        .quickcheck(prop_labels_are_listed_once as fn(Vec<(Vec<String>, Vec<u8>)>) -> bool);
}

#[test]
fn round_trip_through_a_map() {
    QuickCheck::new()
        .tests(60)
        .quickcheck(prop_map_round_trip as fn(Vec<(Vec<String>, Vec<u8>)>) -> bool);
}

#[test]
fn round_trip_of_chosen_paths() {
    let items = vec![
        (vec!["a".to_string(), "b".to_string()], vec![1u8, 2]),
        (vec!["a".to_string(), "c".to_string(), "d".to_string()], vec![3u8]),
        (vec!["e".to_string()], vec![]),
        (vec!["a".to_string()], vec![9u8]),
        (vec![], vec![9u8]),
    ];
    assert!(prop_round_trip(items.clone()));
    assert!(prop_order_does_not_matter(items.clone()));
    assert!(prop_labels_are_listed_once(items.clone()));
    assert!(prop_map_round_trip(items));
}
