use duplicates::classes::Sorter;
use duplicates::keys::Key;

fn names(list: &[&str]) -> Vec<String> {
    list.iter().map(|name| name.to_string()).collect()
}

#[test]
fn contents_are_the_same_key_when_the_bytes_are() {
    assert!(vec![1u8, 2, 3].same(&vec![1, 2, 3]));
    assert!(Vec::<u8>::new().same(&Vec::new()));
    assert!(!vec![1u8, 2, 3].same(&vec![1, 2, 4]));
    assert!(!vec![1u8, 2, 3].same(&vec![1, 2]));
    assert!(!vec![1u8, 2].same(&vec![2, 1]));
}

#[test]
fn fingerprints_are_the_same_key_when_number_and_length_are() {
    assert!((7u64, 3usize).same(&(7, 3)));
    assert!(!(7u64, 3usize).same(&(8, 3)));
    assert!(!(7u64, 3usize).same(&(7, 4)));
    assert!(!(3u64, 7usize).same(&(7, 3)));
}

#[test]
fn a_new_sorter_has_no_groups() {
    let sorter: Sorter<Vec<u8>> = Sorter::new();
    assert!(sorter.finish().is_empty());
}

#[test]
fn a_sorter_opens_groups_in_the_order_of_the_keys() {
    let mut sorter: Sorter<(u64, usize)> = Sorter::new();
    sorter.add("one".to_string(), (9, 1));
    sorter.add("two".to_string(), (5, 1));
    sorter.add("three".to_string(), (9, 1));
    sorter.add("four".to_string(), (5, 2));
    sorter.add("five".to_string(), (5, 1));
    assert_eq!(
        sorter.finish(),
        vec![names(&["one", "three"]), names(&["two", "five"]), names(&["four"])]
    );
}

#[test]
fn a_sorter_files_by_contents() {
    let mut sorter: Sorter<Vec<u8>> = Sorter::new();
    sorter.add("first".to_string(), b"same".to_vec());
    sorter.add("second".to_string(), b"other".to_vec());
    sorter.add("third".to_string(), b"same".to_vec());
    sorter.add("fourth".to_string(), Vec::new());
    sorter.add("fifth".to_string(), Vec::new());
    assert_eq!(
        sorter.finish(),
        vec![names(&["first", "third"]), names(&["second"]), names(&["fourth", "fifth"])]
    );
}

#[test]
fn a_sorter_keeps_a_path_that_is_added_twice() {
    let mut sorter: Sorter<(u64, usize)> = Sorter::new();
    sorter.add("again".to_string(), (1, 1));
    sorter.add("again".to_string(), (2, 1));
    sorter.add("again".to_string(), (1, 1));
    assert_eq!(sorter.finish(), vec![names(&["again", "again"]), names(&["again"])]);
}

#[test]
fn the_same_contents_are_looked_up_by_the_same_number() {
    assert_eq!(vec![1u8, 2, 3].digest(), vec![1u8, 2, 3].digest());
    assert_eq!(Vec::<u8>::new().digest(), Vec::<u8>::new().digest());
}

#[test]
fn contents_are_looked_up_by_a_number_that_depends_on_them() {
    assert_ne!(vec![1u8, 2, 3].digest(), vec![3u8, 2, 1].digest());
    assert_ne!(vec![0u8].digest(), Vec::<u8>::new().digest());
}

#[test]
fn a_fingerprint_is_looked_up_by_its_number() {
    assert_eq!((7u64, 3usize).digest(), 7);
    assert_eq!((7u64, 4usize).digest(), 7);
    assert_eq!((u64::MAX, 0usize).digest(), u64::MAX);
}

#[test]
fn a_sorter_tells_apart_keys_with_one_number() {
    let mut sorter: Sorter<(u64, usize)> = Sorter::new();
    sorter.add("short".to_string(), (7, 1));
    sorter.add("long".to_string(), (7, 2));
    sorter.add("short too".to_string(), (7, 1));
    sorter.add("longer".to_string(), (7, 3));
    sorter.add("long too".to_string(), (7, 2));
    assert_eq!(
        sorter.finish(),
        vec![names(&["short", "short too"]), names(&["long", "long too"]), names(&["longer"])]
    );
}

#[test]
fn a_sorter_sorts_many_paths() {
    let mut sorter: Sorter<(u64, usize)> = Sorter::new();
    for i in 0..3000u64 {
        sorter.add(format!("file{}", i), (i % 1000, (i % 7) as usize));
    }
    let groups = sorter.finish();
    assert_eq!(groups.iter().map(|group| group.len()).sum::<usize>(), 3000);
    assert_eq!(groups.len(), 3000);
    let mut again: Sorter<(u64, usize)> = Sorter::new();
    for i in 0..3000u64 {
        again.add(format!("file{}", i), (i % 1000, 0));
    }
    let groups = again.finish();
    assert_eq!(groups.len(), 1000);
    assert_eq!(
        groups[5],
        vec!["file5".to_string(), "file1005".to_string(), "file2005".to_string()]
    );
}
