use duplicates::copies::get_copies;
use duplicates::duplicates::{get_duplicates, get_duplicates_hashed};
use std::cell::RefCell;
use std::io::{Error, ErrorKind};

/// Six files: `a` and `e` hold "X", `b`, `c` and `d` hold "Y", `f` holds "Z".
/// Anything else is missing.
fn contents_of(path: &String) -> Result<Vec<u8>, Error> {
    match path.as_str() {
        "a" | "e" => Ok(b"X".to_vec()),
        "b" | "c" | "d" => Ok(b"Y".to_vec()),
        "f" => Ok(b"Z".to_vec()),
        _ => Err(Error::from(ErrorKind::NotFound)),
    }
}

fn names(list: &[&str]) -> Vec<String> {
    list.iter().map(|name| name.to_string()).collect()
}

#[test]
fn duplicates_of_no_paths_are_empty() {
    assert!(get_duplicates(&[], &contents_of).is_empty());
    assert!(get_duplicates_hashed(&[], &contents_of).is_empty());
}

#[test]
fn a_lone_file_has_no_duplicate() {
    assert!(get_duplicates(&names(&["a"]), &contents_of).is_empty());
    assert!(get_duplicates_hashed(&names(&["a"]), &contents_of).is_empty());
}

#[test]
fn duplicates_of_six_files() {
    let paths = names(&["a", "b", "c", "d", "e", "f"]);
    let groups = get_duplicates(&paths, &contents_of);
    assert_eq!(groups, vec![names(&["a", "e"]), names(&["b", "c", "d"])]);
}

#[test]
fn hashed_duplicates_of_six_files() {
    let paths = names(&["a", "b", "c", "d", "e", "f"]);
    let groups = get_duplicates_hashed(&paths, &contents_of);
    assert_eq!(groups, vec![names(&["a", "e"]), names(&["b", "c", "d"])]);
    let mut sizes: Vec<usize> = groups.iter().map(|group| group.len()).collect();
    sizes.sort();
    assert_eq!(sizes, vec![2, 3]);
}

#[test]
fn files_without_a_copy_are_left_out() {
    let paths = names(&["f", "a", "b"]);
    assert!(get_duplicates(&paths, &contents_of).is_empty());
    assert!(get_duplicates_hashed(&paths, &contents_of).is_empty());
}

#[test]
fn duplicates_pass_over_what_cannot_be_read() {
    let paths = names(&["missing", "a", "gone", "e", "f"]);
    assert_eq!(get_duplicates(&paths, &contents_of), vec![names(&["a", "e"])]);
    assert_eq!(get_duplicates_hashed(&paths, &contents_of), vec![names(&["a", "e"])]);
}

#[test]
fn two_missing_files_are_no_duplicates() {
    let paths = names(&["missing", "gone"]);
    assert!(get_duplicates(&paths, &contents_of).is_empty());
    assert!(get_duplicates_hashed(&paths, &contents_of).is_empty());
}

#[test]
fn duplicates_read_every_path_even_a_lone_one() {
    let asked = RefCell::new(Vec::new());
    let read = |path: &String| {
        asked.borrow_mut().push(path.clone());
        contents_of(path)
    };
    get_duplicates(&names(&["a"]), &read);
    assert_eq!(*asked.borrow(), names(&["a"]));
}

#[test]
fn hashed_duplicates_read_candidates_a_second_time() {
    let asked = RefCell::new(Vec::new());
    let read = |path: &String| {
        asked.borrow_mut().push(path.clone());
        contents_of(path)
    };
    let paths = names(&["f", "a", "b", "e"]);
    let groups = get_duplicates_hashed(&paths, &read);
    assert_eq!(groups, vec![names(&["a", "e"])]);
    assert_eq!(*asked.borrow(), names(&["f", "a", "b", "e", "a", "e"]));
}

#[test]
fn hashed_duplicates_go_by_the_second_read() {
    // `e` changes between the two reads: on the second it no longer equals `a`.
    let reads = RefCell::new(0);
    let read = |path: &String| {
        *reads.borrow_mut() += 1;
        if path == "e" && *reads.borrow() > 3 {
            Ok(b"changed".to_vec())
        } else {
            contents_of(path)
        }
    };
    let groups = get_duplicates_hashed(&names(&["a", "e", "f"]), &read);
    assert!(groups.is_empty());
}

#[test]
fn hashed_duplicates_tell_contents_apart() {
    let read = |path: &String| -> Result<Vec<u8>, Error> {
        Ok(match path.as_str() {
            "one" | "uno" => vec![1, 2, 3, 4],
            "two" | "due" => vec![4, 3, 2, 1],
            _ => vec![1, 2, 3],
        })
    };
    let paths = names(&["one", "two", "three", "uno", "due"]);
    let groups = get_duplicates_hashed(&paths, &read);
    assert_eq!(groups, vec![names(&["one", "uno"]), names(&["two", "due"])]);
}

#[test]
fn duplicates_are_the_copies_of_more_than_one() {
    let paths = names(&["f", "a", "missing", "b", "c", "e", "d"]);
    let (copies, _) = get_copies(&paths, &contents_of);
    let crowded: Vec<Vec<String>> = copies.into_iter().filter(|group| group.len() > 1).collect();
    assert_eq!(get_duplicates(&paths, &contents_of), crowded);
    assert_eq!(get_duplicates_hashed(&paths, &contents_of), crowded);
}

#[test]
fn a_second_run_finds_the_same_duplicates() {
    let paths = names(&["a", "missing", "b", "c", "d", "e", "f"]);
    assert_eq!(get_duplicates(&paths, &contents_of), get_duplicates(&paths, &contents_of));
    assert_eq!(
        get_duplicates_hashed(&paths, &contents_of),
        get_duplicates_hashed(&paths, &contents_of)
    );
}
