use duplicates::copies::{get_copies, get_copies_hashed, PathIoError};
use duplicates::fingerprint::get_fingerprint;
use std::cell::RefCell;
use std::io::{Error, ErrorKind};

/// Six files: `a` and `e` hold "X", `b`, `c` and `d` hold "Y", `f` holds "Z".
/// Three more are empty. Anything else is missing.
fn contents_of(path: &String) -> Result<Vec<u8>, Error> {
    match path.as_str() {
        "a" | "e" => Ok(b"X".to_vec()),
        "b" | "c" | "d" => Ok(b"Y".to_vec()),
        "f" => Ok(b"Z".to_vec()),
        "empty1" | "empty2" | "empty3" => Ok(Vec::new()),
        "denied" => Err(Error::from(ErrorKind::PermissionDenied)),
        _ => Err(Error::from(ErrorKind::NotFound)),
    }
}

/// The fingerprint that an unchanging file with these contents has.
fn probe_of(path: &String) -> Result<(u64, usize), Error> {
    let contents = contents_of(path)?;
    get_fingerprint(contents.len(), &contents).ok_or(Error::from(ErrorKind::UnexpectedEof))
}

fn names(list: &[&str]) -> Vec<String> {
    list.iter().map(|name| name.to_string()).collect()
}

fn sorted(mut groups: Vec<Vec<String>>) -> Vec<Vec<String>> {
    for group in groups.iter_mut() {
        group.sort();
    }
    groups.sort();
    groups
}

fn paths_of(errors: &[PathIoError]) -> Vec<String> {
    errors.iter().map(|error| error.path.clone()).collect()
}

#[test]
fn copies_of_no_paths_are_empty() {
    let (groups, errors) = get_copies(&[], &contents_of);
    assert!(groups.is_empty());
    assert!(errors.is_empty());
}

#[test]
fn a_lone_path_is_a_group_and_is_not_read() {
    let never = |_: &String| -> Result<Vec<u8>, Error> { panic!("a lone path is not read") };
    let (groups, errors) = get_copies(&names(&["a"]), &never);
    assert_eq!(groups, vec![names(&["a"])]);
    assert!(errors.is_empty());
}

#[test]
fn a_lone_path_is_a_group_even_if_it_is_missing() {
    let (groups, errors) = get_copies(&names(&["missing"]), &contents_of);
    assert_eq!(groups, vec![names(&["missing"])]);
    assert!(errors.is_empty());
}

#[test]
fn two_equal_files_are_one_group() {
    let (groups, errors) = get_copies(&names(&["a", "e"]), &contents_of);
    assert_eq!(groups, vec![names(&["a", "e"])]);
    assert!(errors.is_empty());
}

#[test]
fn two_different_files_are_two_groups() {
    let (groups, errors) = get_copies(&names(&["a", "b"]), &contents_of);
    assert_eq!(groups, vec![names(&["a"]), names(&["b"])]);
    assert!(errors.is_empty());
}

#[test]
fn of_two_files_the_second_may_fail() {
    let (groups, errors) = get_copies(&names(&["a", "missing"]), &contents_of);
    assert_eq!(groups, vec![names(&["a"])]);
    assert_eq!(paths_of(&errors), names(&["missing"]));
    assert_eq!(errors[0].error.kind(), ErrorKind::NotFound);
}

#[test]
fn of_two_files_the_first_may_fail() {
    let (groups, errors) = get_copies(&names(&["denied", "b"]), &contents_of);
    assert_eq!(groups, vec![names(&["b"])]);
    assert_eq!(paths_of(&errors), names(&["denied"]));
    assert_eq!(errors[0].error.kind(), ErrorKind::PermissionDenied);
}

#[test]
fn of_two_files_both_may_fail() {
    let (groups, errors) = get_copies(&names(&["missing", "denied"]), &contents_of);
    assert!(groups.is_empty());
    assert_eq!(paths_of(&errors), names(&["missing", "denied"]));
    assert_eq!(errors[0].error.kind(), ErrorKind::NotFound);
    assert_eq!(errors[1].error.kind(), ErrorKind::PermissionDenied);
}

#[test]
fn copies_group_equal_contents() {
    let paths = names(&["a", "b", "c", "d", "e", "f"]);
    let (groups, errors) = get_copies(&paths, &contents_of);
    assert_eq!(groups, vec![names(&["a", "e"]), names(&["b", "c", "d"]), names(&["f"])]);
    assert!(errors.is_empty());
}

#[test]
fn copies_read_each_path_once_and_in_order() {
    let asked = RefCell::new(Vec::new());
    let read = |path: &String| {
        asked.borrow_mut().push(path.clone());
        contents_of(path)
    };
    let paths = names(&["f", "missing", "a", "e"]);
    get_copies(&paths, &read);
    assert_eq!(*asked.borrow(), paths);
}

#[test]
fn copies_leave_out_what_cannot_be_read() {
    let paths = names(&["a", "missing", "b", "denied", "e"]);
    let (groups, errors) = get_copies(&paths, &contents_of);
    assert_eq!(groups, vec![names(&["a", "e"]), names(&["b"])]);
    assert_eq!(paths_of(&errors), names(&["missing", "denied"]));
}

#[test]
fn copies_keep_a_path_that_is_named_twice() {
    let paths = names(&["a", "b", "a"]);
    let (groups, errors) = get_copies(&paths, &contents_of);
    assert_eq!(groups, vec![names(&["a", "a"]), names(&["b"])]);
    assert!(errors.is_empty());
}

#[test]
fn files_of_different_length_are_not_copies() {
    let read = |path: &String| -> Result<Vec<u8>, Error> {
        Ok(match path.as_str() {
            "short" => vec![1, 2],
            "long" => vec![1, 2, 3],
            _ => vec![1, 2],
        })
    };
    let (groups, _) = get_copies(&names(&["short", "long", "again"]), &read);
    assert_eq!(groups, vec![names(&["short", "again"]), names(&["long"])]);
}

#[test]
fn a_failure_tells_its_path_and_what_went_wrong() {
    let (_, errors) = get_copies(&names(&["a", "missing"]), &|_: &String| {
        Err(Error::new(ErrorKind::Other, "the disk is on fire"))
    });
    assert_eq!(errors.len(), 2);
    assert_eq!(errors[0].to_string(), "a: the disk is on fire");
    assert_eq!(errors[1].to_string(), "missing: the disk is on fire");
}

#[test]
fn hashed_copies_of_no_paths_are_empty() {
    let (groups, errors) = get_copies_hashed(&[], &probe_of, &contents_of);
    assert!(groups.is_empty());
    assert!(errors.is_empty());
}

#[test]
fn hashed_copies_of_a_lone_file_are_one_group() {
    let never = |_: &String| -> Result<Vec<u8>, Error> { panic!("a lone path is not read") };
    let (groups, errors) = get_copies_hashed(&names(&["a"]), &probe_of, &never);
    assert_eq!(groups, vec![names(&["a"])]);
    assert!(errors.is_empty());
}

#[test]
fn hashed_copies_of_six_files() {
    let paths = names(&["a", "b", "c", "d", "e", "f"]);
    let (groups, errors) = get_copies_hashed(&paths, &probe_of, &contents_of);
    assert_eq!(groups, vec![names(&["a", "e"]), names(&["b", "c", "d"]), names(&["f"])]);
    let mut sizes: Vec<usize> = groups.iter().map(|group| group.len()).collect();
    sizes.sort();
    assert_eq!(sizes, vec![1, 2, 3]);
    assert!(errors.is_empty());
}

#[test]
fn hashed_copies_tell_apart_files_with_one_fingerprint() {
    // Both files get the same fingerprint and length, and differ all the same.
    let probe = |_: &String| -> Result<(u64, usize), Error> { Ok((42, 3)) };
    let read = |path: &String| -> Result<Vec<u8>, Error> {
        Ok(if path == "left" { b"abc".to_vec() } else { b"abd".to_vec() })
    };
    let (groups, errors) = get_copies_hashed(&names(&["left", "right"]), &probe, &read);
    assert_eq!(groups, vec![names(&["left"]), names(&["right"])]);
    assert!(errors.is_empty());
}

#[test]
fn hashed_copies_tell_apart_files_that_differ_between_the_samples() {
    let read = |path: &String| -> Result<Vec<u8>, Error> {
        let mut bytes: Vec<u8> = (0..16).collect();
        if path == "odd" {
            bytes[1] = 0xff;
        }
        Ok(bytes)
    };
    let probe = |path: &String| -> Result<(u64, usize), Error> {
        let bytes = read(path)?;
        get_fingerprint(bytes.len(), &bytes).ok_or(Error::from(ErrorKind::UnexpectedEof))
    };
    assert_eq!(probe(&"odd".to_string()).unwrap(), probe(&"even".to_string()).unwrap());
    let paths = names(&["even", "odd", "same"]);
    let (groups, errors) = get_copies_hashed(&paths, &probe, &read);
    assert_eq!(groups, vec![names(&["even", "same"]), names(&["odd"])]);
    assert!(errors.is_empty());
}

#[test]
fn hashed_copies_report_a_file_that_vanished_before_the_probe() {
    let paths = names(&["a", "b", "missing", "c", "d", "e", "f"]);
    let (groups, errors) = get_copies_hashed(&paths, &probe_of, &contents_of);
    assert_eq!(groups, vec![names(&["a", "e"]), names(&["b", "c", "d"]), names(&["f"])]);
    assert_eq!(paths_of(&errors), names(&["missing"]));
    assert_eq!(errors[0].error.kind(), ErrorKind::NotFound);
}

#[test]
fn hashed_copies_report_a_file_that_vanished_after_the_probe() {
    // `c` is there when the files are probed and gone when they are read.
    let read = |path: &String| {
        if path == "c" {
            Err(Error::from(ErrorKind::NotFound))
        } else {
            contents_of(path)
        }
    };
    let paths = names(&["a", "b", "c", "d", "e", "f"]);
    let (groups, errors) = get_copies_hashed(&paths, &probe_of, &read);
    assert_eq!(groups, vec![names(&["a", "e"]), names(&["b", "d"]), names(&["f"])]);
    assert_eq!(paths_of(&errors), names(&["c"]));
    assert_eq!(errors[0].error.kind(), ErrorKind::NotFound);
}

#[test]
fn hashed_copies_report_probe_failures_before_read_failures() {
    let read = |path: &String| {
        if path == "a" {
            Err(Error::from(ErrorKind::NotFound))
        } else {
            contents_of(path)
        }
    };
    let paths = names(&["a", "e", "denied"]);
    let (groups, errors) = get_copies_hashed(&paths, &probe_of, &read);
    assert_eq!(groups, vec![names(&["e"])]);
    assert_eq!(paths_of(&errors), names(&["denied", "a"]));
}

#[test]
fn hashed_copies_read_only_files_that_share_a_fingerprint() {
    let asked = RefCell::new(Vec::new());
    let read = |path: &String| {
        asked.borrow_mut().push(path.clone());
        contents_of(path)
    };
    let paths = names(&["f", "a", "b", "e"]);
    let (groups, _) = get_copies_hashed(&paths, &probe_of, &read);
    assert_eq!(groups, vec![names(&["f"]), names(&["a", "e"]), names(&["b"])]);
    assert_eq!(*asked.borrow(), names(&["a", "e"]));
}

#[test]
fn empty_files_form_one_group() {
    let paths = names(&["empty1", "a", "empty2", "empty3"]);
    assert_eq!(probe_of(&paths[0]).unwrap(), (0, 0));
    assert_eq!(probe_of(&paths[2]).unwrap(), (0, 0));
    let (groups, errors) = get_copies_hashed(&paths, &probe_of, &contents_of);
    assert_eq!(groups, vec![names(&["empty1", "empty2", "empty3"]), names(&["a"])]);
    assert!(errors.is_empty());
    let (groups, _) = get_copies(&paths, &contents_of);
    assert_eq!(groups, vec![names(&["empty1", "empty2", "empty3"]), names(&["a"])]);
}

#[test]
fn both_ways_find_the_same_groups() {
    let paths = names(&["f", "d", "a", "empty1", "c", "e", "b", "empty2"]);
    let (plain, _) = get_copies(&paths, &contents_of);
    let (hashed, _) = get_copies_hashed(&paths, &probe_of, &contents_of);
    assert_eq!(plain.len(), hashed.len());
    assert_eq!(sorted(plain), sorted(hashed));
}

#[test]
fn every_path_is_in_one_group_or_among_the_failures() {
    let paths = names(&["a", "missing", "b", "c", "denied", "d", "e", "f", "empty1"]);
    for (groups, errors) in [
        get_copies(&paths, &contents_of),
        get_copies_hashed(&paths, &probe_of, &contents_of),
    ] {
        let mut placed: Vec<String> = groups.into_iter().flatten().collect();
        placed.extend(paths_of(&errors));
        placed.sort();
        let mut expected = paths.clone();
        expected.sort();
        assert_eq!(placed, expected);
    }
}

#[test]
fn groups_hold_equal_files_and_different_groups_hold_different_files() {
    let paths = names(&["a", "b", "c", "d", "e", "f", "empty1", "empty2"]);
    let (groups, _) = get_copies_hashed(&paths, &probe_of, &contents_of);
    for (g, group) in groups.iter().enumerate() {
        for (h, other) in groups.iter().enumerate() {
            for left in group {
                for right in other {
                    let same = contents_of(left).unwrap() == contents_of(right).unwrap();
                    assert_eq!(same, g == h);
                }
            }
        }
    }
}

#[test]
fn a_second_run_finds_the_same_groups() {
    let paths = names(&["a", "missing", "b", "c", "d", "e", "f"]);
    let (first, _) = get_copies(&paths, &contents_of);
    let (second, _) = get_copies(&paths, &contents_of);
    assert_eq!(first, second);
    let (first, _) = get_copies_hashed(&paths, &probe_of, &contents_of);
    let (second, _) = get_copies_hashed(&paths, &probe_of, &contents_of);
    assert_eq!(first, second);
}
