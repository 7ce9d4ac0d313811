use duplicates::paths::get_common_prefix;

fn path(components: &[&str]) -> Vec<String> {
    components.iter().map(|part| part.to_string()).collect()
}

#[test]
fn no_paths_have_the_empty_prefix() {
    assert_eq!(get_common_prefix(&[]), path(&[]));
}

#[test]
fn one_path_is_its_own_prefix() {
    let paths = [path(&["files", "a.txt"])];
    assert_eq!(get_common_prefix(&paths), path(&["files", "a.txt"]));
}

#[test]
fn prefix_ends_where_the_paths_part() {
    let paths = [
        path(&["files", "more_files", "c.txt"]),
        path(&["files", "more_files", "d.txt"]),
        path(&["files", "more_files", "even_more_files", "e.txt"]),
    ];
    assert_eq!(get_common_prefix(&paths), path(&["files", "more_files"]));
}

#[test]
fn paths_that_part_at_once_share_nothing() {
    let paths = [path(&["files", "a.txt"]), path(&["other", "a.txt"])];
    assert_eq!(get_common_prefix(&paths), path(&[]));
}

#[test]
fn later_paths_only_shorten_the_prefix() {
    let paths = [
        path(&["a", "b", "c", "d"]),
        path(&["a", "b", "x", "d"]),
        path(&["a", "b", "c", "d"]),
        path(&["a", "y", "c", "d"]),
    ];
    assert_eq!(get_common_prefix(&paths), path(&["a"]));
}

#[test]
fn a_path_that_ends_early_ends_the_prefix() {
    let long = path(&["a", "b", "c"]);
    let short = path(&["a", "b"]);
    assert_eq!(get_common_prefix(&[long.clone(), short.clone()]), path(&["a", "b"]));
    assert_eq!(get_common_prefix(&[short, long]), path(&["a", "b"]));
}

#[test]
fn the_order_of_the_paths_does_not_matter() {
    let one = path(&["root", "x", "1"]);
    let two = path(&["root", "x", "2"]);
    let three = path(&["root", "y"]);
    let expected = path(&["root"]);
    assert_eq!(get_common_prefix(&[one.clone(), two.clone(), three.clone()]), expected);
    assert_eq!(get_common_prefix(&[three.clone(), one.clone(), two.clone()]), expected);
    assert_eq!(get_common_prefix(&[two, three, one]), expected);
}

#[test]
fn an_empty_path_shares_nothing() {
    let paths = [path(&["a"]), path(&[])];
    assert_eq!(get_common_prefix(&paths), path(&[]));
}

#[test]
fn equal_paths_share_everything() {
    let paths = [path(&["a", "b"]), path(&["a", "b"]), path(&["a", "b"])];
    assert_eq!(get_common_prefix(&paths), path(&["a", "b"]));
}

#[test]
fn a_walk_without_a_limit_goes_on_without_one() {
    assert_eq!(duplicates::paths::depth_below(None), Some(None));
}

#[test]
fn a_walk_stops_where_the_limit_is_used_up() {
    assert_eq!(duplicates::paths::depth_below(Some(0)), None);
}

#[test]
fn a_walk_goes_on_with_one_level_less() {
    assert_eq!(duplicates::paths::depth_below(Some(1)), Some(Some(0)));
    assert_eq!(duplicates::paths::depth_below(Some(7)), Some(Some(6)));
    assert_eq!(duplicates::paths::depth_below(Some(usize::MAX)), Some(Some(usize::MAX - 1)));
}
