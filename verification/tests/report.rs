use duplicates::report::is_shown;

#[test]
fn groups_below_the_least_count_are_not_shown() {
    assert!(!is_shown(1, 2, None));
    assert!(!is_shown(0, 1, Some(5)));
}

#[test]
fn groups_of_the_least_count_are_shown() {
    assert!(is_shown(2, 2, None));
    assert!(is_shown(1, 1, None));
    assert!(is_shown(0, 0, None));
}

#[test]
fn groups_above_the_greatest_count_are_not_shown() {
    assert!(!is_shown(4, 2, Some(3)));
    assert!(!is_shown(1, 0, Some(0)));
}

#[test]
fn groups_of_the_greatest_count_are_shown() {
    assert!(is_shown(3, 2, Some(3)));
    assert!(is_shown(2, 2, Some(2)));
}

#[test]
fn no_group_fits_between_crossed_counts() {
    for count in 0..6 {
        assert!(!is_shown(count, 4, Some(2)));
    }
}

#[test]
fn without_a_greatest_count_any_large_group_is_shown() {
    assert!(is_shown(usize::MAX, 2, None));
}
