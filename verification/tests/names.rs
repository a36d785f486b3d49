use organize::failure::Failure;
use organize::names::{find_split_point, numbered_name, prefixed_name, render_decimal};

#[test]
fn decimal_of_small_and_large_numbers() {
    assert_eq!(render_decimal(0), "0");
    assert_eq!(render_decimal(7), "7");
    assert_eq!(render_decimal(10), "10");
    assert_eq!(render_decimal(1234567890), "1234567890");
    assert_eq!(render_decimal(u128::MAX), "340282366920938463463374607431768211455");
}

#[test]
fn a_name_splits_at_its_last_dot() {
    assert_eq!(find_split_point(&"file.txt".to_string()), 4);
    assert_eq!(find_split_point(&"archive.tar.gz".to_string()), 11);
    assert_eq!(find_split_point(&"noext".to_string()), 5);
    assert_eq!(find_split_point(&"trailing.".to_string()), 8);
    assert_eq!(find_split_point(&"".to_string()), 0);
}

#[test]
fn a_leading_dot_opens_no_extension() {
    assert_eq!(find_split_point(&".hidden".to_string()), 7);
    assert_eq!(find_split_point(&".hidden.txt".to_string()), 7);
    assert_eq!(find_split_point(&".".to_string()), 1);
}

#[test]
fn the_split_counts_characters_not_bytes() {
    assert_eq!(find_split_point(&"été.txt".to_string()), 3);
    assert_eq!(numbered_name(&"été.txt".to_string(), 1), "été_1.txt");
}

#[test]
fn the_number_goes_before_the_extension() {
    assert_eq!(numbered_name(&"file.txt".to_string(), 1), "file_1.txt");
    assert_eq!(numbered_name(&"file.txt".to_string(), 12), "file_12.txt");
    assert_eq!(numbered_name(&"archive.tar.gz".to_string(), 2), "archive.tar_2.gz");
    assert_eq!(numbered_name(&"noext".to_string(), 3), "noext_3");
    assert_eq!(numbered_name(&".hidden".to_string(), 1), ".hidden_1");
    assert_eq!(numbered_name(&"trailing.".to_string(), 1), "trailing_1.");
}

#[test]
fn the_parent_name_is_joined_with_an_underscore() {
    assert_eq!(prefixed_name(&"vacation".to_string(), &"img1.jpg".to_string()), "vacation_img1.jpg");
    assert_eq!(prefixed_name(&"".to_string(), &"x".to_string()), "_x");
}

#[test]
fn a_failure_names_the_action_and_the_paths() {
    assert_eq!(
        Failure::Resolve { path: "/no/such".to_string() }.message(),
        "Failed to resolve path: /no/such"
    );
    assert_eq!(
        Failure::Move { from: "/r/a/f.txt".to_string(), to: "/r/f.txt".to_string() }.message(),
        "Failed to move file from /r/a/f.txt to /r/f.txt"
    );
    assert_eq!(
        Failure::RemoveDirectory { path: "/r/a".to_string() }.message(),
        "Failed to remove empty directory: /r/a"
    );
}
