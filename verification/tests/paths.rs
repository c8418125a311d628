//! Path text and backup names.

use tfio::ident::backup_location;
use tfio::path::{ancestors_of, check_entry_name, find_last_slash, join};

#[test]
fn join_puts_one_separator_between() {
    assert_eq!("a/b", join("a", "b"));
    assert_eq!("./tmp/x", join("./tmp", "x"));
    assert_eq!("/x", join("/", "x"));
}

#[test]
fn join_adds_no_second_separator() {
    assert_eq!("a/b", join("a/", "b"));
    assert_eq!("./tmp/x", join("./tmp/", "x"));
}

#[test]
fn join_with_empty_directory_is_the_name() {
    assert_eq!("b", join("", "b"));
    assert_eq!("", join("", ""));
    assert_eq!("a/", join("a", ""));
}

#[test]
fn entry_names_are_single_components() {
    assert_eq!(true, check_entry_name("a"));
    assert_eq!(true, check_entry_name("file.txt"));
    assert_eq!(true, check_entry_name("..."));
    assert_eq!(true, check_entry_name(".hidden"));
    assert_eq!(true, check_entry_name("936da01f-9abd-4d9d-80c7-02af85c822a8"));
    assert_eq!(false, check_entry_name(""));
    assert_eq!(false, check_entry_name("."));
    assert_eq!(false, check_entry_name(".."));
    assert_eq!(false, check_entry_name("a/b"));
    assert_eq!(false, check_entry_name("/"));
    assert_eq!(false, check_entry_name("a/"));
}

#[test]
fn backup_location_is_under_the_temp_dir() {
    assert_eq!(
        "./tmp/936da01f-9abd-4d9d-80c7-02af85c822a8",
        backup_location("./tmp/", "936da01f-9abd-4d9d-80c7-02af85c822a8")
    );
    assert_eq!(
        "backups/936da01f-9abd-4d9d-80c7-02af85c822a8",
        backup_location("backups", "936da01f-9abd-4d9d-80c7-02af85c822a8")
    );
}

#[test]
fn last_slash_is_found_from_the_end() {
    assert_eq!(None, find_last_slash(""));
    assert_eq!(None, find_last_slash("abc"));
    assert_eq!(Some(0), find_last_slash("/abc"));
    assert_eq!(Some(3), find_last_slash("a/b/c"));
    assert_eq!(Some(4), find_last_slash("a/b//"));
}

#[test]
fn levels_of_a_path_come_shortest_first() {
    assert_eq!(vec!["x", "x/y", "x/y/z"], ancestors_of("x/y/z"));
    assert_eq!(vec![".", "./x", "./x/y"], ancestors_of("./x/y"));
    assert_eq!(vec!["/a", "/a/b"], ancestors_of("/a/b"));
    assert_eq!(vec!["a", "a/"], ancestors_of("a/"));
    assert_eq!(vec!["a"], ancestors_of("a"));
    assert_eq!(vec![""], ancestors_of(""));
    assert_eq!(vec!["/"], ancestors_of("/"));
}
