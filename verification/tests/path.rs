use wgsl_modules::error::Error;
use wgsl_modules::path::{join_path, normpath, parent_path};

#[test]
fn normpath_collapses_parent_segment() {
    assert_eq!(normpath("a/b/../c"), "a/c");
}

#[test]
fn normpath_drops_current_segment() {
    assert_eq!(normpath("./a"), "a");
    assert_eq!(normpath("a/./b/."), "a/b");
}

#[test]
fn normpath_keeps_leading_parent_segment() {
    assert_eq!(normpath("../a"), "../a");
    assert_eq!(normpath("../../a"), "../../a");
}

#[test]
fn normpath_climbs_over_its_start() {
    assert_eq!(normpath("a/../../b"), "../b");
}

#[test]
fn normpath_of_nothing_is_nothing() {
    assert_eq!(normpath(""), "");
    assert_eq!(normpath("."), "");
    assert_eq!(normpath("a/.."), "");
}

#[test]
fn normpath_keeps_the_root() {
    assert_eq!(normpath("/a/../b"), "/b");
    assert_eq!(normpath("/"), "/");
    assert_eq!(normpath("/a/.."), "/");
}

#[test]
fn normpath_drops_repeated_and_trailing_separators() {
    assert_eq!(normpath("a//b/"), "a/b");
}

#[test]
fn normpath_is_idempotent_on_examples() {
    for path in ["a/b/../c", "./a", "../a", "a/../../b", "/x/./y/..", "shaders/lib/../common.wgsl"] {
        let once = normpath(path);
        assert_eq!(normpath(&once), once);
    }
}

#[test]
fn normpath_handles_text_beyond_ascii() {
    assert_eq!(normpath("größe/./ü/../é.wgsl"), "größe/é.wgsl");
}

#[test]
fn join_appends_relative_path() {
    assert_eq!(join_path("shaders", "lib.wgsl"), "shaders/lib.wgsl");
    assert_eq!(join_path("shaders/", "lib.wgsl"), "shaders/lib.wgsl");
}

#[test]
fn join_with_empty_base_is_the_path() {
    assert_eq!(join_path("", "lib.wgsl"), "lib.wgsl");
}

#[test]
fn join_with_absolute_path_is_the_path() {
    assert_eq!(join_path("shaders", "/abs/lib.wgsl"), "/abs/lib.wgsl");
}

#[test]
fn parent_of_file_in_directory() {
    assert_eq!(parent_path("a/b/c.wgsl"), Ok("a/b".to_string()));
    assert_eq!(parent_path("/a/c.wgsl"), Ok("/a".to_string()));
    assert_eq!(parent_path("a/b/"), Ok("a".to_string()));
}

#[test]
fn parent_of_bare_name_is_empty() {
    assert_eq!(parent_path("c.wgsl"), Ok(String::new()));
    assert_eq!(parent_path("/c.wgsl"), Ok("/".to_string()));
    assert_eq!(parent_path(".."), Ok(String::new()));
}

#[test]
fn parent_of_empty_path_and_root_is_invalid() {
    assert_eq!(parent_path(""), Err(Error::InvalidPath { path: String::new() }));
    assert_eq!(parent_path("/"), Err(Error::InvalidPath { path: "/".to_string() }));
    assert_eq!(parent_path("//"), Err(Error::InvalidPath { path: "//".to_string() }));
}

#[test]
fn normpath_keeps_parent_segment_above_the_root() {
    assert_eq!(normpath("/../a"), "/../a");
    assert_eq!(normpath("/a/../../b"), "/../b");
}

#[test]
fn normpath_keeps_other_dotted_names() {
    assert_eq!(normpath(".../a/..b/.c"), ".../a/..b/.c");
    assert_eq!(normpath("a/.../.."), "a");
}
