use open_api_to_http::http_data::{is_query_param, Names};
use open_api_to_http::text::{join_strings, split_string, string_has_char};

#[test]
fn split_on_slashes_keeps_empty_segments() {
    let parts = split_string("a/b//c", '/');
    assert_eq!(parts, vec!["a", "b", "", "c"]);
}

#[test]
fn split_of_leading_slash_starts_with_empty_segment() {
    let parts = split_string("/users/{id}", '/');
    assert_eq!(parts, vec!["", "users", "{id}"]);
}

#[test]
fn split_of_empty_string_is_one_empty_segment() {
    let parts = split_string("", '/');
    assert_eq!(parts, vec![""]);
}

#[test]
fn join_with_slash() {
    let parts = vec![String::from("a"), String::from("b"), String::from("c")];
    assert_eq!(join_strings(&parts, "/"), "a/b/c");
}

#[test]
fn join_of_nothing_is_empty() {
    let parts: Vec<String> = Vec::new();
    assert_eq!(join_strings(&parts, "/"), "");
}

#[test]
fn string_has_char_finds_and_misses() {
    assert!(string_has_char("wh}at", '}'));
    assert!(!string_has_char("what", '}'));
    assert!(!string_has_char("", '}'));
}

#[test]
fn query_param_segments_are_recognised() {
    assert!(is_query_param("{id}"));
    assert!(is_query_param("{user-id}"));
    assert!(!is_query_param("users"));
    assert!(!is_query_param("{unclosed"));
    assert!(!is_query_param(""));
}

#[test]
fn names_strip_parameter_segments() {
    let names = Names::new(&String::from("/users/{id}/posts")).unwrap();
    assert_eq!(names.file_path, "/users/posts");
    assert_eq!(names.file_name, "posts");
    assert_eq!(names.folders, vec!["/users"]);
    assert_eq!(names.http_path, "/users/{id}/posts");
}

#[test]
fn names_build_cumulative_folder_chain() {
    let names = Names::new(&String::from("/a/b/c/d")).unwrap();
    assert_eq!(names.folders, vec!["/a", "/a/b", "/a/b/c"]);
    assert_eq!(names.file_path, "/a/b/c/d");
    assert_eq!(names.file_name, "d");
}

#[test]
fn names_of_single_segment_have_no_folders() {
    let names = Names::new(&String::from("/health")).unwrap();
    assert!(names.folders.is_empty());
    assert_eq!(names.file_path, "/health");
    assert_eq!(names.file_name, "health");
}

#[test]
fn parameter_only_path_is_rejected() {
    let err = Names::new(&String::from("/{id}")).unwrap_err();
    assert_eq!(err.path, "/{id}");
}

#[test]
fn slash_only_path_is_rejected() {
    assert!(Names::new(&String::from("/")).is_err());
    assert!(Names::new(&String::from("")).is_err());
}

#[test]
fn parameter_names_do_not_change_the_file_path() {
    let n1 = Names::new(&String::from("/a/{x}")).unwrap();
    let n2 = Names::new(&String::from("/a/{y}")).unwrap();
    assert_eq!(n1.file_path, n2.file_path);
    assert_eq!(n1.file_name, n2.file_name);
    assert_eq!(n1.folders, n2.folders);
}
