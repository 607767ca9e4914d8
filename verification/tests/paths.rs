use prompt_bom::order::lex_less;
use prompt_bom::paths::{display_path, join_path, path_key_of, spdx_file_name};

#[test]
fn spdx_file_names_get_a_dot_slash_prefix() {
    assert_eq!(spdx_file_name("src/lib.rs"), "./src/lib.rs");
    assert_eq!(spdx_file_name("./src/lib.rs"), "./src/lib.rs");
    assert_eq!(spdx_file_name("/abs/x"), "/abs/x");
    assert_eq!(spdx_file_name("src\\win\\x.rs"), "./src/win/x.rs");
    assert_eq!(spdx_file_name(""), "./");
}

#[test]
fn display_path_is_the_text() {
    assert_eq!(display_path("a/b"), "a/b");
}

#[test]
fn join_follows_pathbuf_push() {
    assert_eq!(join_path("/repo", "x"), "/repo/x");
    assert_eq!(join_path("/repo/", "x"), "/repo/x");
    assert_eq!(join_path("/repo", "/etc"), "/etc");
    assert_eq!(join_path("", "x"), "x");
    assert_eq!(join_path("a", ""), "a/");
}

fn lt(a: &str, b: &str) -> bool {
    lex_less(&path_key_of(a), &path_key_of(b))
}

#[test]
fn path_order_is_component_order() {
    assert!(lt("a/b", "a-b"));
    assert!(lt("/z", "a"));
    assert!(lt("a", "a/b"));
    assert!(lt("./x", "../x"));
    assert!(lt("../x", "x"));
    assert_eq!(path_key_of("a//b/"), path_key_of("a/b"));
    assert_eq!(path_key_of("a/./b"), path_key_of("a/b"));
    assert_ne!(path_key_of("./a"), path_key_of("a"));
}
