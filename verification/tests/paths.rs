use warden::paths::{basename, expand_tilde, file_name, join, normalize_dir_key, path_components, tree_path};
use warden::text::{copy_list, holds, owned, push_decimal, same_opt};

fn words(list: &[&str]) -> Vec<String> {
    list.iter().map(|s| s.to_string()).collect()
}

/// Paths of every shape.
const SHAPES: [&str; 14] = [
    "", "/", "//", ".", "..", "a", "a/", "/a", "/a//b/", "./a", "a/./b", "/a/..", "/a/.", "ä/ö",
];

#[test]
fn components_are_those_of_the_platform() {
    for s in SHAPES {
        let want: Vec<String> = std::path::Path::new(s)
            .components()
            .map(|c| c.as_os_str().to_string_lossy().into_owned())
            .collect();
        assert_eq!(path_components(s), want, "{s:?}");
    }
}

#[test]
fn file_names_are_those_of_the_platform() {
    for s in SHAPES {
        let want = std::path::Path::new(s)
            .file_name()
            .map(|n| n.to_string_lossy().into_owned());
        assert_eq!(file_name(s), want, "{s:?}");
    }
    assert_eq!(basename("/a/b"), "b");
    assert_eq!(basename("/"), "/");
    assert_eq!(basename("/a/.."), "/a/..");
}

#[test]
fn joining_is_that_of_the_platform() {
    for base in SHAPES {
        for rest in SHAPES {
            let want = std::path::Path::new(base).join(rest);
            assert_eq!(join(base, rest), want.to_string_lossy(), "{base:?} {rest:?}");
        }
    }
}

#[test]
fn only_a_leading_tilde_stands_for_home() {
    let home = Some("/h".to_string());
    assert_eq!(expand_tilde("~", &home), "/h");
    assert_eq!(expand_tilde("~/x/y", &home), "/h/x/y");
    assert_eq!(expand_tilde("~/", &home), "/h/");
    assert_eq!(expand_tilde("~x", &home), "~x");
    assert_eq!(expand_tilde("/a/~", &home), "/a/~");
    assert_eq!(expand_tilde("~/x", &None), "~/x");
}

#[test]
fn one_trailing_slash_is_no_part_of_an_identity() {
    assert_eq!(normalize_dir_key("/a/"), "/a");
    assert_eq!(normalize_dir_key("/a"), "/a");
    assert_eq!(normalize_dir_key("/"), "/");
    assert_eq!(normalize_dir_key(""), "");
}

#[test]
fn folders_lie_strictly_between() {
    assert_eq!(tree_path("/r", "/r/x/y/p"), words(&["x", "y"]));
    assert_eq!(tree_path("/r/", "/r/p"), words(&[]));
    assert_eq!(tree_path("/r", "/r"), words(&[]));
    assert_eq!(tree_path("/r", "/rr/p"), words(&[]));
}

#[test]
fn text_helpers_compare_and_copy_whole_strings() {
    let list = words(&["a", "ab"]);
    assert!(holds(&list, "ab") && !holds(&list, "b"));
    assert_eq!(copy_list(&list), list);
    assert_eq!(owned("ä"), "ä");
    assert!(same_opt(&None, &None));
    assert!(!same_opt(&Some("a".to_string()), &None));
    let mut s = "n".to_string();
    push_decimal(&mut s, 1070);
    assert_eq!(s, "n1070");
}
