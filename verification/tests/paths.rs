//! Path syntax and text helpers.

use libscoop::internal::path::{
    components, file_name, is_safe_relative, join, normalize_path, parent, strip_prefix,
    Component,
};
use libscoop::internal::text::{eq_ignore_ascii_case, join_lines, replace, to_decimal};
use libscoop::session::Platform;

fn prefix(text: &str) -> Component {
    Component::Prefix(text.to_string())
}

fn normal(text: &str) -> Component {
    Component::Normal(text.to_string())
}

#[test]
fn components_of_ordinary_paths() {
    assert_eq!(components(Platform::Windows, ""), vec![]);
    assert_eq!(components(Platform::Windows, "a/b\\c"), vec![normal("a"), normal("b"), normal("c")]);
    assert_eq!(components(Platform::Windows, "a//b/./c/"), vec![normal("a"), normal("b"), normal("c")]);
    assert_eq!(components(Platform::Windows, "./a"), vec![Component::CurDir, normal("a")]);
    assert_eq!(components(Platform::Windows, "a\\..\\b"), vec![normal("a"), Component::ParentDir, normal("b")]);
    assert_eq!(components(Platform::Windows, "\\a"), vec![Component::RootDir, normal("a")]);
}

#[test]
fn components_of_prefixed_paths() {
    assert_eq!(components(Platform::Windows, "C:\\a"), vec![prefix("C:"), Component::RootDir, normal("a")]);
    assert_eq!(components(Platform::Windows, "C:a"), vec![prefix("C:"), normal("a")]);
    assert_eq!(
        components(Platform::Windows, "\\\\server\\share\\a"),
        vec![prefix("\\\\server\\share"), Component::RootDir, normal("a")]
    );
    assert_eq!(components(Platform::Windows, "\\\\.\\COM1"), vec![prefix("\\\\.\\COM1"), Component::RootDir]);
    assert_eq!(
        components(Platform::Windows, "\\\\?\\C:\\a/b\\.\\c"),
        vec![
            prefix("\\\\?\\C:"),
            Component::RootDir,
            normal("a/b"),
            Component::CurDir,
            normal("c"),
        ]
    );
    assert_eq!(components(Platform::Windows, "\\\\?\\pictures"), vec![prefix("\\\\?\\pictures")]);
    assert_eq!(
        components(Platform::Windows, "\\\\?\\UNC\\server\\share\\x"),
        vec![prefix("\\\\?\\UNC\\server\\share"), Component::RootDir, normal("x")]
    );
}

#[test]
fn parents_and_file_names() {
    assert_eq!(parent(Platform::Windows, "C:\\a\\b"), Some("C:\\a".to_string()));
    assert_eq!(parent(Platform::Windows, "C:\\a"), Some("C:\\".to_string()));
    assert_eq!(parent(Platform::Windows, "C:\\"), None);
    assert_eq!(parent(Platform::Windows, "a"), Some("".to_string()));
    assert_eq!(parent(Platform::Windows, ""), None);
    assert_eq!(parent(Platform::Windows, "."), Some("".to_string()));
    assert_eq!(file_name(Platform::Windows, "C:\\a\\b.txt"), Some("b.txt".to_string()));
    assert_eq!(file_name(Platform::Windows, "a/b/"), Some("b".to_string()));
    assert_eq!(file_name(Platform::Windows, "a\\.."), None);
    assert_eq!(file_name(Platform::Windows, "C:\\"), None);
}

#[test]
fn joining() {
    assert_eq!(join(Platform::Windows, "C:\\a", "b"), "C:\\a\\b");
    assert_eq!(join(Platform::Windows, "C:\\a\\", "b"), "C:\\a\\b");
    assert_eq!(join(Platform::Windows, "C:\\a", "\\b"), "C:\\b");
    assert_eq!(join(Platform::Windows, "C:\\a", "D:\\b"), "D:\\b");
    assert_eq!(join(Platform::Windows, "C:\\a", "C:b"), "C:b");
    assert_eq!(join(Platform::Windows, "C:", "b"), "C:b");
    assert_eq!(join(Platform::Windows, "", "b"), "b");
    assert_eq!(join(Platform::Windows, "C:\\a", ""), "C:\\a\\");
    assert_eq!(join(Platform::Windows, "\\\\?\\C:\\a", "..\\b/./c"), "\\\\?\\C:\\b\\c");
}

#[test]
fn normal_forms() {
    assert_eq!(normalize_path(Platform::Windows, "C:\\a\\.\\b\\..\\c"), "C:\\a\\c");
    assert_eq!(normalize_path(Platform::Windows, "d\\a\\C:x"), "d\\a\\C:x");
    assert_eq!(normalize_path(Platform::Windows, "\\\\?\\C:\\a\\.\\b"), "\\\\?\\C:\\a\\b");
    assert_eq!(normalize_path(Platform::Windows, "C:/a/b"), "C:\\a\\b");
    assert_eq!(normalize_path(Platform::Windows, "C:\\..\\a"), "C:\\a");
    assert_eq!(normalize_path(Platform::Windows, "a\\..\\..\\b"), "b");
    assert_eq!(normalize_path(Platform::Windows, "\\\\server\\share\\x\\..\\y"), "\\\\server\\share\\y");
}

#[test]
fn stripping_removes_leading_components() {
    assert_eq!(strip_prefix(Platform::Windows, "a/b/c", "a"), Some("b/c".to_string()));
    assert_eq!(strip_prefix(Platform::Windows, "a/b/c/", "a\\b"), Some("c".to_string()));
    assert_eq!(strip_prefix(Platform::Windows, "a", "a"), Some("".to_string()));
    assert_eq!(strip_prefix(Platform::Windows, "ab/c", "a"), None);
    assert_eq!(strip_prefix(Platform::Windows, "a/b", "A"), None);
    assert_eq!(strip_prefix(Platform::Windows, "a/b/", ""), Some("a/b".to_string()));
}

#[test]
fn safe_paths_have_names_only() {
    assert!(is_safe_relative(Platform::Windows, "a\\b"));
    assert!(is_safe_relative(Platform::Windows, ""));
    assert!(is_safe_relative(Platform::Windows, "."));
    assert!(!is_safe_relative(Platform::Windows, "a\\..\\b"));
    assert!(!is_safe_relative(Platform::Windows, "/a"));
    assert!(!is_safe_relative(Platform::Windows, "c:"));
}

#[test]
fn safe_paths_stay_below_their_directory() {
    let base = "C:\\apps\\tool";
    let mut expected = components(Platform::Windows, base);
    expected.push(normal("x"));
    expected.push(normal("y"));
    assert_eq!(components(Platform::Windows, &join(Platform::Windows, base, ".\\x/y")), expected);
    let mut verbatim = components(Platform::Windows, "\\\\?\\C:\\apps");
    verbatim.push(normal("x"));
    assert_eq!(components(Platform::Windows, &join(Platform::Windows, "\\\\?\\C:\\apps", ".\\x")), verbatim);
}

#[test]
fn replacement_does_not_look_back() {
    assert_eq!(replace("aXbXc", "X", "XX"), "aXXbXXc");
    assert_eq!(replace("aaa", "aa", "b"), "ba");
    assert_eq!(replace("none", "X", "y"), "none");
}

#[test]
fn lists_are_joined_with_separators() {
    let parts = |list: &[&str]| list.iter().map(|s| s.to_string()).collect::<Vec<String>>();
    assert_eq!(join_lines(&parts(&[]), ";"), "");
    assert_eq!(join_lines(&parts(&["a"]), ";"), "a");
    assert_eq!(join_lines(&parts(&["a", "", "b"]), "--"), "a----b");
}

#[test]
fn numbers_are_written_in_decimal() {
    assert_eq!(to_decimal(0), "0");
    assert_eq!(to_decimal(10), "10");
    assert_eq!(to_decimal(u64::MAX), "18446744073709551615");
}

#[test]
fn case_of_ascii_letters_is_ignored() {
    assert!(eq_ignore_ascii_case("C:\\Apps", "c:\\aPPS"));
    assert!(!eq_ignore_ascii_case("a", "ab"));
    assert!(!eq_ignore_ascii_case("\u{c4}", "\u{e4}"));
    assert!(!eq_ignore_ascii_case("@", "`"));
}

#[test]
fn unix_paths_have_slashes_only() {
    assert_eq!(join(Platform::Unix, "/home/u", "apps"), "/home/u/apps");
    assert_eq!(join(Platform::Unix, "/home/u/", "apps"), "/home/u/apps");
    assert_eq!(join(Platform::Unix, "/home/u", "/etc"), "/etc");
    assert_eq!(join(Platform::Unix, "", "apps"), "apps");
    assert_eq!(parent(Platform::Unix, "/home/u"), Some("/home".to_string()));
    assert_eq!(parent(Platform::Unix, "/"), None);
    assert_eq!(file_name(Platform::Unix, "a/b\\c"), Some("b\\c".to_string()));
    assert_eq!(normalize_path(Platform::Unix, "/a/./b/../c"), "/a/c");
    assert_eq!(
        components(Platform::Unix, "/C:\\a/b"),
        vec![
            Component::RootDir,
            Component::Normal("C:\\a".to_string()),
            Component::Normal("b".to_string()),
        ]
    );
    assert!(is_safe_relative(Platform::Unix, "C:\\a"));
    assert!(!is_safe_relative(Platform::Windows, "C:\\a"));
}
