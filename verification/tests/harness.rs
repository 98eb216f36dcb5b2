use gcmalloc::harness::{
    deps_path, is_checked_test, is_interpreted_test, is_native_test, join, libgcmalloc_path,
    proj_dir, test_dir, test_extract,
};

#[test]
fn paths() {
    assert_eq!(join("a", "b"), "a/b");
    assert_eq!(join("a/", "b"), "a/b");
    assert_eq!(join("", "b"), "b");
    assert_eq!(libgcmalloc_path("/p", true), "gcmalloc=/p/target/debug/libgcmalloc.rlib");
    assert_eq!(libgcmalloc_path("/p", false), "gcmalloc=/p/target/release/libgcmalloc.rlib");
    assert_eq!(deps_path("/p", true), "dependency=/p/target/debug/deps");
    assert_eq!(deps_path("/p", false), "dependency=/p/target/release/deps");
    assert_eq!(proj_dir("/p"), "/p");
    assert_eq!(test_dir("/p"), "/p/gc_tests/tests/.");
}

#[test]
fn paths_are_those_of_std() {
    for dir in ["/p", "/p/", "p", "."] {
        let mut path = std::path::PathBuf::new();
        path.push(dir);
        path.push("target");
        path.push("debug");
        path.push("deps");
        assert_eq!(deps_path(dir, true), format!("dependency={}", path.to_str().unwrap()));
    }
}

#[test]
fn test_files() {
    assert!(is_native_test("rs", "auto_collection"));
    assert!(!is_native_test("rs", "a_valgrind_test"));
    assert!(!is_native_test("rs", "valgrind"));
    assert!(is_native_test("rs", "valgrin"));
    assert!(is_native_test("rs", ""));
    assert!(!is_native_test("md", "auto_collection"));
    assert!(is_checked_test("rs"));
    assert!(!is_checked_test("supp"));
    assert!(is_interpreted_test("rs", "miri_hello_world"));
    assert!(is_interpreted_test("rs", "miri"));
    assert!(!is_interpreted_test("rs", "a_miri"));
    assert!(!is_interpreted_test("rs", "mir"));
    assert!(!is_interpreted_test("txt", "miri_hello_world"));
}

#[test]
fn expectations() {
    let text = "// Run-time:\n//   status: success\n\nextern crate gcmalloc;\n// more\n";
    assert_eq!(test_extract(text), " Run-time:\n   status: success");
    assert_eq!(test_extract(""), "");
    assert_eq!(test_extract("fn main() {}"), "");
    assert_eq!(test_extract("//"), "");
    assert_eq!(test_extract("//a"), "a");
    assert_eq!(test_extract("//a\n"), "a");
    assert_eq!(test_extract("//\n//b"), "\nb");
    assert_eq!(test_extract("/x\n//b"), "");
    assert_eq!(test_extract("//a\r\n//b\r\nc"), "a\nb");
    assert_eq!(test_extract("//\r\n//b\r"), "\nb\r");
    for text in ["//a\r\n//b\r\nc", "//\r\n//b\r", "//é\n//ü\nx", "\n//a", "//\n\n//"] {
        let expected = text
            .lines()
            .take_while(|l| l.starts_with("//"))
            .map(|l| &l[2..])
            .collect::<Vec<_>>()
            .join("\n");
        assert_eq!(test_extract(text), expected);
    }
}
