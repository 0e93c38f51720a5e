use carver::paths::{chrooted_path, path_starts_with, safe_path_join, sanitize_path, strip_double_slash};

fn s(x: &str) -> String {
    String::from(x)
}

#[test]
fn chroot_absolute_path() {
    assert_eq!(chrooted_path(&s("/etc/passwd"), &s("/tmp/foobar")), "/tmp/foobar/etc/passwd");
}

#[test]
fn chroot_traversal_inside_absolute_path() {
    assert_eq!(chrooted_path(&s("/etc/../../passwd"), &s("/tmp/foobar")), "/tmp/foobar/passwd");
}

#[test]
fn chroot_relative_traversal_collapses_to_root() {
    assert_eq!(chrooted_path(&s("../../../etc/passwd"), &s("/tmp/foobar")), "/tmp/foobar/etc/passwd");
}

#[test]
fn containment_example() {
    let r = chrooted_path(&s("../../etc/passwd"), &s("/tmp/x"));
    assert_eq!(r, "/tmp/x/etc/passwd");
    assert!(r.starts_with("/tmp/x"));
    assert!(!r.contains(".."));
}

#[test]
fn sanitize_keeps_root_separator() {
    assert_eq!(sanitize_path(&s("/etc//passwd"), true), "/etc/passwd");
}

#[test]
fn sanitize_adds_leading_separator() {
    assert_eq!(sanitize_path(&s("a/b"), false), "/a/b");
}

#[test]
fn sanitize_cancels_enclosing_directory() {
    assert_eq!(sanitize_path(&s("a/../b"), true), "/b");
}

#[test]
fn sanitize_all_traversal_yields_prefix_only() {
    assert_eq!(sanitize_path(&s("../.."), true), "");
    assert_eq!(sanitize_path(&s("/../.."), true), "/");
    assert_eq!(sanitize_path(&s("/../.."), false), "");
}

#[test]
fn sanitize_idempotent_samples() {
    let cases = ["", "/", "..", "/..", "a//b", "/a/b/../c", "../../x", "a/./b", "////"];
    for preserve in [true, false] {
        for c in cases {
            let once = sanitize_path(&s(c), preserve);
            let twice = sanitize_path(&once, preserve);
            assert_eq!(twice, once, "input {:?} preserve {}", c, preserve);
        }
    }
}

#[test]
fn join_always_starts_with_chroot() {
    let chroot = s("/jail");
    for (a, b) in [
        ("/var", "log//../tmp"),
        ("..", "../../etc"),
        ("relative", "also/relative"),
        ("/jail/ok", "sub"),
        ("", ""),
    ] {
        let r = safe_path_join(&s(a), &s(b), &chroot);
        assert!(r.starts_with("/jail"), "{:?} + {:?} gave {:?}", a, b, r);
    }
}

#[test]
fn join_collapses_doubled_separators() {
    assert_eq!(safe_path_join(&s("/var"), &s("log//../tmp"), &s("/jail")), "/jail/var/tmp");
}

#[test]
fn join_keeps_path_already_inside_chroot() {
    assert_eq!(safe_path_join(&s("/jail/a"), &s("b"), &s("/jail")), "/jail/a/b");
}

#[test]
fn strip_double_slash_replaces_left_to_right() {
    assert_eq!(strip_double_slash(&s("a//b//c")), "a/b/c");
    assert_eq!(strip_double_slash(&s("//")), "/");
    assert_eq!(strip_double_slash(&s("///")), "//");
    assert_eq!(strip_double_slash(&s("////")), "//");
    assert_eq!(strip_double_slash(&s("no-doubles")), "no-doubles");
}

#[test]
fn starts_with_matches_textual_prefix() {
    assert!(path_starts_with("/tmp/xyz", "/tmp/x"));
    assert!(path_starts_with("/tmp/x", ""));
    assert!(!path_starts_with("/tm", "/tmp"));
}
