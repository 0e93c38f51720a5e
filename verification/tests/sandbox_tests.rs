use carver::paths::chrooted_path;
use carver::sandbox::{parent_of, symlink_target_path, NodeKind, Sandbox};

fn s(x: &str) -> String {
    String::from(x)
}

#[test]
fn create_file_no_overwrite() {
    let mut fs = Sandbox::new();
    let data = [1u8, 2, 3];
    assert!(fs.create_file(&s("f"), &data, 0, 3, &s("/tmp/x")));
    assert!(!fs.create_file(&s("f"), &data, 0, 3, &s("/tmp/x")));
}

#[test]
fn create_file_rejects_bad_range() {
    let mut fs = Sandbox::new();
    let data = [1u8, 2, 3];
    assert!(!fs.create_file(&s("g"), &data, 1, 3, &s("/tmp/x")));
    assert!(!fs.create_file(&s("g"), &data, 4, 0, &s("/tmp/x")));
    assert!(fs.create_file(&s("g"), &data, 1, 2, &s("/tmp/x")));
    let content = fs.lookup_content(&s("/tmp/x/g")).unwrap();
    assert_eq!(content, vec![2u8, 3]);
}

#[test]
fn symlink_escape_is_confined() {
    let mut fs = Sandbox::new();
    assert!(fs.create_symlink(&s("symlink"), &s("../../../../etc/passwd"), &s("/tmp/x")));
    let stored = fs.lookup_link_target(&s("/tmp/x/symlink")).unwrap();
    assert_eq!(stored, "/tmp/x/etc/passwd");
    assert!(stored.starts_with("/tmp/x"));
    assert_ne!(stored, "/etc/passwd");
}

#[test]
fn symlink_absolute_target_is_confined() {
    let stored = symlink_target_path(&s("link"), &s("/etc/shadow"), &s("/tmp/x"));
    assert_eq!(stored, "/tmp/x/etc/shadow");
}

#[test]
fn symlink_refuses_existing_path() {
    let mut fs = Sandbox::new();
    assert!(fs.create_symlink(&s("l"), &s("t"), &s("/tmp/x")));
    assert!(!fs.create_symlink(&s("l"), &s("t"), &s("/tmp/x")));
}

#[test]
fn directory_creation_is_idempotent() {
    let mut fs = Sandbox::new();
    assert!(fs.create_directory(&s("d"), &s("/tmp/x")));
    assert!(fs.create_directory(&s("d"), &s("/tmp/x")));
    assert_eq!(fs.lookup_kind(&s("/tmp/x/d")), Some(NodeKind::Directory));
}

#[test]
fn directory_creation_fails_over_file() {
    let mut fs = Sandbox::new();
    let data = [0u8; 1];
    assert!(fs.create_file(&s("d"), &data, 0, 1, &s("/tmp/x")));
    assert!(!fs.create_directory(&s("d"), &s("/tmp/x")));
}

#[test]
fn append_refuses_symlink() {
    let mut fs = Sandbox::new();
    assert!(fs.create_symlink(&s("link"), &s("t"), &s("/tmp/x")));
    assert!(!fs.append_to_file(&s("link"), &[1u8], &s("/tmp/x")));
}

#[test]
fn append_creates_then_extends() {
    let mut fs = Sandbox::new();
    assert!(fs.append_to_file(&s("log"), &[1u8, 2], &s("/tmp/x")));
    assert!(fs.append_to_file(&s("log"), &[3u8], &s("/tmp/x")));
    let content = fs.lookup_content(&s("/tmp/x/log")).unwrap();
    assert_eq!(content, vec![1u8, 2, 3]);
}

#[test]
fn make_executable_needs_existing_entity() {
    let mut fs = Sandbox::new();
    assert!(!fs.make_executable(&s("missing"), &s("/tmp/x")));
    let data = [7u8];
    assert!(fs.create_file(&s("bin"), &data, 0, 1, &s("/tmp/x")));
    assert!(fs.make_executable(&s("bin"), &s("/tmp/x")));
    assert_eq!(fs.lookup_content(&s("/tmp/x/bin")).unwrap(), vec![7u8]);
}

#[test]
fn is_symlink_checks_recorded_kind() {
    let mut fs = Sandbox::new();
    assert!(fs.create_symlink(&s("link"), &s("t"), &s("/tmp/x")));
    assert!(fs.is_symlink(&s("/tmp/x/link")));
    assert!(!fs.is_symlink(&s("/tmp/x/other")));
}

#[test]
fn character_device_placeholder_contents() {
    let mut fs = Sandbox::new();
    assert!(fs.create_character_device(&s("dev/ttyS0"), 5, 7, &s("/tmp/x")));
    let content = fs.lookup_content(&s("/tmp/x/dev/ttyS0")).unwrap();
    assert_eq!(content, b"c 5 7".to_vec());
}

#[test]
fn block_device_placeholder_contents() {
    let mut fs = Sandbox::new();
    assert!(fs.create_block_device(&s("dev/sda"), 10, 200, &s("/tmp/x")));
    let content = fs.lookup_content(&s("/tmp/x/dev/sda")).unwrap();
    assert_eq!(content, b"b 10 200".to_vec());
}

#[test]
fn fifo_and_socket_placeholders() {
    let mut fs = Sandbox::new();
    assert!(fs.create_fifo(&s("p"), &s("/tmp/x")));
    assert!(fs.create_socket(&s("q"), &s("/tmp/x")));
    assert_eq!(fs.lookup_content(&s("/tmp/x/p")).unwrap(), b"fifo".to_vec());
    assert_eq!(fs.lookup_content(&s("/tmp/x/q")).unwrap(), b"socket".to_vec());
    assert!(!fs.create_fifo(&s("p"), &s("/tmp/x")));
}

#[test]
fn extracted_files_are_nonempty_regular_files() {
    let mut fs = Sandbox::new();
    let chroot = s("/");
    assert!(fs.create_directory(&s("/out/sub"), &chroot));
    let data = [9u8, 9];
    assert!(fs.create_file(&s("/out/a.bin"), &data, 0, 2, &chroot));
    assert!(fs.create_file(&s("/out/empty"), &data, 0, 0, &chroot));
    assert!(fs.create_file(&s("/elsewhere"), &data, 0, 2, &chroot));
    let files = fs.get_extracted_files(&s("/out"));
    assert_eq!(files, vec![String::from("/out/a.bin")]);
}

#[test]
fn remove_dir_all_clears_subtree() {
    let mut fs = Sandbox::new();
    let chroot = s("/");
    assert!(fs.create_directory(&s("/out"), &chroot));
    let data = [1u8];
    assert!(fs.create_file(&s("/out/a"), &data, 0, 1, &chroot));
    assert!(fs.create_file(&s("/outside"), &data, 0, 1, &chroot));
    assert!(fs.remove_dir_all(&s("/out")));
    assert!(!fs.contains_path(&s("/out")));
    assert!(!fs.contains_path(&s("/out/a")));
    assert!(fs.contains_path(&s("/outside")));
}

#[test]
fn parent_of_examples() {
    assert_eq!(parent_of(&s("/a/b")), "/a");
    assert_eq!(parent_of(&s("/a")), "/");
    assert_eq!(parent_of(&s("a")), "");
    assert_eq!(parent_of(&s("")), "/");
}

#[test]
fn chrooted_key_matches_ledger_key() {
    let mut fs = Sandbox::new();
    let data = [1u8];
    assert!(fs.create_file(&s("deep/../f"), &data, 0, 1, &s("/tmp/x")));
    let key = chrooted_path(&s("deep/../f"), &s("/tmp/x"));
    assert_eq!(key, "/tmp/x/f");
    assert!(fs.contains_path(&key));
}
