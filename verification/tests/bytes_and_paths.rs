use hokori::bytes::{find_byte, read_uint, same_bytes, ByteOrder};
use hokori::paths::{find_root, join_child, path_has_prefix};

#[test]
fn test_path_has_prefix_component_boundary() {
    assert!(path_has_prefix(b"/tmp/root/file", b"/tmp/root"));
    assert!(path_has_prefix(b"./a/b", b"."));
    assert!(!path_has_prefix(b"/tmp/root2/file", b"/tmp/root"));
    assert!(!path_has_prefix(b"./abc", b"./a"));
}

#[test]
fn prefix_of_special_roots() {
    assert!(path_has_prefix(b"anything", b""));
    assert!(path_has_prefix(b"/etc", b"/"));
    assert!(!path_has_prefix(b"etc", b"/"));
    assert!(path_has_prefix(b"/tmp/", b"/tmp/"));
    assert!(path_has_prefix(b"/tmp/x", b"/tmp/"));
    assert!(!path_has_prefix(b"/tmp", b"/tmp/"));
    assert!(path_has_prefix(b"/tmp", b"/tmp"));
}

#[test]
fn prefixes_are_reflexive_and_transitive() {
    let root: &[u8] = b"/a";
    let middle: &[u8] = b"/a/b";
    let path: &[u8] = b"/a/b/c";
    assert!(path_has_prefix(path, path));
    assert!(path_has_prefix(middle, root));
    assert!(path_has_prefix(path, middle));
    assert!(path_has_prefix(path, root));
}

#[test]
fn child_paths() {
    assert_eq!(join_child(b"/tmp", b"x"), b"/tmp/x".to_vec());
    assert_eq!(join_child(b"/", b"x"), b"/x".to_vec());
    assert_eq!(join_child(b"", b"x"), b"x".to_vec());
    assert!(path_has_prefix(&join_child(b"/tmp/r", b"x"), b"/tmp/r"));
}

#[test]
fn first_root_wins() {
    let roots = vec![b"/a/b".to_vec(), b"/a".to_vec(), b"/a/b".to_vec()];
    assert_eq!(find_root(b"/a/b/c", &roots), Some(0));
    assert_eq!(find_root(b"/a/c", &roots), Some(1));
    assert_eq!(find_root(b"/ab", &roots), None);
}

#[test]
fn integers_in_both_orders() {
    let buf = [0x01u8, 0x02, 0x03, 0x04, 0x05, 0x06, 0x07, 0x08, 0xff];
    assert_eq!(read_uint(&buf, 0, 2, ByteOrder::Little), 0x0201);
    assert_eq!(read_uint(&buf, 0, 2, ByteOrder::Big), 0x0102);
    assert_eq!(read_uint(&buf, 1, 8, ByteOrder::Little), 0xff08_0706_0504_0302);
    assert_eq!(read_uint(&buf, 1, 8, ByteOrder::Big), 0x0203_0405_0607_08ff);
    assert_eq!(read_uint(&buf, 3, 0, ByteOrder::Little), 0);
}

#[test]
fn searching_bytes() {
    assert_eq!(find_byte(b"abc", b'c'), 2);
    assert_eq!(find_byte(b"abc", b'x'), 3);
    assert_eq!(find_byte(b"", b'x'), 0);
    assert!(same_bytes(b"ab", b"ab"));
    assert!(!same_bytes(b"ab", b"ac"));
    assert!(!same_bytes(b"ab", b"abc"));
}
