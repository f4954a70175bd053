use oci2rootfs::path::{
    is_canonical, join, last_component, parent_of, parse_oci_whiteout, sanitize_entry_path,
    Whiteout,
};
use oci2rootfs::Error;

#[test]
fn sanitize_accepts_absolute() {
    assert_eq!(sanitize_entry_path(b"/usr/bin/foo").unwrap(), "/usr/bin/foo");
}

#[test]
fn sanitize_accepts_relative() {
    assert_eq!(sanitize_entry_path(b"usr/bin/foo").unwrap(), "/usr/bin/foo");
    assert_eq!(sanitize_entry_path(b"./usr/bin/foo").unwrap(), "/usr/bin/foo");
}

#[test]
fn sanitize_trims_trailing_slash() {
    assert_eq!(sanitize_entry_path(b"/usr/").unwrap(), "/usr");
    assert_eq!(sanitize_entry_path(b"./etc/").unwrap(), "/etc");
}

#[test]
fn sanitize_empty_becomes_root() {
    assert_eq!(sanitize_entry_path(b"").unwrap(), "/");
    assert_eq!(sanitize_entry_path(b".").unwrap(), "/");
    assert_eq!(sanitize_entry_path(b"./").unwrap(), "/");
}

#[test]
fn sanitize_rejects_parent_dir() {
    let err = sanitize_entry_path(b"../etc/passwd").unwrap_err();
    assert!(matches!(err, Error::InvalidTarPath(_)));
}

#[test]
fn sanitize_rejects_nested_parent_dir() {
    let err = sanitize_entry_path(b"etc/../passwd").unwrap_err();
    assert!(matches!(err, Error::InvalidTarPath(_)));
}

#[test]
fn sanitize_rejects_nul_byte() {
    let err = sanitize_entry_path(b"etc/foo\0bar").unwrap_err();
    assert!(matches!(err, Error::InvalidTarPath(_)));
}

#[test]
fn sanitize_error_messages_name_the_fault_and_path() {
    match sanitize_entry_path(b"a/../b") {
        Err(Error::InvalidTarPath(m)) => assert_eq!(m, "parent-dir component in tar entry: a/../b"),
        other => panic!("unexpected {other:?}"),
    }
    match sanitize_entry_path(b"a/x\0y") {
        Err(Error::InvalidTarPath(m)) => assert_eq!(m, "NUL byte in tar entry path: a/x\0y"),
        other => panic!("unexpected {other:?}"),
    }
    match sanitize_entry_path(b"a/\xff") {
        Err(Error::InvalidTarPath(m)) => {
            assert_eq!(m, "non-UTF-8 path component: a/\u{fffd}")
        }
        other => panic!("unexpected {other:?}"),
    }
}

#[test]
fn sanitize_collapses_repeated_separators_and_dots() {
    assert_eq!(sanitize_entry_path(b"//a/./b//c/.").unwrap(), "/a/b/c");
    assert_eq!(sanitize_entry_path(b"...").unwrap(), "/...");
}

#[test]
fn sanitize_output_sanitizes_to_itself() {
    for raw in [&b"usr/bin/foo"[..], b"./etc/", b"", b"a//b/./c"] {
        let once = sanitize_entry_path(raw).unwrap();
        let twice = sanitize_entry_path(once.as_bytes()).unwrap();
        assert_eq!(once, twice);
    }
}

#[test]
fn parse_oci_whiteout_variants() {
    assert!(matches!(
        parse_oci_whiteout(".wh.resolv.conf"),
        Some(Whiteout::Delete("resolv.conf"))
    ));
    assert!(matches!(parse_oci_whiteout(".wh..wh..opq"), Some(Whiteout::Opaque)));
    assert!(parse_oci_whiteout("passwd").is_none());
    assert!(parse_oci_whiteout(".wh.").is_none());
}

#[test]
fn parent_of_cases() {
    assert_eq!(parent_of("/"), "/");
    assert_eq!(parent_of("/foo"), "/");
    assert_eq!(parent_of("/a/b/c"), "/a/b");
    assert_eq!(parent_of("/a/b/"), "/a");
}

#[test]
fn join_cases() {
    assert_eq!(join("/", "foo"), "/foo");
    assert_eq!(join("/etc", "passwd"), "/etc/passwd");
}

#[test]
fn parent_of_join_gives_the_directory_back() {
    for (dir, name) in [("/", "a"), ("/etc", "passwd"), ("/a/b", "c.txt")] {
        assert_eq!(parent_of(&join(dir, name)), dir);
    }
}

#[test]
fn last_component_cases() {
    assert_eq!(last_component("/foo"), "foo");
    assert_eq!(last_component("/a/b/c.txt"), "c.txt");
}

#[test]
fn canonical_paths() {
    assert!(is_canonical("/"));
    assert!(is_canonical("/a/b"));
    assert!(is_canonical("/..."));
    assert!(!is_canonical(""));
    assert!(!is_canonical("a/b"));
    assert!(!is_canonical("/a/"));
    assert!(!is_canonical("/a//b"));
    assert!(!is_canonical("/a/./b"));
    assert!(!is_canonical("/a/.."));
}
