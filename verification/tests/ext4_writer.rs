use oci2rootfs::ext4::Ext4Writer;
use oci2rootfs::ext4_options::Ext4Options;
use oci2rootfs::Error;
use tempfile::NamedTempFile;

const TEST_SIZE: u64 = 16 * 1024 * 1024;

fn create_writer() -> (Ext4Writer, NamedTempFile) {
    let file = NamedTempFile::new().unwrap();
    let writer =
        Ext4Writer::create(file.path().to_str().unwrap(), TEST_SIZE, &Ext4Options::default())
            .unwrap();
    (writer, file)
}

#[test]
fn mkdir_p_updates_permissions_on_existing_dir() {
    let (mut writer, _file) = create_writer();
    writer.mkdir_p_with_metadata("/etc", 0o755, None, None, None).unwrap();
    writer.mkdir_p_with_metadata("/etc", 0o700, None, None, None).unwrap();
    assert!(writer.is_dir("/etc"));
    writer.finish().unwrap();
}

#[test]
fn write_file_overwrites_existing_file() {
    let (mut writer, _file) = create_writer();
    writer.write_file_with_xattrs("/f", b"first", 0o644, 0, 0, None).unwrap();
    writer.write_file_with_xattrs("/f", b"second", 0o644, 0, 0, None).unwrap();
    assert!(writer.path_exists("/f"));
    writer.finish().unwrap();
}

#[test]
fn write_file_overwrites_existing_symlink() {
    let (mut writer, _file) = create_writer();
    writer.write_file_with_xattrs("/target", b"t", 0o644, 0, 0, None).unwrap();
    writer.symlink("/target", "/link").unwrap();
    writer.write_file_with_xattrs("/link", b"plain", 0o644, 0, 0, None).unwrap();
    assert!(writer.path_exists("/link"));
    assert!(!writer.is_dir("/link"));
    writer.finish().unwrap();
}

#[test]
fn delete_recursively_removes_nested_directory() {
    let (mut writer, _file) = create_writer();
    writer.mkdir_p_with_metadata("/a", 0o755, None, None, None).unwrap();
    writer.mkdir_p_with_metadata("/a/b", 0o755, None, None, None).unwrap();
    writer.write_file_with_xattrs("/a/b/c.txt", b"c", 0o644, 0, 0, None).unwrap();

    writer.delete("/a").unwrap();

    assert!(!writer.path_exists("/a"));
    assert!(!writer.path_exists("/a/b/c.txt"));
    writer.finish().unwrap();
}

#[test]
fn delete_missing_path_is_noop() {
    let (mut writer, _file) = create_writer();
    writer.delete("/does/not/exist").unwrap();
    writer.finish().unwrap();
}

#[test]
fn clear_dir_leaves_directory_in_place() {
    let (mut writer, _file) = create_writer();
    writer.mkdir_p_with_metadata("/cache", 0o755, None, None, None).unwrap();
    writer.write_file_with_xattrs("/cache/a", b"a", 0o644, 0, 0, None).unwrap();
    writer.mkdir_p_with_metadata("/cache/sub", 0o755, None, None, None).unwrap();
    writer.write_file_with_xattrs("/cache/sub/b", b"b", 0o644, 0, 0, None).unwrap();

    writer.clear_dir("/cache").unwrap();

    assert!(writer.is_dir("/cache"));
    assert!(!writer.path_exists("/cache/a"));
    assert!(!writer.path_exists("/cache/sub"));
    writer.finish().unwrap();
}

#[test]
fn test_mkdir_and_exists() {
    let (mut writer, _file) = create_writer();
    writer.mkdir_p("/testdir", 0o755).unwrap();
    assert!(writer.path_exists("/testdir"));
    assert!(writer.is_dir("/testdir"));
    writer.finish().unwrap();
}

#[test]
fn test_mkdir_idempotent() {
    let (mut writer, _file) = create_writer();
    writer.mkdir_p("/testdir", 0o755).unwrap();
    writer.mkdir_p("/testdir", 0o700).unwrap();
    assert!(writer.is_dir("/testdir"));
    writer.finish().unwrap();
}

#[test]
fn test_write_file() {
    let (mut writer, _file) = create_writer();
    writer.write_file("/hello.txt", b"hello world", 0o644, 0, 0).unwrap();
    assert!(writer.path_exists("/hello.txt"));
    writer.finish().unwrap();
}

#[test]
fn test_write_file_overwrite() {
    let (mut writer, _file) = create_writer();
    writer.write_file("/file.txt", b"first", 0o644, 0, 0).unwrap();
    writer.write_file("/file.txt", b"second", 0o644, 0, 0).unwrap();
    assert!(writer.path_exists("/file.txt"));
    writer.finish().unwrap();
}

#[test]
fn test_symlink() {
    let (mut writer, _file) = create_writer();
    writer.write_file("/target.txt", b"data", 0o644, 0, 0).unwrap();
    writer.symlink("/target.txt", "/link.txt").unwrap();
    assert!(writer.path_exists("/link.txt"));
    writer.finish().unwrap();
}

#[test]
fn test_link() {
    let (mut writer, _file) = create_writer();
    writer.write_file("/original.txt", b"data", 0o644, 0, 0).unwrap();
    writer.link("/original.txt", "/hardlink.txt").unwrap();
    assert!(writer.path_exists("/hardlink.txt"));
    writer.finish().unwrap();
}

#[test]
fn test_remove() {
    let (mut writer, _file) = create_writer();
    writer.write_file("/removeme.txt", b"data", 0o644, 0, 0).unwrap();
    assert!(writer.path_exists("/removeme.txt"));
    writer.remove("/removeme.txt").unwrap();
    assert!(!writer.path_exists("/removeme.txt"));
    writer.finish().unwrap();
}

#[test]
fn test_rmdir() {
    let (mut writer, _file) = create_writer();
    writer.mkdir_p("/emptydir", 0o755).unwrap();
    assert!(writer.is_dir("/emptydir"));
    writer.rmdir("/emptydir").unwrap();
    assert!(!writer.is_dir("/emptydir"));
    writer.finish().unwrap();
}

#[test]
fn test_list_dir() {
    let (mut writer, _file) = create_writer();
    writer.mkdir_p("/parent", 0o755).unwrap();
    writer.write_file("/parent/a.txt", b"a", 0o644, 0, 0).unwrap();
    writer.write_file("/parent/b.txt", b"b", 0o644, 0, 0).unwrap();
    writer.mkdir_p("/parent/subdir", 0o755).unwrap();

    let mut entries = writer.list_dir("/parent").unwrap();
    entries.sort();
    assert_eq!(entries, vec!["a.txt", "b.txt", "subdir"]);
    writer.finish().unwrap();
}

#[test]
fn test_set_permissions_and_owner() {
    let (mut writer, _file) = create_writer();
    writer.write_file("/perm.txt", b"data", 0o644, 0, 0).unwrap();
    writer.set_permissions("/perm.txt", 0o600).unwrap();
    writer.set_owner("/perm.txt", 1000, 1000).unwrap();
    writer.finish().unwrap();
}

#[test]
fn fresh_image_holds_root_and_lost_found() {
    let (writer, _file) = create_writer();
    assert!(writer.is_dir("/"));
    assert!(writer.is_dir("/lost+found"));
    assert_eq!(writer.list_dir("/").unwrap(), vec!["lost+found"]);
    writer.finish().unwrap();
}

#[test]
fn set_owner_on_missing_path_fails() {
    let (mut writer, _file) = create_writer();
    assert!(matches!(writer.set_owner("/nope", 1, 1), Err(Error::Ext4Format(_))));
    assert!(matches!(writer.set_permissions("/nope", 0o600), Err(Error::Ext4Format(_))));
    writer.finish().unwrap();
}

#[test]
fn mkdir_over_a_file_fails() {
    let (mut writer, _file) = create_writer();
    writer.write_file("/f", b"x", 0o644, 0, 0).unwrap();
    assert!(matches!(writer.mkdir_p("/f", 0o755), Err(Error::Ext4Format(_))));
    assert!(writer.path_exists("/f"));
    assert!(!writer.is_dir("/f"));
    writer.finish().unwrap();
}

#[test]
fn write_file_creates_missing_parents() {
    let (mut writer, _file) = create_writer();
    writer.write_file("/x/y/z.txt", b"z", 0o644, 0, 0).unwrap();
    assert!(writer.is_dir("/x"));
    assert!(writer.is_dir("/x/y"));
    assert!(writer.path_exists("/x/y/z.txt"));
    writer.finish().unwrap();
}

#[test]
fn write_file_at_root_fails() {
    let (mut writer, _file) = create_writer();
    assert!(matches!(writer.write_file("/", b"x", 0o644, 0, 0), Err(Error::Ext4Format(_))));
}

#[test]
fn hard_link_to_missing_target_fails() {
    let (mut writer, _file) = create_writer();
    assert!(matches!(writer.link("/missing", "/l"), Err(Error::Ext4Format(_))));
    assert!(!writer.path_exists("/l"));
}

#[test]
fn deleting_root_empties_it() {
    let (mut writer, _file) = create_writer();
    writer.write_file("/a/b", b"b", 0o644, 0, 0).unwrap();
    writer.delete("/").unwrap();
    assert!(writer.is_dir("/"));
    assert!(writer.list_dir("/").unwrap().is_empty());
}

#[test]
fn create_rejects_oversized_label() {
    let file = NamedTempFile::new().unwrap();
    let opts = Ext4Options::new().label("this-label-is-way-too-long");
    match Ext4Writer::create(file.path().to_str().unwrap(), TEST_SIZE, &opts) {
        Err(Error::InvalidLabel(m)) => assert_eq!(m, "this-label-is-way-too-long"),
        Err(e) => panic!("expected InvalidLabel, got {e:?}"),
        Ok(_) => panic!("expected InvalidLabel"),
    }
}

#[test]
fn create_rejects_label_with_nul() {
    let file = NamedTempFile::new().unwrap();
    let opts = Ext4Options::new().label("a\0b");
    assert!(matches!(
        Ext4Writer::create(file.path().to_str().unwrap(), TEST_SIZE, &opts),
        Err(Error::InvalidLabel(_))
    ));
}

#[test]
fn create_accepts_sixteen_byte_label_and_uuid() {
    let file = NamedTempFile::new().unwrap();
    let uuid = uuid::Uuid::parse_str("12345678-1234-1234-1234-123456789abc").unwrap();
    let opts = Ext4Options::new().label("0123456789abcdef").uuid(uuid);
    assert_eq!(opts.label_str(), Some("0123456789abcdef"));
    assert_eq!(opts.uuid_value(), Some(uuid));
    let writer = Ext4Writer::create(file.path().to_str().unwrap(), TEST_SIZE, &opts).unwrap();
    writer.finish().unwrap();
}

#[test]
fn label_and_uuid_reach_the_superblock() {
    let file = NamedTempFile::new().unwrap();
    let uuid = uuid::Uuid::parse_str("12345678-1234-1234-1234-123456789abc").unwrap();
    let opts = Ext4Options::new().label("alpine-boot").uuid(uuid);
    let mut writer = Ext4Writer::create(file.path().to_str().unwrap(), TEST_SIZE, &opts).unwrap();
    writer.write_file("/etc/os-release", b"alpine", 0o644, 0, 0).unwrap();
    writer.finish().unwrap();

    let reader = arcbox_ext4::Reader::new(file.path()).unwrap();
    let sb = reader.superblock();
    let label = std::str::from_utf8(&sb.volume_name).unwrap().trim_end_matches('\0');
    assert_eq!(label, "alpine-boot");
    assert_eq!(sb.uuid, *uuid.as_bytes());
}

/// Find the inode of an absolute path in a finished image.
fn inode_at(reader: &mut arcbox_ext4::Reader, path: &str) -> arcbox_ext4::types::Inode {
    let mut ino: u32 = 2;
    for name in path.split('/').filter(|s| !s.is_empty()) {
        let children = reader.children_of(ino).unwrap();
        ino = children.iter().find(|(n, _)| n == name).map(|(_, i)| *i).expect("entry present");
    }
    reader.get_inode(ino).unwrap()
}

#[test]
fn modes_and_owners_reach_the_image() {
    let file = NamedTempFile::new().unwrap();
    let mut writer =
        Ext4Writer::create(file.path().to_str().unwrap(), TEST_SIZE, &Ext4Options::default())
            .unwrap();
    writer.mkdir_p_with_metadata("/srv", 0o750, Some(1000), Some(100), None).unwrap();
    writer.write_file("/srv/data/f", b"x", 0o100640, 7, 8).unwrap();
    writer.mkdir_p("/etc", 0o755).unwrap();
    writer.mkdir_p("/etc", 0o700).unwrap();
    writer.set_owner("/etc", 5, 6).unwrap();
    writer.finish().unwrap();

    let mut reader = arcbox_ext4::Reader::new(file.path()).unwrap();
    let srv = inode_at(&mut reader, "/srv");
    assert_eq!(srv.mode, 0x4000 | 0o750);
    assert_eq!((srv.uid, srv.gid), (1000, 100));
    let data = inode_at(&mut reader, "/srv/data");
    assert_eq!(data.mode, 0x4000 | 0o755);
    assert_eq!((data.uid, data.gid), (1000, 100));
    let f = inode_at(&mut reader, "/srv/data/f");
    assert_eq!(f.mode, 0x8000 | 0o640);
    assert_eq!((f.uid, f.gid), (7, 8));
    let etc = inode_at(&mut reader, "/etc");
    assert_eq!(etc.mode, 0x4000 | 0o700);
    assert_eq!((etc.uid, etc.gid), (5, 6));
}

#[test]
fn written_bytes_reach_the_image_and_a_rewrite_replaces_them() {
    let file = NamedTempFile::new().unwrap();
    let mut writer =
        Ext4Writer::create(file.path().to_str().unwrap(), TEST_SIZE, &Ext4Options::default())
            .unwrap();
    writer.write_file("/f", b"first", 0o644, 0, 0).unwrap();
    writer.write_file("/f", b"second!", 0o644, 0, 0).unwrap();
    writer.write_file("/dir/empty", b"", 0o600, 0, 0).unwrap();
    writer.finish().unwrap();

    let mut reader = arcbox_ext4::Reader::new(file.path()).unwrap();
    assert_eq!(reader.read_file("/f", 0, None).unwrap(), b"second!".to_vec());
    assert_eq!(reader.read_file("/dir/empty", 0, None).unwrap(), Vec::<u8>::new());
}

#[test]
fn symlink_target_is_stored_verbatim() {
    let file = NamedTempFile::new().unwrap();
    let mut writer =
        Ext4Writer::create(file.path().to_str().unwrap(), TEST_SIZE, &Ext4Options::default())
            .unwrap();
    writer.symlink("../bin/foo", "/usr/l").unwrap();
    let long = "a/".repeat(40) + "end";
    writer.symlink(&long, "/long").unwrap();
    writer.finish().unwrap();

    let mut reader = arcbox_ext4::Reader::new(file.path()).unwrap();
    let (_, l) = reader.stat_no_follow("/usr/l").unwrap();
    assert_eq!(l.file_size(), 10);
    assert_eq!(&l.block[..10], b"../bin/foo");
    let (_, long_inode) = reader.stat_no_follow("/long").unwrap();
    assert_eq!(long_inode.file_size(), long.len() as u64);
}

#[test]
fn hard_link_shares_the_target_inode() {
    let file = NamedTempFile::new().unwrap();
    let mut writer =
        Ext4Writer::create(file.path().to_str().unwrap(), TEST_SIZE, &Ext4Options::default())
            .unwrap();
    writer.write_file("/original.bin", b"shared payload", 0o644, 0, 0).unwrap();
    assert!(writer.has_link_room("/original.bin"));
    writer.link("/original.bin", "/linked.bin").unwrap();
    writer.finish().unwrap();

    let mut reader = arcbox_ext4::Reader::new(file.path()).unwrap();
    let (a, ia) = reader.stat_no_follow("/original.bin").unwrap();
    let (b, ib) = reader.stat_no_follow("/linked.bin").unwrap();
    assert_eq!(a, b);
    assert_eq!(ia.links_count, 2);
    assert_eq!(ib.links_count, 2);
    assert_eq!(reader.read_file("/linked.bin", 0, None).unwrap(), b"shared payload".to_vec());
}

#[test]
fn existing_directory_keeps_its_xattrs_on_mkdir() {
    let file = NamedTempFile::new().unwrap();
    let mut writer =
        Ext4Writer::create(file.path().to_str().unwrap(), TEST_SIZE, &Ext4Options::default())
            .unwrap();
    let mut xattrs = std::collections::HashMap::new();
    xattrs.insert("user.tag".to_string(), b"v".to_vec());
    writer.mkdir_p_with_metadata("/d", 0o755, None, None, Some(&xattrs)).unwrap();
    writer.mkdir_p_with_metadata("/d", 0o700, Some(3), None, None).unwrap();
    writer.finish().unwrap();

    let mut reader = arcbox_ext4::Reader::new(file.path()).unwrap();
    let (_, d) = reader.stat_no_follow("/d").unwrap();
    assert_eq!(d.mode, 0x4000 | 0o700);
    assert_eq!((d.uid, d.gid), (3, 0));
}
