use std::collections::HashMap;

use oci2rootfs::ext4::Ext4Writer;
use oci2rootfs::ext4_options::Ext4Options;
use oci2rootfs::overlay::{
    apply_host_entry, check_within_root, host_components, host_link_allowed, is_chardev_whiteout, layer_order,
    lower_refs, optional_xattrs, path_starts_with, to_ext4_path, HardlinkTable, HostKind,
    HostMeta, HostStep, Overlay2Source,
};
use oci2rootfs::Error;
use tempfile::NamedTempFile;

const TEST_SIZE: u64 = 16 * 1024 * 1024;

fn create_writer() -> (Ext4Writer, NamedTempFile) {
    let file = NamedTempFile::new().unwrap();
    let writer =
        Ext4Writer::create(file.path().to_str().unwrap(), TEST_SIZE, &Ext4Options::default())
            .unwrap();
    (writer, file)
}

fn meta(kind: HostKind) -> HostMeta {
    HostMeta { kind, mode: 0o644, uid: 0, gid: 0, nlink: 1, dev: 1, ino: 1, rdev: 0 }
}

#[test]
fn ext4_path_from_root() {
    assert_eq!(to_ext4_path("/tmp/diff", "/tmp/diff/usr/bin/foo"), "/usr/bin/foo");
}

#[test]
fn ext4_path_edge_cases() {
    assert_eq!(to_ext4_path("/tmp/diff", "/tmp/diff"), "/");
    assert_eq!(to_ext4_path("/tmp/diff/", "/tmp/diff/etc"), "/etc");
    assert_eq!(to_ext4_path("/tmp/diff", "/tmp/other/etc"), "//tmp/other/etc");
    assert_eq!(to_ext4_path("/tmp/di", "/tmp/diff/etc"), "//tmp/diff/etc");
    assert_eq!(to_ext4_path("layer/diff", "layer/diff/a/b"), "/a/b");
}

#[test]
fn host_components_follow_path_components() {
    for s in ["/a/b", "a//b/", "./a", ".", "", "/./x/.", "a/./b", "..", "/"] {
        let mine: Vec<&str> = host_components(s);
        let std_comps: Vec<String> = std::path::Path::new(s)
            .components()
            .map(|c| c.as_os_str().to_str().unwrap().to_string())
            .collect();
        assert_eq!(mine, std_comps, "components of {s:?}");
    }
}

#[test]
fn starts_with_is_component_wise() {
    assert!(path_starts_with("/var/lib/docker/overlay2/abc/diff", "/var/lib/docker/overlay2"));
    assert!(!path_starts_with("/var/lib/docker/overlay2x/abc", "/var/lib/docker/overlay2"));
    assert!(path_starts_with("/a/b", "/a/b/"));
    assert!(!path_starts_with("a/b", "/a"));
}

#[test]
fn lower_refs_split_and_trim() {
    assert_eq!(lower_refs("l/AAA:l/BBB\n"), vec!["l/AAA", "l/BBB"]);
    assert_eq!(lower_refs("  l/A::l/B:"), vec!["l/A", "l/B"]);
    assert!(lower_refs("").is_empty());
    assert!(lower_refs(" \n").is_empty());
}

#[test]
fn layer_order_puts_base_first_and_top_last() {
    let lowers = vec!["near".to_string(), "middle".to_string(), "base".to_string()];
    assert_eq!(layer_order(lowers, "top".to_string()), vec!["base", "middle", "near", "top"]);
    assert_eq!(layer_order(Vec::new(), "only".to_string()), vec!["only"]);
}

#[test]
fn overlay2_source_layers_bottom_to_top() {
    let src = Overlay2Source::from_chain(vec!["l1".to_string(), "l0".to_string()], "top".to_string());
    assert_eq!(src.layer_count(), 3);
    assert_eq!(src.layers(), &vec!["l0".to_string(), "l1".to_string(), "top".to_string()]);
}

#[test]
fn lower_reference_outside_root_is_refused() {
    assert!(check_within_root("/srv/overlay2/abc/diff", "/srv/overlay2").is_ok());
    match check_within_root("/etc/diff", "/srv/overlay2") {
        Err(Error::UnsupportedFormat(m)) => {
            assert_eq!(m, "lower layer reference escapes overlay2 root: /etc/diff")
        }
        other => panic!("unexpected {other:?}"),
    }
}

#[test]
fn hardlink_table_returns_first_path() {
    let mut table = HardlinkTable::new();
    assert_eq!(table.check_hardlink(1, 7, 9, "/single"), None);
    assert_eq!(table.check_hardlink(2, 7, 9, "/first"), None);
    assert_eq!(table.check_hardlink(2, 7, 9, "/second"), Some("/first".to_string()));
    assert_eq!(table.check_hardlink(3, 7, 9, "/third"), Some("/first".to_string()));
    assert_eq!(table.check_hardlink(2, 9, 7, "/other"), None);
    assert_eq!(table.check_hardlink(2, 9, 7, "/again"), Some("/other".to_string()));
}

#[test]
fn chardev_whiteout_detection() {
    assert!(is_chardev_whiteout(&meta(HostKind::CharDevice)));
    let mut m = meta(HostKind::CharDevice);
    m.rdev = 5;
    assert!(!is_chardev_whiteout(&m));
    assert!(!is_chardev_whiteout(&meta(HostKind::File)));
}

#[test]
fn optional_xattrs_drops_empty_maps() {
    let empty: HashMap<String, Vec<u8>> = HashMap::new();
    assert!(optional_xattrs(&empty).is_none());
    let mut one = HashMap::new();
    one.insert("user.k".to_string(), b"v".to_vec());
    assert!(optional_xattrs(&one).is_some());
}

#[test]
fn host_entries_apply_to_the_image() {
    let (mut writer, _file) = create_writer();
    let mut table = HardlinkTable::new();

    let step = apply_host_entry(&mut writer, &mut table, "/etc", &meta(HostKind::Directory), None, None)
        .unwrap();
    assert_eq!(step, HostStep::Descend);
    assert!(writer.is_dir("/etc"));

    let mut f = meta(HostKind::File);
    f.nlink = 2;
    let step = apply_host_entry(&mut writer, &mut table, "/etc/a", &f, None, None).unwrap();
    assert_eq!(step, HostStep::WriteFile);
    writer.write_file("/etc/a", b"a", 0o644, 0, 0).unwrap();
    let step = apply_host_entry(&mut writer, &mut table, "/etc/b", &f, None, None).unwrap();
    assert_eq!(step, HostStep::Done);
    assert!(writer.path_exists("/etc/b"));

    let step = apply_host_entry(
        &mut writer,
        &mut table,
        "/etc/l",
        &meta(HostKind::Symlink),
        Some("a"),
        None,
    )
    .unwrap();
    assert_eq!(step, HostStep::Done);
    assert!(writer.path_exists("/etc/l"));

    let step = apply_host_entry(&mut writer, &mut table, "/etc/a", &meta(HostKind::CharDevice), None, None)
        .unwrap();
    assert_eq!(step, HostStep::Done);
    assert!(!writer.path_exists("/etc/a"));

    let step = apply_host_entry(&mut writer, &mut table, "/etc/.wh.l", &meta(HostKind::File), None, None)
        .unwrap();
    assert_eq!(step, HostStep::Done);
    assert!(!writer.path_exists("/etc/l"));

    let step =
        apply_host_entry(&mut writer, &mut table, "/etc/.wh..wh..opq", &meta(HostKind::File), None, None)
            .unwrap();
    assert_eq!(step, HostStep::Done);
    assert!(writer.is_dir("/etc"));
    assert!(writer.list_dir("/etc").unwrap().is_empty());

    let step = apply_host_entry(&mut writer, &mut table, "/sock", &meta(HostKind::Other), None, None)
        .unwrap();
    assert_eq!(step, HostStep::Done);
    assert!(!writer.path_exists("/sock"));
    writer.finish().unwrap();
}

#[test]
fn host_hard_links_share_one_inode_with_two_links() {
    let file = NamedTempFile::new().unwrap();
    let mut writer =
        Ext4Writer::create(file.path().to_str().unwrap(), TEST_SIZE, &Ext4Options::default())
            .unwrap();
    let mut table = HardlinkTable::new();
    let mut f = meta(HostKind::File);
    f.nlink = 2;
    assert!(host_link_allowed(&writer, &table, "/original.bin", &f));
    let step = apply_host_entry(&mut writer, &mut table, "/original.bin", &f, None, None).unwrap();
    assert_eq!(step, HostStep::WriteFile);
    writer.write_file("/original.bin", b"shared payload", 0o644, 0, 0).unwrap();
    assert!(host_link_allowed(&writer, &table, "/linked.bin", &f));
    let step = apply_host_entry(&mut writer, &mut table, "/linked.bin", &f, None, None).unwrap();
    assert_eq!(step, HostStep::Done);
    writer.finish().unwrap();

    let mut reader = arcbox_ext4::Reader::new(file.path()).unwrap();
    let (a, ia) = reader.stat_no_follow("/original.bin").unwrap();
    let (b, ib) = reader.stat_no_follow("/linked.bin").unwrap();
    assert_eq!(a, b);
    assert_eq!(ia.links_count, 2);
    assert_eq!(ib.links_count, 2);
    assert_eq!(reader.read_file("/linked.bin", 0, None).unwrap(), b"shared payload".to_vec());
}
