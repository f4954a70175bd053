use std::io::{Cursor, Read};

use flate2::write::GzEncoder;
use flate2::Compression;
use oci2rootfs::ext4::Ext4Writer;
use oci2rootfs::ext4_options::Ext4Options;
use oci2rootfs::layer::{apply_tar_entry, tar_link_allowed, EntryKind, TarEntryInfo};
use oci2rootfs::Error;
use tempfile::NamedTempFile;

const TEST_SIZE: u64 = 16 * 1024 * 1024;

fn create_writer() -> (Ext4Writer, NamedTempFile) {
    let file = NamedTempFile::new().unwrap();
    let writer =
        Ext4Writer::create(file.path().to_str().unwrap(), TEST_SIZE, &Ext4Options::default())
            .unwrap();
    (writer, file)
}

fn kind_of(t: tar::EntryType) -> EntryKind {
    match t {
        tar::EntryType::Regular => EntryKind::Regular,
        tar::EntryType::GNUSparse => EntryKind::GnuSparse,
        tar::EntryType::Directory => EntryKind::Directory,
        tar::EntryType::Symlink => EntryKind::Symlink,
        tar::EntryType::Link => EntryKind::Link,
        tar::EntryType::Char => EntryKind::Char,
        tar::EntryType::Block => EntryKind::Block,
        tar::EntryType::Fifo => EntryKind::Fifo,
        _ => EntryKind::Other,
    }
}

/// Read a tar stream entry by entry and apply each one.
fn apply_layer(reader: impl Read, writer: &mut Ext4Writer) -> Result<(), Error> {
    let mut archive = tar::Archive::new(reader);
    for entry in archive.entries().map_err(Error::Io)? {
        let mut entry = entry.map_err(Error::Io)?;
        let kind = kind_of(entry.header().entry_type());
        let info = TarEntryInfo {
            path: entry.path_bytes().into_owned(),
            kind,
            mode: entry.header().mode().ok(),
            uid: entry.header().uid().ok(),
            gid: entry.header().gid().ok(),
            link_name: entry.link_name_bytes().map(|b| b.into_owned()),
        };
        let mut data = Vec::new();
        if matches!(kind, EntryKind::Regular | EntryKind::GnuSparse) {
            entry.read_to_end(&mut data).map_err(Error::Io)?;
        }
        assert!(tar_link_allowed(writer, &info));
        apply_tar_entry(writer, &info, &data)?;
    }
    Ok(())
}

enum TarEntry {
    File { path: &'static str, data: Vec<u8>, mode: u32 },
    Dir { path: &'static str, mode: u32 },
    Symlink { path: &'static str, target: &'static str },
    Hardlink { path: &'static str, target: &'static str },
}

fn build_tar(entries: &[TarEntry]) -> Vec<u8> {
    let mut builder = tar::Builder::new(Vec::new());
    for entry in entries {
        match entry {
            TarEntry::File { path, data, mode } => {
                let mut header = tar::Header::new_gnu();
                header.set_size(data.len() as u64);
                header.set_mode(*mode);
                header.set_uid(0);
                header.set_gid(0);
                header.set_entry_type(tar::EntryType::Regular);
                header.set_cksum();
                builder.append_data(&mut header, path, &data[..]).unwrap();
            }
            TarEntry::Dir { path, mode } => {
                let mut header = tar::Header::new_gnu();
                header.set_size(0);
                header.set_mode(*mode);
                header.set_uid(0);
                header.set_gid(0);
                header.set_entry_type(tar::EntryType::Directory);
                header.set_cksum();
                builder.append_data(&mut header, path, &[] as &[u8]).unwrap();
            }
            TarEntry::Symlink { path, target } => {
                let mut header = tar::Header::new_gnu();
                header.set_size(0);
                header.set_mode(0o777);
                header.set_uid(0);
                header.set_gid(0);
                header.set_entry_type(tar::EntryType::Symlink);
                header.set_cksum();
                builder.append_link(&mut header, path, target).unwrap();
            }
            TarEntry::Hardlink { path, target } => {
                let mut header = tar::Header::new_gnu();
                header.set_size(0);
                header.set_mode(0o644);
                header.set_uid(0);
                header.set_gid(0);
                header.set_entry_type(tar::EntryType::Link);
                header.set_cksum();
                builder.append_link(&mut header, path, target).unwrap();
            }
        }
    }
    builder.into_inner().unwrap()
}

/// A single-entry tar stream written byte by byte, so that names a normal
/// builder refuses (`..`) can be tried.
fn build_raw_tar(name: &str, typeflag: u8, link_name: Option<&str>, data: &[u8]) -> Vec<u8> {
    let mut header = tar::Header::new_gnu();
    header.set_entry_type(tar::EntryType::Regular);
    header.set_mode(0o644);
    header.set_uid(0);
    header.set_gid(0);
    header.set_size(data.len() as u64);
    header.set_mtime(0);

    let bytes = header.as_mut_bytes();
    bytes[0..100].fill(0);
    let name_bytes = name.as_bytes();
    let n = name_bytes.len().min(100);
    bytes[..n].copy_from_slice(&name_bytes[..n]);
    bytes[156] = typeflag;
    if let Some(target) = link_name {
        bytes[157..257].fill(0);
        let target_bytes = target.as_bytes();
        let n = target_bytes.len().min(100);
        bytes[157..157 + n].copy_from_slice(&target_bytes[..n]);
    }
    header.set_cksum();

    let mut out = Vec::new();
    out.extend_from_slice(header.as_bytes());
    out.extend_from_slice(data);
    let pad = (512 - (data.len() % 512)) % 512;
    out.extend(std::iter::repeat_n(0u8, pad));
    out.extend(std::iter::repeat_n(0u8, 1024));
    out
}

fn gzip(data: &[u8]) -> Vec<u8> {
    let mut encoder = GzEncoder::new(Vec::new(), Compression::fast());
    std::io::copy(&mut Cursor::new(data), &mut encoder).unwrap();
    encoder.finish().unwrap()
}

#[test]
fn applies_regular_files_and_directories() {
    let (mut writer, _file) = create_writer();
    let tar_data = build_tar(&[
        TarEntry::Dir { path: "etc/", mode: 0o755 },
        TarEntry::File { path: "etc/hello.txt", data: b"hello".to_vec(), mode: 0o644 },
    ]);
    apply_layer(Cursor::new(tar_data), &mut writer).unwrap();
    assert!(writer.is_dir("/etc"));
    assert!(writer.path_exists("/etc/hello.txt"));
    writer.finish().unwrap();
}

#[test]
fn applies_symlink_and_hardlink() {
    let (mut writer, _file) = create_writer();
    let tar_data = build_tar(&[
        TarEntry::File { path: "target.txt", data: b"data".to_vec(), mode: 0o644 },
        TarEntry::Symlink { path: "slink", target: "/target.txt" },
        TarEntry::Hardlink { path: "hlink", target: "target.txt" },
    ]);
    apply_layer(Cursor::new(tar_data), &mut writer).unwrap();
    assert!(writer.path_exists("/slink"));
    assert!(writer.path_exists("/hlink"));
    writer.finish().unwrap();
}

#[test]
fn whiteout_delete_removes_prior_entry() {
    let (mut writer, _file) = create_writer();
    apply_layer(
        Cursor::new(build_tar(&[TarEntry::File {
            path: "etc/removeme.conf",
            data: b"config".to_vec(),
            mode: 0o644,
        }])),
        &mut writer,
    )
    .unwrap();
    assert!(writer.path_exists("/etc/removeme.conf"));

    apply_layer(
        Cursor::new(build_tar(&[TarEntry::File {
            path: "etc/.wh.removeme.conf",
            data: vec![],
            mode: 0o644,
        }])),
        &mut writer,
    )
    .unwrap();
    assert!(!writer.path_exists("/etc/removeme.conf"));
    writer.finish().unwrap();
}

#[test]
fn whiteout_opaque_clears_directory_contents() {
    let (mut writer, _file) = create_writer();
    apply_layer(
        Cursor::new(build_tar(&[
            TarEntry::Dir { path: "var/cache/", mode: 0o755 },
            TarEntry::File { path: "var/cache/a.txt", data: b"a".to_vec(), mode: 0o644 },
            TarEntry::File { path: "var/cache/b.txt", data: b"b".to_vec(), mode: 0o644 },
        ])),
        &mut writer,
    )
    .unwrap();

    apply_layer(
        Cursor::new(build_tar(&[TarEntry::File {
            path: "var/cache/.wh..wh..opq",
            data: vec![],
            mode: 0o644,
        }])),
        &mut writer,
    )
    .unwrap();

    assert!(writer.is_dir("/var/cache"));
    assert!(!writer.path_exists("/var/cache/a.txt"));
    assert!(!writer.path_exists("/var/cache/b.txt"));
    writer.finish().unwrap();
}

#[test]
fn whiteout_opaque_recursively_clears_nested_directories() {
    let (mut writer, _file) = create_writer();
    apply_layer(
        Cursor::new(build_tar(&[
            TarEntry::Dir { path: "cache/", mode: 0o755 },
            TarEntry::Dir { path: "cache/sub/", mode: 0o755 },
            TarEntry::File { path: "cache/sub/nested.txt", data: b"x".to_vec(), mode: 0o644 },
        ])),
        &mut writer,
    )
    .unwrap();

    apply_layer(
        Cursor::new(build_tar(&[TarEntry::File {
            path: "cache/.wh..wh..opq",
            data: vec![],
            mode: 0o644,
        }])),
        &mut writer,
    )
    .unwrap();

    assert!(writer.is_dir("/cache"));
    assert!(!writer.path_exists("/cache/sub"));
    assert!(!writer.path_exists("/cache/sub/nested.txt"));
    writer.finish().unwrap();
}

#[test]
fn multi_layer_delete_then_recreate() {
    let (mut writer, _file) = create_writer();
    apply_layer(
        Cursor::new(build_tar(&[TarEntry::File {
            path: "file.txt",
            data: b"first".to_vec(),
            mode: 0o644,
        }])),
        &mut writer,
    )
    .unwrap();
    apply_layer(
        Cursor::new(build_tar(&[TarEntry::File {
            path: ".wh.file.txt",
            data: vec![],
            mode: 0o644,
        }])),
        &mut writer,
    )
    .unwrap();
    apply_layer(
        Cursor::new(build_tar(&[TarEntry::File {
            path: "file.txt",
            data: b"third".to_vec(),
            mode: 0o644,
        }])),
        &mut writer,
    )
    .unwrap();

    assert!(writer.path_exists("/file.txt"));
    writer.finish().unwrap();
}

#[test]
fn rejects_parent_dir_traversal_in_entry_path() {
    let (mut writer, _file) = create_writer();
    let tar_data = build_raw_tar("../etc/passwd", b'0', None, b"hostile");
    let err = apply_layer(Cursor::new(tar_data), &mut writer).unwrap_err();
    assert!(matches!(err, Error::InvalidTarPath(_)), "expected InvalidTarPath, got {err:?}");
}

#[test]
fn rejects_parent_dir_in_hardlink_target() {
    let (mut writer, _file) = create_writer();
    apply_layer(
        Cursor::new(build_tar(&[TarEntry::File {
            path: "target.txt",
            data: b"data".to_vec(),
            mode: 0o644,
        }])),
        &mut writer,
    )
    .unwrap();

    let tar_data = build_raw_tar("link", b'1', Some("../target.txt"), b"");
    let err = apply_layer(Cursor::new(tar_data), &mut writer).unwrap_err();
    assert!(matches!(err, Error::InvalidTarPath(_)));
}

#[test]
fn empty_tar_archive_is_ok() {
    let (mut writer, _file) = create_writer();
    apply_layer(Cursor::new(build_tar(&[])), &mut writer).unwrap();
    writer.finish().unwrap();
}

#[test]
fn applies_gzipped_layer() {
    let (mut writer, _file) = create_writer();
    let tar_data = build_tar(&[TarEntry::File {
        path: "compressed.txt",
        data: b"gzip content".to_vec(),
        mode: 0o644,
    }]);
    let gzipped = gzip(&tar_data);
    let mut decoder = flate2::read::GzDecoder::new(Cursor::new(gzipped));
    apply_layer(&mut decoder, &mut writer).unwrap();
    assert!(writer.path_exists("/compressed.txt"));
    writer.finish().unwrap();
}

#[test]
fn test_apply_layer_regular_files() {
    let (mut writer, _file) = create_writer();
    let tar_data = build_tar(&[
        TarEntry::File { path: "hello.txt", data: b"hello".to_vec(), mode: 0o644 },
        TarEntry::File { path: "world.txt", data: b"world".to_vec(), mode: 0o644 },
    ]);
    apply_layer(Cursor::new(tar_data), &mut writer).unwrap();
    assert!(writer.path_exists("/hello.txt"));
    assert!(writer.path_exists("/world.txt"));
    writer.finish().unwrap();
}

#[test]
fn test_apply_layer_directories() {
    let (mut writer, _file) = create_writer();
    let tar_data = build_tar(&[
        TarEntry::Dir { path: "etc/", mode: 0o755 },
        TarEntry::Dir { path: "etc/config/", mode: 0o755 },
    ]);
    apply_layer(Cursor::new(tar_data), &mut writer).unwrap();
    assert!(writer.is_dir("/etc"));
    assert!(writer.is_dir("/etc/config"));
    writer.finish().unwrap();
}

#[test]
fn test_apply_layer_symlink() {
    let (mut writer, _file) = create_writer();
    let tar_data = build_tar(&[
        TarEntry::File { path: "target.txt", data: b"data".to_vec(), mode: 0o644 },
        TarEntry::Symlink { path: "link.txt", target: "/target.txt" },
    ]);
    apply_layer(Cursor::new(tar_data), &mut writer).unwrap();
    assert!(writer.path_exists("/target.txt"));
    assert!(writer.path_exists("/link.txt"));
    writer.finish().unwrap();
}

#[test]
fn test_apply_layer_hardlink() {
    let (mut writer, _file) = create_writer();
    let tar_data = build_tar(&[
        TarEntry::File { path: "original.txt", data: b"data".to_vec(), mode: 0o644 },
        TarEntry::Hardlink { path: "hardlink.txt", target: "original.txt" },
    ]);
    apply_layer(Cursor::new(tar_data), &mut writer).unwrap();
    assert!(writer.path_exists("/original.txt"));
    assert!(writer.path_exists("/hardlink.txt"));
    writer.finish().unwrap();
}

#[test]
fn test_apply_layer_whiteout_delete() {
    let (mut writer, _file) = create_writer();
    let base = build_tar(&[TarEntry::File {
        path: "etc/removeme.conf",
        data: b"config".to_vec(),
        mode: 0o644,
    }]);
    apply_layer(Cursor::new(base), &mut writer).unwrap();
    assert!(writer.path_exists("/etc/removeme.conf"));
    let overlay = build_tar(&[TarEntry::File {
        path: "etc/.wh.removeme.conf",
        data: vec![],
        mode: 0o644,
    }]);
    apply_layer(Cursor::new(overlay), &mut writer).unwrap();
    assert!(!writer.path_exists("/etc/removeme.conf"));
    writer.finish().unwrap();
}

#[test]
fn test_apply_layer_whiteout_opaque() {
    let (mut writer, _file) = create_writer();
    let base = build_tar(&[
        TarEntry::Dir { path: "var/cache/", mode: 0o755 },
        TarEntry::File { path: "var/cache/a.txt", data: b"a".to_vec(), mode: 0o644 },
        TarEntry::File { path: "var/cache/b.txt", data: b"b".to_vec(), mode: 0o644 },
    ]);
    apply_layer(Cursor::new(base), &mut writer).unwrap();
    assert!(writer.path_exists("/var/cache/a.txt"));
    assert!(writer.path_exists("/var/cache/b.txt"));
    let overlay = build_tar(&[TarEntry::File {
        path: "var/cache/.wh..wh..opq",
        data: vec![],
        mode: 0o644,
    }]);
    apply_layer(Cursor::new(overlay), &mut writer).unwrap();
    assert!(!writer.path_exists("/var/cache/a.txt"));
    assert!(!writer.path_exists("/var/cache/b.txt"));
    assert!(writer.is_dir("/var/cache"));
    writer.finish().unwrap();
}

#[test]
fn test_apply_layer_gzip() {
    let (mut writer, _file) = create_writer();
    let tar_data = build_tar(&[TarEntry::File {
        path: "compressed.txt",
        data: b"gzip content".to_vec(),
        mode: 0o644,
    }]);
    let gzipped = gzip(&tar_data);
    let decoder = flate2::read::GzDecoder::new(Cursor::new(gzipped));
    apply_layer(decoder, &mut writer).unwrap();
    assert!(writer.path_exists("/compressed.txt"));
    writer.finish().unwrap();
}

fn entry(path: &[u8], kind: EntryKind, link_name: Option<&[u8]>) -> TarEntryInfo {
    TarEntryInfo {
        path: path.to_vec(),
        kind,
        mode: None,
        uid: None,
        gid: None,
        link_name: link_name.map(|b| b.to_vec()),
    }
}

#[test]
fn symlink_entries_without_usable_target_are_refused() {
    let (mut writer, _file) = create_writer();
    match apply_tar_entry(&mut writer, &entry(b"a/l", EntryKind::Symlink, None), b"") {
        Err(Error::InvalidTarPath(m)) => assert_eq!(m, "symlink without target: /a/l"),
        other => panic!("unexpected {other:?}"),
    }
    match apply_tar_entry(&mut writer, &entry(b"l", EntryKind::Symlink, Some(b"\xff")), b"") {
        Err(Error::InvalidTarPath(m)) => assert_eq!(m, "non-UTF-8 symlink target: /l"),
        other => panic!("unexpected {other:?}"),
    }
    match apply_tar_entry(&mut writer, &entry(b"l", EntryKind::Symlink, Some(b"x\0y")), b"") {
        Err(Error::InvalidTarPath(m)) => assert_eq!(m, "NUL byte in tar entry target at /l"),
        other => panic!("unexpected {other:?}"),
    }
    match apply_tar_entry(&mut writer, &entry(b"h", EntryKind::Link, None), b"") {
        Err(Error::InvalidTarPath(m)) => assert_eq!(m, "hardlink without target: /h"),
        other => panic!("unexpected {other:?}"),
    }
    assert!(!writer.path_exists("/a"));
    assert!(!writer.path_exists("/l"));
}

#[test]
fn root_and_device_entries_are_skipped() {
    let (mut writer, _file) = create_writer();
    apply_tar_entry(&mut writer, &entry(b"./", EntryKind::Directory, None), b"").unwrap();
    apply_tar_entry(&mut writer, &entry(b"dev/null", EntryKind::Char, None), b"").unwrap();
    apply_tar_entry(&mut writer, &entry(b"fifo", EntryKind::Fifo, None), b"").unwrap();
    assert!(!writer.path_exists("/dev"));
    assert!(!writer.path_exists("/fifo"));
    assert_eq!(writer.list_dir("/").unwrap(), vec!["lost+found"]);
}

#[test]
fn dot_whiteouts_clear_or_do_nothing() {
    let (mut writer, _file) = create_writer();
    writer.write_file("/d/f", b"f", 0o644, 0, 0).unwrap();
    apply_tar_entry(&mut writer, &entry(b"d/.wh...", EntryKind::Regular, None), b"").unwrap();
    assert!(writer.path_exists("/d/f"));
    apply_tar_entry(&mut writer, &entry(b"d/.wh..", EntryKind::Regular, None), b"").unwrap();
    assert!(writer.is_dir("/d"));
    assert!(!writer.path_exists("/d/f"));
}

#[test]
fn directory_entry_over_a_file_fails_and_keeps_the_file() {
    let (mut writer, _file) = create_writer();
    writer.write_file("/x", b"x", 0o644, 0, 0).unwrap();
    assert!(matches!(
        apply_tar_entry(&mut writer, &entry(b"x/", EntryKind::Directory, None), b""),
        Err(Error::Ext4Format(_))
    ));
    assert!(writer.path_exists("/x"));
    assert!(!writer.is_dir("/x"));
}

#[test]
fn upper_layer_bytes_win_and_recreated_file_holds_new_bytes() {
    let file = NamedTempFile::new().unwrap();
    let mut writer =
        Ext4Writer::create(file.path().to_str().unwrap(), TEST_SIZE, &Ext4Options::default())
            .unwrap();
    apply_layer(
        Cursor::new(build_tar(&[
            TarEntry::File { path: "keep.txt", data: b"base-keep".to_vec(), mode: 0o644 },
            TarEntry::File { path: "replace.txt", data: b"base-replace".to_vec(), mode: 0o644 },
            TarEntry::File { path: "gone.txt", data: b"first".to_vec(), mode: 0o644 },
        ])),
        &mut writer,
    )
    .unwrap();
    apply_layer(
        Cursor::new(build_tar(&[
            TarEntry::File { path: "replace.txt", data: b"top-replace".to_vec(), mode: 0o644 },
            TarEntry::File { path: ".wh.gone.txt", data: vec![], mode: 0o644 },
        ])),
        &mut writer,
    )
    .unwrap();
    apply_layer(
        Cursor::new(build_tar(&[TarEntry::File {
            path: "gone.txt",
            data: b"third".to_vec(),
            mode: 0o644,
        }])),
        &mut writer,
    )
    .unwrap();
    writer.finish().unwrap();

    let mut reader = arcbox_ext4::Reader::new(file.path()).unwrap();
    assert_eq!(reader.read_file("/keep.txt", 0, None).unwrap(), b"base-keep".to_vec());
    assert_eq!(reader.read_file("/replace.txt", 0, None).unwrap(), b"top-replace".to_vec());
    assert_eq!(reader.read_file("/gone.txt", 0, None).unwrap(), b"third".to_vec());
}

#[test]
fn tar_symlink_and_hardlink_reach_the_image() {
    let file = NamedTempFile::new().unwrap();
    let mut writer =
        Ext4Writer::create(file.path().to_str().unwrap(), TEST_SIZE, &Ext4Options::default())
            .unwrap();
    apply_layer(
        Cursor::new(build_tar(&[
            TarEntry::File { path: "bin/foo", data: b"payload".to_vec(), mode: 0o755 },
            TarEntry::Symlink { path: "usr/foo", target: "../bin/foo" },
            TarEntry::Hardlink { path: "bin/bar", target: "bin/foo" },
        ])),
        &mut writer,
    )
    .unwrap();
    writer.finish().unwrap();

    let mut reader = arcbox_ext4::Reader::new(file.path()).unwrap();
    let (_, l) = reader.stat_no_follow("/usr/foo").unwrap();
    assert_eq!(&l.block[..10], b"../bin/foo");
    let (a, ia) = reader.stat_no_follow("/bin/foo").unwrap();
    let (b, _) = reader.stat_no_follow("/bin/bar").unwrap();
    assert_eq!(a, b);
    assert_eq!(ia.links_count, 2);
    assert_eq!(reader.read_file("/bin/bar", 0, None).unwrap(), b"payload".to_vec());
}
