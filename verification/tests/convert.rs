use oci2rootfs::convert::{check_size, estimate_needed, preflight, Platform, METADATA_OVERHEAD};
use oci2rootfs::pull::{nested_index_error, platform_manifest, RemoteRef};
use oci2rootfs::oci::{find_platform, no_manifest_error, plan_index, DescriptorInfo, IndexPlan, MediaKind};
use oci2rootfs::tar_source::{layer_compression, LayerCompression};
use oci2rootfs::Error;

fn desc(kind: MediaKind, platform: Option<(&str, &str)>) -> DescriptorInfo {
    DescriptorInfo { kind, platform: platform.map(|(o, a)| (o.to_string(), a.to_string())) }
}

#[test]
fn estimate_adds_overhead_to_layer_sizes() {
    assert_eq!(estimate_needed(&[]), 16 * 1024 * 1024);
    assert_eq!(estimate_needed(&[100, 200]), METADATA_OVERHEAD + 300);
    assert_eq!(estimate_needed(&[u64::MAX, 1]), u64::MAX);
}

#[test]
fn preflight_refuses_too_small_size() {
    match check_size(&[10], 1024 * 1024) {
        Err(Error::InsufficientSize { needed, configured }) => {
            assert!(needed > configured);
            assert_eq!(configured, 1024 * 1024);
            assert_eq!(needed, METADATA_OVERHEAD + 10);
        }
        other => panic!("expected InsufficientSize, got {other:?}"),
    }
    assert!(check_size(&[10], METADATA_OVERHEAD + 10).is_ok());
    assert!(preflight(5, 5).is_ok());
    assert!(preflight(6, 5).is_err());
}

#[test]
fn platform_defaults_and_accessors() {
    let p = Platform::default();
    assert_eq!(p.os(), "linux");
    assert_eq!(p.arch(), "amd64");
    let q = Platform::new("linux", "arm64");
    assert_eq!(q.arch(), "arm64");
    assert_eq!(q.duplicate(), q);
}

#[test]
fn remote_ref_builder() {
    let r = RemoteRef::new("nginx:latest");
    assert_eq!(r.reference(), "nginx:latest");
    assert_eq!(r.target_platform(), &Platform::default());
    assert!(!r.is_insecure());
    let r = r.platform(Platform::new("linux", "arm64")).insecure(true);
    assert_eq!(r.target_platform().arch(), "arm64");
    assert!(r.is_insecure());
    assert_eq!(r.reference(), "nginx:latest");
}

#[test]
fn single_manifest_is_taken() {
    let ds = vec![desc(MediaKind::Manifest, Some(("windows", "amd64")))];
    assert!(matches!(plan_index(&ds, &Platform::default()), IndexPlan::Take(0)));
}

#[test]
fn platform_entry_is_taken_or_descended() {
    let ds = vec![
        desc(MediaKind::Manifest, Some(("linux", "arm64"))),
        desc(MediaKind::Manifest, Some(("linux", "amd64"))),
        desc(MediaKind::Manifest, Some(("linux", "amd64"))),
    ];
    assert!(matches!(plan_index(&ds, &Platform::default()), IndexPlan::Take(1)));
    assert_eq!(find_platform(&ds, "linux", "arm64"), Some(0));
    let ds = vec![desc(MediaKind::Other, None), desc(MediaKind::Index, Some(("linux", "amd64")))];
    assert!(matches!(plan_index(&ds, &Platform::default()), IndexPlan::Descend(1)));
}

#[test]
fn search_lists_nested_indexes_and_first_manifest() {
    let ds = vec![
        desc(MediaKind::Other, None),
        desc(MediaKind::Index, None),
        desc(MediaKind::Manifest, Some(("linux", "s390x"))),
        desc(MediaKind::Index, None),
        desc(MediaKind::Manifest, None),
    ];
    match plan_index(&ds, &Platform::default()) {
        IndexPlan::Search { nested, fallback } => {
            assert_eq!(nested, vec![1, 3]);
            assert_eq!(fallback, Some(2));
        }
        _ => panic!("expected a search"),
    }
    let ds = vec![desc(MediaKind::Other, None), desc(MediaKind::Other, None)];
    match plan_index(&ds, &Platform::default()) {
        IndexPlan::Search { nested, fallback } => {
            assert!(nested.is_empty());
            assert_eq!(fallback, None);
        }
        _ => panic!("expected a search"),
    }
}

#[test]
fn no_manifest_names_the_platform() {
    match no_manifest_error(&Platform::new("linux", "riscv64")) {
        Error::NoManifest(m) => assert_eq!(m, "linux/riscv64"),
        other => panic!("unexpected {other:?}"),
    }
    let ds = vec![desc(MediaKind::Manifest, Some(("linux", "arm64")))];
    assert!(matches!(platform_manifest(&ds, &Platform::default()), Err(Error::NoManifest(_))));
    assert_eq!(platform_manifest(&ds, &Platform::new("linux", "arm64")).unwrap(), 0);
    match nested_index_error() {
        Error::UnsupportedMediaType(m) => assert_eq!(m, "nested image index not supported"),
        other => panic!("unexpected {other:?}"),
    }
}

#[test]
fn layer_media_types_choose_decoders() {
    assert_eq!(
        layer_compression("application/vnd.oci.image.layer.v1.tar+gzip").unwrap(),
        LayerCompression::Gzip
    );
    assert_eq!(
        layer_compression("application/vnd.docker.image.rootfs.diff.tar.gzip").unwrap(),
        LayerCompression::Gzip
    );
    assert_eq!(
        layer_compression("application/vnd.oci.image.layer.v1.tar+zstd").unwrap(),
        LayerCompression::Zstd
    );
    assert_eq!(
        layer_compression("application/vnd.oci.image.layer.nondistributable.v1.tar").unwrap(),
        LayerCompression::Uncompressed
    );
    match layer_compression("application/vnd.oci.image.manifest.v1+json") {
        Err(Error::UnsupportedMediaType(m)) => {
            assert_eq!(m, "application/vnd.oci.image.manifest.v1+json")
        }
        other => panic!("expected UnsupportedMediaType, got {other:?}"),
    }
}

#[test]
fn converter_builder_keeps_its_settings() {
    let c = oci2rootfs::convert::Converter::new("/tmp/out.ext4");
    assert_eq!(c.output(), "/tmp/out.ext4");
    assert_eq!(c.image_size(), 512 * 1024 * 1024);
    assert!(c.options().label_str().is_none());
    let c = c
        .size(64 * 1024 * 1024)
        .ext4_options(oci2rootfs::ext4_options::Ext4Options::new().label("root"));
    assert_eq!(c.output(), "/tmp/out.ext4");
    assert_eq!(c.image_size(), 64 * 1024 * 1024);
    assert_eq!(c.options().label_str(), Some("root"));
}

#[test]
fn image_reference_parts_and_errors() {
    let r = oci2rootfs::pull::image_reference("nginx:1.21").unwrap();
    assert_eq!(r.registry(), "index.docker.io");
    assert_eq!(r.repository(), "library/nginx");
    assert_eq!(r.specifier(), "1.21");
    assert_eq!(r.reference().tag(), Some("1.21"));

    let r = oci2rootfs::pull::image_reference("localhost:5000/myapp").unwrap();
    assert_eq!(r.registry(), "localhost:5000");
    assert_eq!(r.repository(), "myapp");
    assert_eq!(r.specifier(), "latest");

    match oci2rootfs::pull::image_reference("   ") {
        Err(oci2rootfs::Error::InvalidReference(m)) => {
            assert_eq!(m, "invalid reference: empty reference")
        }
        _ => panic!("expected InvalidReference"),
    }
    match oci2rootfs::pull::image_reference("repo:") {
        Err(oci2rootfs::Error::InvalidReference(m)) => {
            assert_eq!(m, "invalid reference: empty tag")
        }
        _ => panic!("expected InvalidReference"),
    }
}

#[test]
fn nested_index_blob_is_parsed_and_planned() {
    let digest_a = format!("sha256:{}", "a".repeat(64));
    let digest_b = format!("sha256:{}", "b".repeat(64));
    let json = format!(
        r#"{{"schemaVersion":2,"mediaType":"application/vnd.oci.image.index.v1+json","manifests":[
            {{"mediaType":"application/vnd.oci.image.manifest.v1+json","digest":"{digest_a}","size":10,"platform":{{"architecture":"amd64","os":"linux"}}}},
            {{"mediaType":"application/vnd.oci.image.manifest.v1+json","digest":"{digest_b}","size":10,"platform":{{"architecture":"arm64","os":"linux"}}}}]}}"#
    );
    let platform = oci2rootfs::convert::Platform::new("linux", "arm64");
    let (index, infos, plan) =
        oci2rootfs::index_blob::plan_index_blob(json.as_bytes(), &platform).unwrap();
    assert_eq!(index.manifests().len(), 2);
    assert_eq!(infos.len(), 2);
    assert!(matches!(plan, oci2rootfs::oci::IndexPlan::Take(1)));

    assert!(oci2rootfs::index_blob::plan_index_blob(b"not json", &platform).is_err());
}

#[test]
fn pulled_config_is_parsed() {
    let json = br#"{"architecture":"arm64","os":"linux","rootfs":{"type":"layers","diff_ids":[]}}"#;
    let pulled = oci2rootfs::pull::image_config(json).unwrap();
    assert_eq!(pulled.os(), "linux");
    assert_eq!(pulled.architecture(), "arm64");
    let config = pulled.into_config();
    assert_eq!(config.architecture, "arm64");
    assert!(oci2rootfs::pull::image_config(b"{").is_err());
}
