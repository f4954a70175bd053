//! How the blob of a tar layer is to be decoded.
use vstd::prelude::*;

use crate::error::{Error, Result};
use crate::text::str_eq;

verus! {

/// The compression of a tar layer blob.
#[derive(Clone, Copy, Debug, PartialEq, Eq)]
pub enum LayerCompression {
    Gzip,
    Zstd,
    Uncompressed,
}

/// The compression a layer media type names, if it names a tar layer the
/// library reads.
pub open spec fn compression_spec(media_type: Seq<char>) -> Option<LayerCompression> {
    if media_type == "application/vnd.oci.image.layer.v1.tar+gzip"@ || media_type
        == "application/vnd.docker.image.rootfs.diff.tar.gzip"@ || media_type
        == "application/vnd.oci.image.layer.nondistributable.v1.tar+gzip"@ {
        Some(LayerCompression::Gzip)
    } else if media_type == "application/vnd.oci.image.layer.v1.tar+zstd"@ || media_type
        == "application/vnd.oci.image.layer.nondistributable.v1.tar+zstd"@ {
        Some(LayerCompression::Zstd)
    } else if media_type == "application/vnd.oci.image.layer.v1.tar"@ || media_type
        == "application/vnd.oci.image.layer.nondistributable.v1.tar"@ {
        Some(LayerCompression::Uncompressed)
    } else {
        None
    }
}

/// The decoder a layer of the given media type needs: gzip for the gzip
/// OCI and Docker layer types, zstd for the zstd OCI types, none for the
/// plain tar OCI types. Any other media type is refused with
/// `UnsupportedMediaType`.
pub fn layer_compression(media_type: &str) -> (r: Result<LayerCompression>)
    ensures
        match compression_spec(media_type@) {
            Some(c) => r matches Ok(rc) && rc == c,
            None => r matches Err(Error::UnsupportedMediaType(m)) && m@ == media_type@,
        },
{
    if str_eq(media_type, "application/vnd.oci.image.layer.v1.tar+gzip") || str_eq(
        media_type,
        "application/vnd.docker.image.rootfs.diff.tar.gzip",
    ) || str_eq(media_type, "application/vnd.oci.image.layer.nondistributable.v1.tar+gzip") {
        Ok(LayerCompression::Gzip)
    } else if str_eq(media_type, "application/vnd.oci.image.layer.v1.tar+zstd") || str_eq(
        media_type,
        "application/vnd.oci.image.layer.nondistributable.v1.tar+zstd",
    ) {
        Ok(LayerCompression::Zstd)
    } else if str_eq(media_type, "application/vnd.oci.image.layer.v1.tar") || str_eq(
        media_type,
        "application/vnd.oci.image.layer.nondistributable.v1.tar",
    ) {
        Ok(LayerCompression::Uncompressed)
    } else {
        Err(Error::UnsupportedMediaType(String::from_str(media_type)))
    }
}

/// `m` ends with `suffix`.
pub open spec fn ends_with(m: Seq<char>, suffix: Seq<char>) -> bool {
    suffix.len() <= m.len() && m.skip(m.len() - suffix.len()) == suffix
}

/// A layer is decoded by gzip only when its media type ends in `gzip`, by
/// zstd only when it ends in `zstd`, and as plain tar only when it ends in
/// `tar`; the plain OCI layer types (distributable or not) are plain tar.
pub proof fn law_compression_follows_media_type(m: Seq<char>)
    ensures
        compression_spec(m) == Some(LayerCompression::Gzip) ==> ends_with(m, seq!['g', 'z', 'i', 'p']),
        compression_spec(m) == Some(LayerCompression::Zstd) ==> ends_with(m, seq!['z', 's', 't', 'd']),
        compression_spec(m) == Some(LayerCompression::Uncompressed) ==> ends_with(
            m,
            seq!['.', 't', 'a', 'r'],
        ),
        compression_spec("application/vnd.oci.image.layer.v1.tar"@) == Some(
            LayerCompression::Uncompressed,
        ),
        compression_spec("application/vnd.oci.image.layer.nondistributable.v1.tar"@) == Some(
            LayerCompression::Uncompressed,
        ),
{
    reveal_strlit("application/vnd.oci.image.layer.v1.tar+gzip");
    reveal_strlit("application/vnd.docker.image.rootfs.diff.tar.gzip");
    reveal_strlit("application/vnd.oci.image.layer.nondistributable.v1.tar+gzip");
    reveal_strlit("application/vnd.oci.image.layer.v1.tar+zstd");
    reveal_strlit("application/vnd.oci.image.layer.nondistributable.v1.tar+zstd");
    reveal_strlit("application/vnd.oci.image.layer.v1.tar");
    reveal_strlit("application/vnd.oci.image.layer.nondistributable.v1.tar");
    let g = "application/vnd.oci.image.layer.v1.tar+gzip"@;
    let dg = "application/vnd.docker.image.rootfs.diff.tar.gzip"@;
    let ng = "application/vnd.oci.image.layer.nondistributable.v1.tar+gzip"@;
    let z = "application/vnd.oci.image.layer.v1.tar+zstd"@;
    let nz = "application/vnd.oci.image.layer.nondistributable.v1.tar+zstd"@;
    let t = "application/vnd.oci.image.layer.v1.tar"@;
    let nt = "application/vnd.oci.image.layer.nondistributable.v1.tar"@;
    assert(g.skip(g.len() - 4) =~= seq!['g', 'z', 'i', 'p']);
    assert(dg.skip(dg.len() - 4) =~= seq!['g', 'z', 'i', 'p']);
    assert(ng.skip(ng.len() - 4) =~= seq!['g', 'z', 'i', 'p']);
    assert(z.skip(z.len() - 4) =~= seq!['z', 's', 't', 'd']);
    assert(nz.skip(nz.len() - 4) =~= seq!['z', 's', 't', 'd']);
    assert(t.skip(t.len() - 4) =~= seq!['.', 't', 'a', 'r']);
    assert(nt.skip(nt.len() - 4) =~= seq!['.', 't', 'a', 'r']);
    assert(t != g && t != dg && t != ng && t != z && t != nz) by {
        assert(t.len() != g.len() || t != g);
    }
    assert(nt != g && nt != dg && nt != ng && nt != z && nt != nz) by {
        assert(nt[nt.len() - 1] != ng[ng.len() - 1]);
    }
}

} // verus!
