//! Nested image indexes: parsing an index blob and choosing within it.
//!
//! The blob is read outside the library; its parse and the plan for it
//! stand here.
use vstd::prelude::*;

use crate::convert::Platform;
use crate::oci::{plan_index, plan_spec, DescriptorInfo, IndexPlan, MediaKind};

verus! {

/// Declares the image crate's parsed image index to Verus; values of it are
/// only carried.
#[verifier::external_type_specification]
#[verifier::external_body]
pub struct ExImageIndex(containerregistry_image::ImageIndex);

/// What manifest choice reads of an index entry, as plain text.
pub open spec fn info_view(d: DescriptorInfo) -> (MediaKind, Option<(Seq<char>, Seq<char>)>) {
    (
        d.kind,
        match d.platform {
            Some(p) => Some((p.0@, p.1@)),
            None => None,
        },
    )
}

/// What `ImageIndex::from_bytes` makes of a blob, as manifest choice reads
/// it: the kind and platform of each entry of `manifests()`, in order, or
/// `None` where the blob does not parse as an index.
pub uninterp spec fn index_parse(bytes: Seq<u8>) -> Option<Seq<(MediaKind, Option<(Seq<char>, Seq<char>)>)>>;

/// `ImageIndex::from_bytes`: parses an OCI image index or Docker manifest
/// list from JSON. On success, the index comes back with what manifest
/// choice reads of each entry of `manifests()`, in the same order, which
/// the contract ties to [`index_parse`]; a failure comes back as the text
/// of the crate's error.
#[verifier::external_body]
fn index_descriptors(bytes: &[u8]) -> (r: std::result::Result<
    (containerregistry_image::ImageIndex, Vec<DescriptorInfo>),
    String,
>)
    ensures
        match r {
            Ok(v) => index_parse(bytes@) == Some(v.1@.map_values(|d: DescriptorInfo| info_view(d))),
            Err(_) => index_parse(bytes@) is None,
        },
{
    let index = containerregistry_image::ImageIndex::from_bytes(bytes).map_err(|e| e.to_string())?;
    let infos = index.manifests().iter().map(|d| DescriptorInfo {
        kind: if d.media_type.is_index() {
            MediaKind::Index
        } else if d.media_type.is_manifest() {
            MediaKind::Manifest
        } else {
            MediaKind::Other
        },
        platform: d.platform.as_ref().map(|p| (p.os.clone(), p.architecture.clone())),
    }).collect();
    Ok((index, infos))
}

/// Parse a nested index blob and decide what to do with it for
/// `platform`: the index, what manifest choice reads of its entries, and
/// the plan ([`plan_spec`]); or the parse error's text where the blob is
/// no index.
pub fn plan_index_blob(bytes: &[u8], platform: &Platform) -> (r: std::result::Result<
    (containerregistry_image::ImageIndex, Vec<DescriptorInfo>, IndexPlan),
    String,
>)
    ensures
        match index_parse(bytes@) {
            Some(ds) => r matches Ok(v) && ds == v.1@.map_values(|d: DescriptorInfo| info_view(d))
                && plan_spec(v.1@, platform.os_view(), platform.arch_view(), v.2),
            None => r is Err,
        },
{
    match index_descriptors(bytes) {
        Ok((index, infos)) => {
            let plan = plan_index(infos.as_slice(), platform);
            Ok((index, infos, plan))
        },
        Err(e) => Err(e),
    }
}

} // verus!
