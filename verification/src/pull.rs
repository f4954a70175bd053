//! A remote registry reference, and the choice of its platform manifest.
//!
//! The registry is reached outside the library; what is decided from its
//! answers stands here.
use vstd::prelude::*;

use crate::convert::Platform;
use crate::error::{Error, Result};
use crate::oci::{find_platform, first_platform_match, no_manifest_error, DescriptorInfo};

verus! {

/// Builder for a remote registry reference that will be fetched into
/// memory.
pub struct RemoteRef {
    reference: String,
    platform: Platform,
    insecure: bool,
}

impl RemoteRef {
    /// The image reference string.
    pub closed spec fn reference_view(&self) -> Seq<char> {
        self.reference@
    }

    /// The platform the manifest is chosen for, as `(os, arch)`.
    pub closed spec fn platform_view(&self) -> (Seq<char>, Seq<char>) {
        (self.platform.os_view(), self.platform.arch_view())
    }

    /// Whether plain-HTTP registry connections are allowed.
    pub closed spec fn insecure_view(&self) -> bool {
        self.insecure
    }

    /// Create a remote reference builder from an image reference string,
    /// for `linux/amd64` over HTTPS.
    pub fn new(reference: &str) -> (r: Self)
        ensures
            r.reference_view() == reference@,
            r.platform_view() == ("linux"@, "amd64"@),
            !r.insecure_view(),
    {
        RemoteRef {
            reference: String::from_str(reference),
            platform: Platform::default(),
            insecure: false,
        }
    }

    /// Override the platform used when resolving the remote manifest.
    pub fn platform(self, platform: Platform) -> (r: Self)
        ensures
            r.reference_view() == self.reference_view(),
            r.platform_view() == (platform.os_view(), platform.arch_view()),
            r.insecure_view() == self.insecure_view(),
    {
        RemoteRef { reference: self.reference, platform, insecure: self.insecure }
    }

    /// Allow insecure (HTTP) registry connections for this reference.
    pub fn insecure(self, insecure: bool) -> (r: Self)
        ensures
            r.reference_view() == self.reference_view(),
            r.platform_view() == self.platform_view(),
            r.insecure_view() == insecure,
    {
        RemoteRef { reference: self.reference, platform: self.platform, insecure }
    }

    /// The image reference string.
    pub fn reference(&self) -> (s: &str)
        ensures
            s@ == self.reference_view(),
    {
        self.reference.as_str()
    }

    /// The platform the manifest is chosen for.
    pub fn target_platform(&self) -> (p: &Platform)
        ensures
            (p.os_view(), p.arch_view()) == self.platform_view(),
    {
        &self.platform
    }

    /// Whether plain-HTTP registry connections are allowed.
    pub fn is_insecure(&self) -> (b: bool)
        ensures
            b == self.insecure_view(),
    {
        self.insecure
    }
}

/// The entry of a remote image index to fetch for `platform`: the first one
/// for the platform, or `NoManifest` naming it.
pub fn platform_manifest(ds: &[DescriptorInfo], platform: &Platform) -> (r: Result<usize>)
    ensures
        match first_platform_match(ds@, platform.os_view(), platform.arch_view()) {
            Some(i) => r == Ok::<usize, Error>(i as usize),
            None => r matches Err(Error::NoManifest(m)) && m@ == platform.os_view() + "/"@
                + platform.arch_view(),
        },
{
    match find_platform(ds, platform.os(), platform.arch()) {
        Some(i) => Ok(i),
        None => Err(no_manifest_error(platform)),
    }
}

/// The error for a platform entry that resolves to another image index:
/// nested indexes are not followed for remote images.
pub fn nested_index_error() -> (e: Error)
    ensures
        e matches Error::UnsupportedMediaType(m) && m@ == "nested image index not supported"@,
{
    Error::UnsupportedMediaType(String::from_str("nested image index not supported"))
}

/// Declares the registry client's parsed image reference to Verus; values
/// of it are only carried.
#[verifier::external_type_specification]
#[verifier::external_body]
pub struct ExReference(containerregistry_registry::Reference);

/// What `Reference::from_str` makes of an image reference string: its
/// registry, repository and tag-or-digest text, or the text of the error
/// it reports.
pub uninterp spec fn reference_parse(s: Seq<char>) -> std::result::Result<(Seq<char>, Seq<char>, Seq<char>), Seq<char>>;

/// The parts and error text a reference parse hands back, as plain text.
pub open spec fn parse_outcome(
    r: std::result::Result<(containerregistry_registry::Reference, (String, String, String)), String>,
) -> std::result::Result<(Seq<char>, Seq<char>, Seq<char>), Seq<char>> {
    match r {
        Ok(v) => Ok((v.1.0@, v.1.1@, v.1.2@)),
        Err(m) => Err(m@),
    }
}

/// `Reference::from_str` (`s.parse::<Reference>()`): parses an image
/// reference (`[registry/]repository[:tag|@digest]`, with Docker Hub's
/// defaults). The parsed reference comes back with its registry,
/// repository and tag-or-digest text, which the contract ties to
/// [`reference_parse`]; a failure comes back as its error's text.
#[verifier::external_body]
fn parse_reference(s: &str) -> (r: std::result::Result<
    (containerregistry_registry::Reference, (String, String, String)),
    String,
>)
    ensures
        reference_parse(s@) == parse_outcome(r),
{
    match s.parse::<containerregistry_registry::Reference>() {
        Ok(r) => {
            let parts = (r.registry().to_string(), r.repository().to_string(), r.reference());
            Ok((r, parts))
        },
        Err(e) => Err(e.to_string()),
    }
}

/// A parsed image reference: the registry client's value, with its
/// registry, repository and tag-or-digest text.
pub struct ImageRef {
    parsed: containerregistry_registry::Reference,
    registry: String,
    repository: String,
    specifier: String,
}

impl ImageRef {
    /// The registry, repository and tag-or-digest text.
    pub closed spec fn parts(&self) -> (Seq<char>, Seq<char>, Seq<char>) {
        (self.registry@, self.repository@, self.specifier@)
    }

    /// The registry client's value.
    pub closed spec fn parsed_view(&self) -> containerregistry_registry::Reference {
        self.parsed
    }

    /// The registry host.
    pub fn registry(&self) -> (r: &str)
        ensures
            r@ == self.parts().0,
    {
        self.registry.as_str()
    }

    /// The repository path.
    pub fn repository(&self) -> (r: &str)
        ensures
            r@ == self.parts().1,
    {
        self.repository.as_str()
    }

    /// The tag or digest text.
    pub fn specifier(&self) -> (r: &str)
        ensures
            r@ == self.parts().2,
    {
        self.specifier.as_str()
    }

    /// The registry client's value, for fetching.
    pub fn reference(&self) -> (r: &containerregistry_registry::Reference)
        ensures
            *r == self.parsed_view(),
    {
        &self.parsed
    }
}

/// Parse an image reference string: its parts, or
/// [`Error::InvalidReference`] carrying the parser's message.
pub fn image_reference(s: &str) -> (r: Result<ImageRef>)
    ensures
        match reference_parse(s@) {
            Ok(p) => r matches Ok(i) && i.parts() == p,
            Err(m) => r matches Err(Error::InvalidReference(x)) && x@ == m,
        },
{
    match parse_reference(s) {
        Ok((parsed, (registry, repository, specifier))) => Ok(
            ImageRef { parsed, registry, repository, specifier },
        ),
        Err(m) => Err(invalid_reference(m)),
    }
}

/// Declares the image crate's parsed image config to Verus; values of it
/// are only carried.
#[verifier::external_type_specification]
#[verifier::external_body]
pub struct ExImageConfig(containerregistry_image::ImageConfig);

/// What `ImageConfig::from_bytes` makes of a config blob, as plain text: its
/// operating system and architecture, or `None` where the blob does not
/// parse as an image config.
pub uninterp spec fn config_parse(bytes: Seq<u8>) -> Option<(Seq<char>, Seq<char>)>;

/// `ImageConfig::from_bytes`: parses an image config from JSON bytes. On
/// success the config comes back with its `os` and `architecture` fields,
/// which the contract ties to [`config_parse`]; a failure comes back as the
/// text of the crate's error.
#[verifier::external_body]
fn parse_image_config(bytes: &[u8]) -> (r: std::result::Result<
    (containerregistry_image::ImageConfig, (String, String)),
    String,
>)
    ensures
        config_parse(bytes@) == match r {
            Ok(v) => Some((v.1.0@, v.1.1@)),
            Err(_) => None,
        },
{
    match containerregistry_image::ImageConfig::from_bytes(bytes) {
        Ok(c) => {
            let parts = (c.os.clone(), c.architecture.clone());
            Ok((c, parts))
        },
        Err(e) => Err(e.to_string()),
    }
}

/// A pulled image's config, with the platform it names.
pub struct PulledConfig {
    config: containerregistry_image::ImageConfig,
    os: String,
    architecture: String,
}

impl PulledConfig {
    /// The config's operating system and architecture.
    pub closed spec fn platform_view(&self) -> (Seq<char>, Seq<char>) {
        (self.os@, self.architecture@)
    }

    /// The parsed config.
    pub closed spec fn config_value(&self) -> containerregistry_image::ImageConfig {
        self.config
    }

    /// The config's operating system.
    pub fn os(&self) -> (r: &str)
        ensures
            r@ == self.platform_view().0,
    {
        self.os.as_str()
    }

    /// The config's architecture.
    pub fn architecture(&self) -> (r: &str)
        ensures
            r@ == self.platform_view().1,
    {
        self.architecture.as_str()
    }

    /// The parsed config, for the image source to expose.
    pub fn into_config(self) -> (c: containerregistry_image::ImageConfig)
        ensures
            c == self.config_value(),
    {
        self.config
    }
}

/// Parse the config blob of a pulled image: the config with the platform
/// it names, or the parse error's text where the blob is no image config.
pub fn image_config(bytes: &[u8]) -> (r: std::result::Result<PulledConfig, String>)
    ensures
        match config_parse(bytes@) {
            Some(p) => r matches Ok(c) && c.platform_view() == p,
            None => r is Err,
        },
{
    match parse_image_config(bytes) {
        Ok((config, (os, architecture))) => Ok(PulledConfig { config, os, architecture }),
        Err(m) => Err(m),
    }
}

/// The error for an image reference that does not parse, carrying the
/// parser's message.
pub fn invalid_reference(message: String) -> (e: Error)
    ensures
        e matches Error::InvalidReference(m) && m@ == message@,
{
    Error::InvalidReference(message)
}

} // verus!
