//! The target platform of a conversion, and the size check made before the
//! output image is created.
use vstd::prelude::*;

use crate::error::{Error, Result};
use crate::ext4_options::Ext4Options;

verus! {

/// Target platform used when resolving manifest lists and image indexes.
#[derive(Clone, Debug, PartialEq, Eq)]
pub struct Platform {
    os: String,
    arch: String,
}

impl Platform {
    /// The operating system component.
    pub closed spec fn os_view(&self) -> Seq<char> {
        self.os@
    }

    /// The architecture component.
    pub closed spec fn arch_view(&self) -> Seq<char> {
        self.arch@
    }

    /// Create a platform selector from an operating system and architecture.
    pub fn new(os: &str, arch: &str) -> (p: Self)
        ensures
            p.os_view() == os@,
            p.arch_view() == arch@,
    {
        Platform { os: String::from_str(os), arch: String::from_str(arch) }
    }

    /// Returns the operating system component.
    pub fn os(&self) -> (r: &str)
        ensures
            r@ == self.os_view(),
    {
        self.os.as_str()
    }

    /// Returns the architecture component.
    pub fn arch(&self) -> (r: &str)
        ensures
            r@ == self.arch_view(),
    {
        self.arch.as_str()
    }

    /// A copy of this platform.
    pub fn duplicate(&self) -> (p: Self)
        ensures
            p.os_view() == self.os_view(),
            p.arch_view() == self.arch_view(),
    {
        Platform { os: self.os.clone(), arch: self.arch.clone() }
    }
}

impl Default for Platform {
    /// `linux/amd64`.
    fn default() -> (p: Self)
        ensures
            p.os_view() == "linux"@,
            p.arch_view() == "amd64"@,
    {
        Platform::new("linux", "amd64")
    }
}

/// Bytes the ext4 metadata (superblock, group descriptors, bitmaps, inode
/// tables, directories) is reckoned to need on top of the content: 16 MiB.
pub const METADATA_OVERHEAD: u64 = 16 * 1024 * 1024;

/// The estimated lower bound on the bytes an image needs for layers whose
/// blobs hold `sizes` bytes: the metadata overhead plus their sum.
pub open spec fn needed_spec(sizes: Seq<u64>) -> int
    decreases sizes.len(),
{
    if sizes.len() == 0 {
        METADATA_OVERHEAD as int
    } else {
        needed_spec(sizes.drop_last()) + sizes.last()
    }
}

/// The estimate is never below the metadata overhead, nor below any one
/// layer's size.
pub proof fn law_estimate_covers_overhead(sizes: Seq<u64>)
    ensures
        estimate_spec(sizes) >= METADATA_OVERHEAD,
        forall|i: int| 0 <= i < sizes.len() ==> estimate_spec(sizes) >= #[trigger] sizes[i],
    decreases sizes.len(),
{
    if sizes.len() > 0 {
        law_estimate_covers_overhead(sizes.drop_last());
        lemma_needed_at_least(sizes);
        assert forall|i: int| 0 <= i < sizes.len() implies estimate_spec(sizes) >= #[trigger] sizes[i] by {
            if i < sizes.len() - 1 {
                assert(sizes.drop_last()[i] == sizes[i]);
            }
        }
    }
}

proof fn lemma_needed_at_least(sizes: Seq<u64>)
    ensures
        needed_spec(sizes) >= METADATA_OVERHEAD,
        sizes.len() > 0 ==> needed_spec(sizes) >= needed_spec(sizes.drop_last()) + sizes.last(),
    decreases sizes.len(),
{
    if sizes.len() > 0 {
        lemma_needed_at_least(sizes.drop_last());
    }
}

/// The estimate as a `u64`: the need, saturated at `u64::MAX`.
pub open spec fn estimate_spec(sizes: Seq<u64>) -> int {
    if needed_spec(sizes) <= u64::MAX {
        needed_spec(sizes)
    } else {
        u64::MAX as int
    }
}

/// The estimated lower bound on the bytes an image needs for layers of the
/// given blob sizes, saturating at `u64::MAX`.
pub fn estimate_needed(sizes: &[u64]) -> (n: u64)
    ensures
        n == estimate_spec(sizes@),
{
    let mut total: u64 = METADATA_OVERHEAD;
    let mut i: usize = 0;
    assert(sizes@.take(0) =~= Seq::<u64>::empty());
    while i < sizes.len()
        invariant
            i <= sizes@.len(),
            total == estimate_spec(sizes@.take(i as int)),
        decreases sizes.len() - i,
    {
        proof {
            assert(sizes@.take(i + 1).drop_last() =~= sizes@.take(i as int));
            assert(sizes@.take(i + 1).last() == sizes@[i as int]);
        }
        total = total.saturating_add(sizes[i]);
        i = i + 1;
    }
    assert(sizes@.take(sizes@.len() as int) =~= sizes@);
    total
}

/// The preflight size check, made before the output file is created:
/// refuse a configured size below the estimated need.
pub fn preflight(needed: u64, configured: u64) -> (r: Result<()>)
    ensures
        configured < needed ==> (r matches Err(Error::InsufficientSize { needed: n, configured: c })
            && n == needed && c == configured),
        configured >= needed ==> r is Ok,
{
    if configured < needed {
        Err(Error::InsufficientSize { needed, configured })
    } else {
        Ok(())
    }
}

/// The preflight check for layers whose blobs hold `sizes` bytes against
/// the configured image size.
pub fn check_size(sizes: &[u64], configured: u64) -> (r: Result<()>)
    ensures
        (configured as int) < estimate_spec(sizes@) ==> (r matches Err(
            Error::InsufficientSize { needed: n, configured: c },
        ) && c == configured && n as int == estimate_spec(sizes@)),
        configured as int >= estimate_spec(sizes@) ==> r is Ok,
{
    preflight(estimate_needed(sizes), configured)
}

/// The image size a converter starts with: 512 MiB.
pub const DEFAULT_SIZE: u64 = 536870912;

/// Converts container images to ext4 rootfs images: where the image goes,
/// how large it is, and its superblock overrides.
pub struct Converter {
    output: String,
    size: u64,
    ext4_options: Ext4Options,
}

impl Converter {
    /// The output path.
    pub closed spec fn output_view(&self) -> Seq<char> {
        self.output@
    }

    /// The image size in bytes.
    pub closed spec fn size_view(&self) -> u64 {
        self.size
    }

    /// The superblock overrides, as label and UUID.
    pub closed spec fn options_view(&self) -> (Option<Seq<char>>, Option<uuid::Uuid>) {
        (self.ext4_options.label_view(), self.ext4_options.uuid_view())
    }

    /// Create a new converter with the given output path, the default size
    /// (512 MiB) and no superblock overrides.
    pub fn new(output: &str) -> (c: Self)
        ensures
            c.output_view() == output@,
            c.size_view() == DEFAULT_SIZE,
            c.options_view() == (None::<Seq<char>>, None::<uuid::Uuid>),
    {
        Converter { output: String::from_str(output), size: DEFAULT_SIZE, ext4_options: Ext4Options::new() }
    }

    /// Set the output ext4 image size in bytes.
    pub fn size(self, size: u64) -> (c: Self)
        ensures
            c.output_view() == self.output_view(),
            c.size_view() == size,
            c.options_view() == self.options_view(),
    {
        Converter { output: self.output, size, ext4_options: self.ext4_options }
    }

    /// Set ext4 image metadata overrides (volume label, UUID), passed to the
    /// formatter when the image is created.
    pub fn ext4_options(self, opts: Ext4Options) -> (c: Self)
        ensures
            c.output_view() == self.output_view(),
            c.size_view() == self.size_view(),
            c.options_view() == (opts.label_view(), opts.uuid_view()),
    {
        Converter { output: self.output, size: self.size, ext4_options: opts }
    }

    /// The output path.
    pub fn output(&self) -> (r: &str)
        ensures
            r@ == self.output_view(),
    {
        self.output.as_str()
    }

    /// The image size in bytes.
    pub fn image_size(&self) -> (r: u64)
        ensures
            r == self.size_view(),
    {
        self.size
    }

    /// The superblock overrides.
    pub fn options(&self) -> (r: &Ext4Options)
        ensures
            (r.label_view(), r.uuid_view()) == self.options_view(),
    {
        &self.ext4_options
    }
}

} // verus!
