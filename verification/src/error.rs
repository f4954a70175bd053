//! The library's error type.
use vstd::prelude::*;

verus! {

/// Declares `std::io::Error` to Verus; values of it are only carried.
#[verifier::external_type_specification]
#[verifier::external_body]
pub struct ExIoError(std::io::Error);

/// Declares the ext4 formatter's error type to Verus; values of it are only
/// carried.
#[verifier::external_type_specification]
#[verifier::external_body]
pub struct ExFormatError(arcbox_ext4::error::FormatError);

/// Errors produced during image resolution, layer application, and ext4
/// image writing.
#[derive(Debug)]
pub enum Error {
    /// I/O error from the host filesystem.
    Io(std::io::Error),
    /// The ext4 formatter rejected an operation (for example, insufficient
    /// space in the output image).
    Ext4Format(arcbox_ext4::error::FormatError),
    /// No manifest in the image index matched the requested platform.
    NoManifest(String),
    /// A layer, manifest, or config descriptor carried an unknown media type.
    UnsupportedMediaType(String),
    /// The image reference string did not parse as a valid OCI reference.
    InvalidReference(String),
    /// The source was neither an OCI image layout nor an overlay2 layer.
    UnsupportedFormat(String),
    /// A tar entry's path, symlink target, or hardlink target was rejected.
    InvalidTarPath(String),
    /// The configured output size is smaller than the estimated content size.
    InsufficientSize {
        /// Estimated lower bound on the bytes needed to fit the image.
        needed: u64,
        /// Output size as configured.
        configured: u64,
    },
    /// A volume label did not fit the superblock's 16-byte `volume_name`.
    InvalidLabel(String),
}

/// Short-hand for `std::result::Result` specialized to [`Error`].
pub type Result<T> = std::result::Result<T, Error>;

} // verus!
