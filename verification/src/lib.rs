//! Convert OCI container images to ext4 rootfs images: the verified core.

pub mod cli;
pub mod convert;
pub mod error;
pub mod ext4;
pub mod ext4_options;
pub mod index_blob;
pub mod layer;
pub mod oci;
pub mod overlay;
pub mod path;
pub mod pull;
pub mod tar_source;
pub mod text;

pub use error::{Error, Result};
