[package]
name = "oci2rootfs"
version = "0.1.0"
edition = "2021"
publish = false

[dependencies]
arcbox-ext4 = "*"
containerregistry-image = "*"
containerregistry-layout = "*"
containerregistry-registry = "*"
containerregistry-auth = "*"
tar = "*"
flate2 = "*"
zstd = "*"
xattr = "*"
uuid = { version = "*", features = ["v4"] }
thiserror = "*"
tracing = "*"
tracing-subscriber = { version = "*", features = ["env-filter", "fmt"] }
tokio = { version = "*", features = ["macros", "rt-multi-thread"] }
clap = { version = "*", features = ["derive"] }

[dev-dependencies]
tempfile = "*"
sha2 = "*"
