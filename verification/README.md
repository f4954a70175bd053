# oci2rootfs

Convert OCI container images to ext4 rootfs filesystem images: from an OCI
image layout on disk, from a Docker `overlay2` chain-id directory, or from a
remote registry. Layers are applied in order with OCI whiteouts (`.wh.<name>`
deletes, `.wh..wh..opq` clears a directory); gzip, zstd and plain tar layers
are read.

The library under `src/` is written in Verus: every function there carries a
contract that the verifier checks. The image itself is written by
`arcbox-ext4`'s formatter; the library models the formatter's directory tree
as a map from component lists to "is a directory", with each entry's mode and
owner, the inode it refers to, and that inode's data, symlink target,
extended attributes, timestamps and link count, and states what each
operation does to them.

## Layout

| Module | What it holds |
|--------|---------------|
| `path` | splitting on `/`, canonical absolute paths, tar entry path sanitation, whiteout markers |
| `text` | whitespace trimming (`str::trim`), splitting on a character, comparison |
| `ext4` | the image writer over the formatter, with the tree model and its laws |
| `ext4_options` | superblock label and UUID, and the label check |
| `layer` | applying one tar entry (after the stream is read) and the whiteout laws |
| `overlay` | host path components, `lower` files, layer order, hard-link detection, applying one `diff/` entry |
| `oci` | choosing the manifest of an image index for a platform |
| `pull` | the remote reference builder and the platform manifest choice of a remote index |
| `tar_source` | which decoder a layer media type needs |
| `convert` | the target platform, the converter's settings and the size check made before the image is created |
| `cli` | `--size` and `--platform` parsing |

`app/` is the command line and the I/O around the library: reading tar
streams and decoders, walking overlay2 directories, reading OCI layouts,
talking to registries, and the conversion driver that removes a partial
output on failure.

## Usage

```bash
oci2rootfs ./oci-dir --output rootfs.ext4
oci2rootfs nginx:1.21 --output rootfs.ext4 --size 1G --platform linux/arm64
oci2rootfs localhost:5000/myapp:latest --output rootfs.ext4 --insecure
```

| Flag | Default | Description |
|------|---------|-------------|
| `--output`, `-o` | (required) | Output ext4 image path |
| `--size` | `512M` | Image size (`128M`, `1G`, etc.) |
| `--platform` | `linux/amd64` | Target platform |
| `--insecure` | `false` | Allow HTTP registry connections |
| `--label` | (none) | Volume label written to the superblock (≤16 bytes) |
| `--uuid` | random | Filesystem UUID written to the superblock |
