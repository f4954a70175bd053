//! The ext4 image writer, over arcbox-ext4's `Formatter`.
//!
//! The formatter keeps the image's directory tree in memory while it streams
//! file data into the image file. That tree is modelled here as a map from
//! component lists (see [`crate::path`]) to whether the formatter's `is_dir`
//! reports the entry as a directory, together with each entry's mode and
//! owner, the inode it refers to, and that inode's data, symlink target,
//! extended attributes, timestamps and link count; every operation of
//! [`Ext4Writer`] states its effect on them.
use std::collections::HashMap;
use vstd::prelude::*;

use crate::error::{Error, Result};
use crate::ext4_options::{label_fits, label_fits_exec, Ext4Options};
use crate::path::{
    canonical, comps_of, is_root_str, join, lemma_comps_of_path_of, lemma_join_spec, path_of, valid_comps,
    valid_name,
};

verus! {

broadcast use vstd::set_lib::group_set_lib_default;

/// Declares arcbox-ext4's formatter to Verus.
#[verifier::external_type_specification]
#[verifier::external_body]
pub struct ExFormatter(arcbox_ext4::Formatter);

/// Declares the UUID type to Verus; values of it are only carried.
#[verifier::external_type_specification]
#[verifier::external_body]
pub struct ExUuid(uuid::Uuid);

// ---------------------------------------------------------------------------
// The model
// ---------------------------------------------------------------------------

/// The entries of a formatter's in-memory file tree: the component list of
/// each entry's path, mapped to whether the formatter reports it as a
/// directory.
pub uninterp spec fn image_tree(f: arcbox_ext4::Formatter) -> Map<Seq<Seq<char>>, bool>;

/// The volume label a formatter was made with.
pub uninterp spec fn image_label(f: arcbox_ext4::Formatter) -> Option<Seq<char>>;

/// The UUID a formatter was made with (`None`: picked at random when the
/// image is closed).
pub uninterp spec fn image_uuid(f: arcbox_ext4::Formatter) -> Option<uuid::Uuid>;

/// The mode, owner uid and owner gid of each entry's inode, by path. A hard
/// link's tree node refers to the root's inode as a placeholder, so hard
/// links show the root's metadata.
pub uninterp spec fn image_meta(f: arcbox_ext4::Formatter) -> Map<Seq<Seq<char>>, (u16, u32, u32)>;

/// The entries that are hard links.
pub uninterp spec fn image_links(f: arcbox_ext4::Formatter) -> Set<Seq<Seq<char>>>;

/// The inode number each entry refers to: a hard link's tree node refers to
/// the inode it links to, every other node to its own inode.
pub uninterp spec fn image_inode(f: arcbox_ext4::Formatter) -> Map<Seq<Seq<char>>, u32>;

/// The link count (`links_count`) of each inode, by inode number.
pub uninterp spec fn image_nlink(f: arcbox_ext4::Formatter) -> Map<u32, u16>;

/// The bytes written into each regular-file inode, by inode number.
pub uninterp spec fn image_data(f: arcbox_ext4::Formatter) -> Map<u32, Seq<u8>>;

/// The target text stored in each symbolic-link inode, by inode number.
pub uninterp spec fn image_target(f: arcbox_ext4::Formatter) -> Map<u32, Seq<char>>;

/// The extended attributes each inode was created with (as handed to the
/// formatter, which also adds an empty `system.data` attribute to an inode
/// given any), by inode number.
pub uninterp spec fn image_xattrs(f: arcbox_ext4::Formatter) -> Map<u32, Map<Seq<char>, Seq<u8>>>;

/// The access, modification, change and creation times of each inode, by
/// inode number.
pub uninterp spec fn image_times(f: arcbox_ext4::Formatter) -> Map<u32, (u32, u32, u32, u32)>;

/// What an entry holds beyond its place in the tree, its mode and its
/// owner: the inode it refers to, and that inode's data, symlink target,
/// extended attributes and timestamps (`None` where the inode has none of
/// the kind).
pub struct EntryContent {
    pub inode: u32,
    pub data: Option<Seq<u8>>,
    pub target: Option<Seq<char>>,
    pub xattrs: Option<Map<Seq<char>, Seq<u8>>>,
    pub times: Option<(u32, u32, u32, u32)>,
}

/// The value of `m` at `i`, if it has one.
pub open spec fn value_at<V>(m: Map<u32, V>, i: u32) -> Option<V> {
    if m.contains_key(i) {
        Some(m[i])
    } else {
        None
    }
}

/// What entry `k` of the formatter's tree holds.
pub open spec fn content_at(f: arcbox_ext4::Formatter, k: Seq<Seq<char>>) -> EntryContent {
    let i = image_inode(f)[k];
    EntryContent {
        inode: i,
        data: value_at(image_data(f), i),
        target: value_at(image_target(f), i),
        xattrs: value_at(image_xattrs(f), i),
        times: value_at(image_times(f), i),
    }
}

/// The link count of the inode entry `k` refers to.
pub open spec fn nlink_at(f: arcbox_ext4::Formatter, k: Seq<Seq<char>>) -> u16 {
    image_nlink(f)[image_inode(f)[k]]
}

/// The extended attributes a create call hands the formatter.
pub open spec fn xattr_view(x: Option<&HashMap<String, Vec<u8>>>) -> Map<Seq<char>, Seq<u8>> {
    match x {
        Some(m) => m.deep_view(),
        None => Map::empty(),
    }
}

/// Distinct entries that are not hard links refer to distinct inodes.
pub open spec fn distinct_inodes(f: arcbox_ext4::Formatter) -> bool {
    forall|k1: Seq<Seq<char>>, k2: Seq<Seq<char>>|
        #![trigger image_inode(f)[k1], image_inode(f)[k2]]
        image_tree(f).contains_key(k1) && image_tree(f).contains_key(k2) && !image_links(f).contains(k1)
            && !image_links(f).contains(k2) && k1 != k2 ==> image_inode(f)[k1] != image_inode(f)[k2]
}

/// Every entry of `n` that `o` also has, other than `except`, holds what it
/// held in `o`.
pub open spec fn contents_kept(
    o: arcbox_ext4::Formatter,
    n: arcbox_ext4::Formatter,
    except: Seq<Seq<char>>,
) -> bool {
    forall|k: Seq<Seq<char>>|
        #![trigger content_at(n, k)]
        image_tree(n).contains_key(k) && image_tree(o).contains_key(k) && k != except ==> content_at(n, k)
            == content_at(o, k)
}

/// Every entry of `n` that `o` also has holds what it held in `o`.
pub open spec fn contents_all_kept(o: arcbox_ext4::Formatter, n: arcbox_ext4::Formatter) -> bool {
    forall|k: Seq<Seq<char>>|
        #![trigger content_at(n, k)]
        image_tree(n).contains_key(k) && image_tree(o).contains_key(k) ==> content_at(n, k) == content_at(
            o,
            k,
        )
}

/// No regular file or symlink of `o` that `n` still has gained a link,
/// except that `bumped` may have gained one.
pub open spec fn nlink_bounded(
    o: arcbox_ext4::Formatter,
    n: arcbox_ext4::Formatter,
    bumped: Seq<Seq<char>>,
) -> bool {
    forall|k: Seq<Seq<char>>|
        #![trigger nlink_at(n, k)]
        image_tree(n).contains_key(k) && image_tree(o).contains_key(k) && !image_tree(o)[k]
            && !image_links(o).contains(k) ==> nlink_at(n, k) <= nlink_at(o, k) + if k == bumped {
            1int
        } else {
            0int
        }
}

/// Metadata and hard links as the formatter keeps them: metadata for every
/// entry of the tree, hard links among the entries (never the root), and
/// every hard link showing the root's metadata.
pub open spec fn wf_meta(
    t: Map<Seq<Seq<char>>, bool>,
    m: Map<Seq<Seq<char>>, (u16, u32, u32)>,
    links: Set<Seq<Seq<char>>>,
) -> bool {
    &&& m.dom() == t.dom()
    &&& links.subset_of(t.dom())
    &&& !links.contains(seq![])
    &&& forall|k: Seq<Seq<char>>| #[trigger] links.contains(k) ==> m[k] == m[seq![]]
}

/// The root and the hard links: the entries whose tree nodes refer to the
/// root's inode, so that changing one's metadata changes all of theirs.
pub open spec fn shares_root(links: Set<Seq<Seq<char>>>, k: Seq<Seq<char>>) -> bool {
    k.len() == 0 || links.contains(k)
}

/// The mode of a directory with permission bits `perm`.
pub open spec fn dir_mode(perm: u16) -> u16 {
    0x4000u16 | perm
}

/// The mode of a regular file with permission bits `perm`.
pub open spec fn reg_mode(perm: u16) -> u16 {
    0x8000u16 | perm
}

/// The mode of a symbolic link: `S_IFLNK | 0o777`.
pub open spec fn symlink_mode() -> u16 {
    0xA1FFu16
}

/// The mode the formatter gives a symbolic link created with permission
/// bits `perm`: `S_IFLNK | perm | 0o777`.
pub open spec fn symlink_mode_of(perm: u16) -> u16 {
    0xA000u16 | perm | 0x1FFu16
}

/// Every non-directory entry of `n` other than `p` was already in `o` as a
/// non-directory, and `n` has the hard links `o` had.
pub open spec fn grown_by_dirs(o: arcbox_ext4::Formatter, n: arcbox_ext4::Formatter, p: Seq<Seq<char>>) -> bool {
    &&& forall|k: Seq<Seq<char>>|
        #![trigger image_tree(n)[k]]
        image_tree(n).contains_key(k) && !image_tree(n)[k] && k != p ==> image_tree(o).contains_key(k)
            && !image_tree(o)[k]
    &&& image_links(n) == image_links(o)
}

/// `n` holds a part of `o`'s entries, each as it was in `o`.
pub open spec fn shrunk(o: arcbox_ext4::Formatter, n: arcbox_ext4::Formatter) -> bool {
    forall|k: Seq<Seq<char>>|
        #![trigger image_tree(n)[k]]
        image_tree(n).contains_key(k) ==> image_tree(o).contains_key(k) && image_tree(n)[k]
            == image_tree(o)[k] && image_links(n).contains(k) == image_links(o).contains(k)
}

/// Entry `p` refers to an inode with one link that no other entry refers
/// to.
pub open spec fn new_inode_at(f: arcbox_ext4::Formatter, p: Seq<Seq<char>>) -> bool {
    &&& image_nlink(f)[image_inode(f)[p]] == 1
    &&& forall|k: Seq<Seq<char>>|
        #![trigger image_inode(f)[k]]
        image_tree(f).contains_key(k) && k != p ==> image_inode(f)[k] != image_inode(f)[p]
}

/// The metadata of a freshly formatted image: the root (`0o755`) and
/// `/lost+found` (`0o700`), both owned by 0:0.
pub open spec fn initial_meta() -> Map<Seq<Seq<char>>, (u16, u32, u32)> {
    map![seq![] => (dir_mode(0o755), 0u32, 0u32), seq![lost_found()] => (dir_mode(0o700), 0u32, 0u32)]
}

/// The nearest strict ancestor of `p` that `t` holds (the root at the
/// latest).
pub open spec fn nearest_present(t: Map<Seq<Seq<char>>, bool>, p: Seq<Seq<char>>) -> Seq<
    Seq<char>,
>
    decreases p.len(),
{
    if p.len() <= 1 {
        seq![]
    } else if t.contains_key(p.drop_last()) {
        p.drop_last()
    } else {
        nearest_present(t, p.drop_last())
    }
}

/// The owner an entry created at `p` inherits: that of the nearest present
/// ancestor (missing ancestors are created with it first).
pub open spec fn inherited_owner(
    t: Map<Seq<Seq<char>>, bool>,
    m: Map<Seq<Seq<char>>, (u16, u32, u32)>,
    p: Seq<Seq<char>>,
) -> (u32, u32) {
    (m[nearest_present(t, p)].1, m[nearest_present(t, p)].2)
}

/// The metadata after creating `p` with metadata `own`: each missing
/// ancestor is created first as a `0o755` directory with the inherited
/// owner.
pub open spec fn created_meta(
    t: Map<Seq<Seq<char>>, bool>,
    m: Map<Seq<Seq<char>>, (u16, u32, u32)>,
    p: Seq<Seq<char>>,
    own: (u16, u32, u32),
) -> Map<Seq<Seq<char>>, (u16, u32, u32)> {
    let o = inherited_owner(t, m, p);
    m.union_prefer_right(
        Map::new(
            |k: Seq<Seq<char>>| k.len() < p.len() && under(p, k) && !t.contains_key(k),
            |k: Seq<Seq<char>>| (dir_mode(0o755), o.0, o.1),
        ),
    ).insert(p, own)
}

/// The metadata after the inode of entry `p` gets metadata `v`: every entry
/// sharing that inode shows it.
pub open spec fn meta_set(
    m: Map<Seq<Seq<char>>, (u16, u32, u32)>,
    links: Set<Seq<Seq<char>>>,
    p: Seq<Seq<char>>,
    v: (u16, u32, u32),
) -> Map<Seq<Seq<char>>, (u16, u32, u32)> {
    if shares_root(links, p) {
        Map::new(
            |k: Seq<Seq<char>>| m.contains_key(k),
            |k: Seq<Seq<char>>| if shares_root(links, k) { v } else { m[k] },
        )
    } else {
        m.insert(p, v)
    }
}

/// Metadata with the permission bits of `p`'s inode replaced by `perm`.
pub open spec fn with_perm(
    m: Map<Seq<Seq<char>>, (u16, u32, u32)>,
    links: Set<Seq<Seq<char>>>,
    p: Seq<Seq<char>>,
    perm: u16,
) -> Map<Seq<Seq<char>>, (u16, u32, u32)> {
    meta_set(m, links, p, ((m[p].0 & 0xF000u16) | (perm & 0x0FFFu16), m[p].1, m[p].2))
}

/// Metadata with the owner of `p`'s inode replaced by `uid:gid`.
pub open spec fn with_owner(
    m: Map<Seq<Seq<char>>, (u16, u32, u32)>,
    links: Set<Seq<Seq<char>>>,
    p: Seq<Seq<char>>,
    uid: u32,
    gid: u32,
) -> Map<Seq<Seq<char>>, (u16, u32, u32)> {
    meta_set(m, links, p, (m[p].0, uid, gid))
}

/// `p` is `k` or an ancestor of `k`.
pub open spec fn under(k: Seq<Seq<char>>, p: Seq<Seq<char>>) -> bool {
    p.len() <= k.len() && k.subrange(0, p.len() as int) == p
}

/// A file tree as the formatter keeps it: finite, rooted at a directory,
/// every entry named by valid components and every entry's parent present.
pub open spec fn wf_tree(t: Map<Seq<Seq<char>>, bool>) -> bool {
    &&& t.dom().finite()
    &&& t.contains_key(seq![])
    &&& t[seq![]]
    &&& forall|k: Seq<Seq<char>>| #[trigger] t.contains_key(k) ==> valid_comps(k)
    &&& forall|k: Seq<Seq<char>>|
        #[trigger] t.contains_key(k) && k.len() > 0 ==> t.contains_key(k.drop_last())
}

/// The tree of a freshly formatted image: the root and `/lost+found`.
pub open spec fn initial_tree() -> Map<Seq<Seq<char>>, bool> {
    map![seq![] => true, seq![lost_found()] => true]
}

pub open spec fn lost_found() -> Seq<char> {
    seq!['l', 'o', 's', 't', '+', 'f', 'o', 'u', 'n', 'd']
}

/// `t` without `p` and everything below it.
pub open spec fn without_subtree(
    t: Map<Seq<Seq<char>>, bool>,
    p: Seq<Seq<char>>,
) -> Map<Seq<Seq<char>>, bool> {
    t.filter_keys(|k: Seq<Seq<char>>| !under(k, p))
}

/// What `mkdir -p` of `p` makes of `t`: an existing entry stays as it is,
/// otherwise `p` and its missing ancestors are added as directories.
pub open spec fn mkdir_effect(t: Map<Seq<Seq<char>>, bool>, p: Seq<Seq<char>>) -> Map<
    Seq<Seq<char>>,
    bool,
> {
    if t.contains_key(p) {
        t
    } else {
        with_created(t, p, true)
    }
}

/// `t` without everything strictly below `p`.
pub open spec fn without_children(
    t: Map<Seq<Seq<char>>, bool>,
    p: Seq<Seq<char>>,
) -> Map<Seq<Seq<char>>, bool> {
    t.filter_keys(|k: Seq<Seq<char>>| !under(k, p) || k == p)
}

/// Every strict ancestor of `p` that `t` lacks, as a directory.
pub open spec fn missing_ancestors(t: Map<Seq<Seq<char>>, bool>, p: Seq<Seq<char>>) -> Map<
    Seq<Seq<char>>,
    bool,
> {
    Map::new(
        |k: Seq<Seq<char>>| k.len() < p.len() && under(p, k) && !t.contains_key(k),
        |k: Seq<Seq<char>>| true,
    )
}

/// `t` with `p` created (`mkdir -p` of its missing parents first) as an
/// entry that reports `is_dir == dir`; entries already present stay as they
/// are.
pub open spec fn with_created(
    t: Map<Seq<Seq<char>>, bool>,
    p: Seq<Seq<char>>,
    dir: bool,
) -> Map<Seq<Seq<char>>, bool> {
    t.union_prefer_right(missing_ancestors(t, p)).insert(p, dir)
}

/// How many entries are `p` or below it.
pub open spec fn subtree_size(t: Map<Seq<Seq<char>>, bool>, p: Seq<Seq<char>>) -> nat {
    t.dom().filter(|k: Seq<Seq<char>>| under(k, p)).len()
}

// ---------------------------------------------------------------------------
// Trusted wrappers around the formatter
// ---------------------------------------------------------------------------

/// An image size the formatter can take: above 0 and with a block count
/// (4 KiB blocks) that fits in 32 bits. Below or above that, the
/// formatter's block arithmetic overflows.
pub open spec fn image_size_ok(size: u64) -> bool {
    0 < size && size <= 0xFFFF_FFFFu64 * 4096
}

/// `Formatter::with_options`: formats a new image file at `path` of `size`
/// bytes (4 KiB blocks) with the given UUID and label. On success the tree
/// holds the root and `/lost+found`, as the constructor creates them, each
/// with an inode of its own.
#[verifier::external_body]
fn fmt_with_options(
    path: &str,
    size: u64,
    uuid: Option<uuid::Uuid>,
    label: Option<String>,
) -> (r: std::result::Result<arcbox_ext4::Formatter, arcbox_ext4::error::FormatError>)
    requires
        image_size_ok(size),
    ensures
        r matches Ok(f) ==> image_tree(f) == initial_tree() && image_label(f) == (match label {
            Some(l) => Some(l@),
            None => None,
        }) && image_uuid(f) == uuid && image_meta(f) == initial_meta() && image_links(f)
            == Set::<Seq<Seq<char>>>::empty() && distinct_inodes(f),
{
    let mut opts = arcbox_ext4::FormatOptions::new(size);
    opts.uuid = uuid;
    opts.label = label;
    arcbox_ext4::Formatter::with_options(std::path::Path::new(path), opts)
}

/// `Formatter::exists`: whether the tree holds the path.
#[verifier::external_body]
fn fmt_exists(f: &arcbox_ext4::Formatter, path: &str) -> (b: bool)
    requires
        canonical(path@),
        wf_tree(image_tree(*f)),
    ensures
        b == image_tree(*f).contains_key(comps_of(path@)),
{
    f.exists(path)
}

/// `Formatter::is_dir`: whether the tree holds the path as an entry that
/// reports a directory.
#[verifier::external_body]
fn fmt_is_dir(f: &arcbox_ext4::Formatter, path: &str) -> (b: bool)
    requires
        canonical(path@),
        wf_tree(image_tree(*f)),
    ensures
        b == (image_tree(*f).contains_key(comps_of(path@)) && image_tree(*f)[comps_of(path@)]),
{
    f.is_dir(path)
}

/// `Formatter::list_dir`: the names of the immediate children of the path
/// (none when the path is absent).
#[verifier::external_body]
fn fmt_list_dir(f: &arcbox_ext4::Formatter, path: &str) -> (r: Vec<String>)
    requires
        canonical(path@),
        wf_tree(image_tree(*f)),
    ensures
        names_are_children(image_tree(*f), comps_of(path@), r@),
{
    f.list_dir(path)
}

/// `Formatter::unlink(path, false)`: removes the entry and, recursively,
/// everything below it; it always succeeds (an absent path is left alone).
#[verifier::external_body]
fn fmt_unlink(f: &mut arcbox_ext4::Formatter, path: &str) -> (r: std::result::Result<
    (),
    arcbox_ext4::error::FormatError,
>)
    requires
        canonical(path@),
        path@ != seq!['/'],
        wf_tree(image_tree(*old(f))),
    ensures
        image_label(*final(f)) == image_label(*old(f)),
        image_uuid(*final(f)) == image_uuid(*old(f)),
        r is Ok,
        image_tree(*final(f)) == without_subtree(image_tree(*old(f)), comps_of(path@)),
        image_meta(*final(f)) == image_meta(*old(f)).restrict(image_tree(*final(f)).dom()),
        image_links(*final(f)) == image_links(*old(f)).intersect(image_tree(*final(f)).dom()),
        wf_tree(image_tree(*final(f))),
        wf_meta(image_tree(*final(f)), image_meta(*final(f)), image_links(*final(f))),
        contents_all_kept(*old(f), *final(f)),
        nlink_bounded(*old(f), *final(f), seq![]),
        distinct_inodes(*final(f)),
{
    f.unlink(path, false)
}

/// `Formatter::create` of a directory (mode `S_IFDIR | perm`, `perm`
/// holding permission bits only, so that the mode stays a directory's) where no
/// directory is, with missing parents created first as `mkdir -p` does
/// (mode `0o755`, owner inherited from their parent). An existing
/// non-directory makes it fail at once. On success the path and its missing
/// ancestors are in the tree as directories, entries already present stay as
/// they were, and the new directory has owner `uid:gid` (or the inherited
/// one where they are `None`) and the extended attributes `xattrs`. Other
/// entries keep what they hold, and no file gains a link.
#[verifier::external_body]
fn fmt_create_dir(
    f: &mut arcbox_ext4::Formatter,
    path: &str,
    perm: u16,
    uid: Option<u32>,
    gid: Option<u32>,
    xattrs: Option<&HashMap<String, Vec<u8>>>,
) -> (r: std::result::Result<(), arcbox_ext4::error::FormatError>)
    requires
        perm < 0x1000,
        canonical(path@),
        wf_tree(image_tree(*old(f))),
        !(image_tree(*old(f)).contains_key(comps_of(path@)) && image_tree(*old(f))[comps_of(
            path@,
        )]),
    ensures
        image_label(*final(f)) == image_label(*old(f)),
        image_uuid(*final(f)) == image_uuid(*old(f)),
        r is Ok ==> {
            &&& image_tree(*final(f)) == with_created(image_tree(*old(f)), comps_of(path@), true)
            &&& image_meta(*final(f)) == created_meta(
                image_tree(*old(f)),
                image_meta(*old(f)),
                comps_of(path@),
                (
                    dir_mode(perm),
                    match uid {
                        Some(u) => u,
                        None => inherited_owner(
                            image_tree(*old(f)),
                            image_meta(*old(f)),
                            comps_of(path@),
                        ).0,
                    },
                    match gid {
                        Some(g) => g,
                        None => inherited_owner(
                            image_tree(*old(f)),
                            image_meta(*old(f)),
                            comps_of(path@),
                        ).1,
                    },
                ),
            )
            &&& image_links(*final(f)) == image_links(*old(f))
        },
        r is Ok ==> image_xattrs(*final(f)).contains_key(image_inode(*final(f))[comps_of(path@)])
            && image_xattrs(*final(f))[image_inode(*final(f))[comps_of(path@)]] == xattr_view(xattrs),
        image_tree(*old(f)).contains_key(comps_of(path@)) ==> r is Err && image_tree(*final(f))
            == image_tree(*old(f)) && image_meta(*final(f)) == image_meta(*old(f)) && image_links(
            *final(f),
        ) == image_links(*old(f)),
        wf_tree(image_tree(*final(f))),
        wf_meta(image_tree(*final(f)), image_meta(*final(f)), image_links(*final(f))),
        contents_all_kept(*old(f), *final(f)),
        nlink_bounded(*old(f), *final(f), seq![]),
        distinct_inodes(*final(f)),
        grown_by_dirs(*old(f), *final(f), comps_of(path@)),
        r is Err ==> image_tree(*final(f)).contains_key(comps_of(path@)) == image_tree(
            *old(f),
        ).contains_key(comps_of(path@)),
{
    let mode = arcbox_ext4::constants::make_mode(arcbox_ext4::constants::file_mode::S_IFDIR, perm);
    f.create(path, mode, None, None, None, uid, gid, xattrs)
}

/// `Formatter::create` of a regular file (mode `S_IFREG | perm`, `perm`
/// holding permission bits only, so that the mode stays a file's; owner
/// `uid:gid`) holding `data` where nothing is, with missing parents created
/// first (mode `0o755`, owner inherited). At the root, an existing
/// directory, it fails at once. On success the path is in the tree as a
/// non-directory and its missing ancestors as directories; the file's inode
/// is new (no other entry refers to it), holds exactly the bytes of `data`
/// and the extended attributes `xattrs`, and has one link. Other entries
/// keep what they hold, and no file gains a link.
#[verifier::external_body]
fn fmt_create_file(
    f: &mut arcbox_ext4::Formatter,
    path: &str,
    data: &[u8],
    perm: u16,
    uid: u32,
    gid: u32,
    xattrs: Option<&HashMap<String, Vec<u8>>>,
) -> (r: std::result::Result<(), arcbox_ext4::error::FormatError>)
    requires
        perm < 0x1000,
        canonical(path@),
        wf_tree(image_tree(*old(f))),
        path@ == seq!['/'] || !image_tree(*old(f)).contains_key(comps_of(path@)),
    ensures
        image_label(*final(f)) == image_label(*old(f)),
        image_uuid(*final(f)) == image_uuid(*old(f)),
        r is Ok ==> {
            &&& image_tree(*final(f)) == with_created(image_tree(*old(f)), comps_of(path@), false)
            &&& image_meta(*final(f)) == created_meta(
                image_tree(*old(f)),
                image_meta(*old(f)),
                comps_of(path@),
                (reg_mode(perm), uid, gid),
            )
            &&& image_links(*final(f)) == image_links(*old(f))
        },
        r is Ok ==> new_inode_at(*final(f), comps_of(path@)),
        r is Ok ==> image_data(*final(f)).contains_key(image_inode(*final(f))[comps_of(path@)])
            && image_data(*final(f))[image_inode(*final(f))[comps_of(path@)]] == data@,
        r is Ok ==> image_xattrs(*final(f)).contains_key(image_inode(*final(f))[comps_of(path@)])
            && image_xattrs(*final(f))[image_inode(*final(f))[comps_of(path@)]] == xattr_view(xattrs),
        path@ == seq!['/'] ==> r is Err && image_tree(*final(f)) == image_tree(*old(f))
            && image_meta(*final(f)) == image_meta(*old(f)) && image_links(*final(f)) == image_links(
            *old(f),
        ),
        wf_tree(image_tree(*final(f))),
        wf_meta(image_tree(*final(f)), image_meta(*final(f)), image_links(*final(f))),
        contents_all_kept(*old(f), *final(f)),
        nlink_bounded(*old(f), *final(f), seq![]),
        distinct_inodes(*final(f)),
        grown_by_dirs(*old(f), *final(f), comps_of(path@)),
        r is Err ==> image_tree(*final(f)).contains_key(comps_of(path@)) == image_tree(
            *old(f),
        ).contains_key(comps_of(path@)),
{
    let mode = arcbox_ext4::constants::make_mode(arcbox_ext4::constants::file_mode::S_IFREG, perm);
    let mut reader: &[u8] = data;
    f.create(path, mode, None, None, Some(&mut reader), Some(uid), Some(gid), xattrs)
}

/// `Formatter::create` of a symbolic link to `target` (mode
/// `S_IFLNK | perm`, to which the formatter adds `0o777`; owner inherited
/// from its parent) where nothing is, with missing parents created first.
/// On success the path is in the tree as a non-directory and its missing
/// ancestors as directories; the link's inode is new, stores exactly the
/// text of `target`, has no extended attributes and one link. Other entries
/// keep what they hold, and no file gains a link.
#[verifier::external_body]
fn fmt_create_symlink(f: &mut arcbox_ext4::Formatter, path: &str, target: &str, perm: u16) -> (r:
    std::result::Result<(), arcbox_ext4::error::FormatError>)
    requires
        canonical(path@),
        path@ != seq!['/'],
        wf_tree(image_tree(*old(f))),
        !image_tree(*old(f)).contains_key(comps_of(path@)),
    ensures
        image_label(*final(f)) == image_label(*old(f)),
        image_uuid(*final(f)) == image_uuid(*old(f)),
        r is Ok ==> {
            &&& image_tree(*final(f)) == with_created(image_tree(*old(f)), comps_of(path@), false)
            &&& image_meta(*final(f)) == created_meta(
                image_tree(*old(f)),
                image_meta(*old(f)),
                comps_of(path@),
                (
                    symlink_mode_of(perm),
                    inherited_owner(image_tree(*old(f)), image_meta(*old(f)), comps_of(path@)).0,
                    inherited_owner(image_tree(*old(f)), image_meta(*old(f)), comps_of(path@)).1,
                ),
            )
            &&& image_links(*final(f)) == image_links(*old(f))
        },
        r is Ok ==> new_inode_at(*final(f), comps_of(path@)),
        r is Ok ==> image_target(*final(f)).contains_key(image_inode(*final(f))[comps_of(path@)])
            && image_target(*final(f))[image_inode(*final(f))[comps_of(path@)]] == target@,
        r is Ok ==> image_xattrs(*final(f)).contains_key(image_inode(*final(f))[comps_of(path@)])
            && image_xattrs(*final(f))[image_inode(*final(f))[comps_of(path@)]] == xattr_view(None),
        wf_tree(image_tree(*final(f))),
        wf_meta(image_tree(*final(f)), image_meta(*final(f)), image_links(*final(f))),
        contents_all_kept(*old(f), *final(f)),
        nlink_bounded(*old(f), *final(f), seq![]),
        distinct_inodes(*final(f)),
        grown_by_dirs(*old(f), *final(f), comps_of(path@)),
        r is Err ==> image_tree(*final(f)).contains_key(comps_of(path@)) == image_tree(
            *old(f),
        ).contains_key(comps_of(path@)),
{
    let mode = arcbox_ext4::constants::make_mode(arcbox_ext4::constants::file_mode::S_IFLNK, perm);
    f.create(path, mode, Some(target), None, None, None, None, None)
}

/// `Formatter::link(path, target)`: a hard link at `path` to the existing
/// non-directory `target`; an entry already at `path` is removed first, and
/// the parent of `path` must exist (no `mkdir -p`). The link entry reports
/// `is_dir` as true, and shows the root's metadata, in this version of the
/// formatter, since its tree node carries the root inode number as a
/// placeholder; it refers to the target's inode, and so holds what the
/// target holds. The target's inode gains a link (before anything else is
/// checked, so also when the call then fails); its 16-bit link count must
/// have room for it. Other entries keep what they hold.
#[verifier::external_body]
fn fmt_link(f: &mut arcbox_ext4::Formatter, path: &str, target: &str) -> (r: std::result::Result<
    (),
    arcbox_ext4::error::FormatError,
>)
    requires
        canonical(path@),
        canonical(target@),
        path@ != seq!['/'],
        wf_tree(image_tree(*old(f))),
        image_tree(*old(f)).contains_key(comps_of(target@)) && !image_tree(*old(f))[comps_of(target@)]
            && !image_links(*old(f)).contains(comps_of(target@)) ==> image_nlink(
            *old(f),
        )[image_inode(*old(f))[comps_of(target@)]] < 65535,
    ensures
        image_label(*final(f)) == image_label(*old(f)),
        image_uuid(*final(f)) == image_uuid(*old(f)),
        r is Ok ==> {
            &&& image_tree(*old(f)).contains_key(comps_of(target@))
            &&& !image_tree(*old(f))[comps_of(target@)]
            &&& !image_links(*old(f)).contains(comps_of(target@))
            &&& image_inode(*final(f))[comps_of(path@)] == image_inode(*old(f))[comps_of(target@)]
            &&& content_at(*final(f), comps_of(path@)) == content_at(*old(f), comps_of(target@))
            &&& image_tree(*final(f)) == without_subtree(
                image_tree(*old(f)),
                comps_of(path@),
            ).insert(comps_of(path@), true)
            &&& image_meta(*final(f)) == image_meta(*old(f)).restrict(
                without_subtree(image_tree(*old(f)), comps_of(path@)).dom(),
            ).insert(comps_of(path@), image_meta(*old(f))[seq![]])
            &&& image_links(*final(f)) == image_links(*old(f)).intersect(
                without_subtree(image_tree(*old(f)), comps_of(path@)).dom(),
            ).insert(comps_of(path@))
        },
        r is Ok && !image_tree(*old(f)).contains_key(comps_of(path@)) ==> image_nlink(
            *final(f),
        )[image_inode(*final(f))[comps_of(path@)]] == image_nlink(*old(f))[image_inode(
            *old(f),
        )[comps_of(target@)]] + 1,
        wf_tree(image_tree(*final(f))),
        wf_meta(image_tree(*final(f)), image_meta(*final(f)), image_links(*final(f))),
        contents_kept(*old(f), *final(f), comps_of(path@)),
        nlink_bounded(*old(f), *final(f), comps_of(target@)),
        distinct_inodes(*final(f)),
        r is Err ==> shrunk(*old(f), *final(f)),
{
    f.link(path, target)
}

/// `Formatter::set_permissions`: replaces the permission bits of an
/// existing entry's inode (keeping its file type bits); fails exactly when
/// the path is absent. The tree, every inode's data, target, extended
/// attributes, timestamps and link count are unchanged.
#[verifier::external_body]
fn fmt_set_permissions(f: &mut arcbox_ext4::Formatter, path: &str, perm: u16) -> (r:
    std::result::Result<(), arcbox_ext4::error::FormatError>)
    requires
        canonical(path@),
        wf_tree(image_tree(*old(f))),
    ensures
        image_label(*final(f)) == image_label(*old(f)),
        image_uuid(*final(f)) == image_uuid(*old(f)),
        r is Ok <==> image_tree(*old(f)).contains_key(comps_of(path@)),
        image_tree(*final(f)) == image_tree(*old(f)),
        image_links(*final(f)) == image_links(*old(f)),
        image_meta(*final(f)) == if r is Ok {
            with_perm(image_meta(*old(f)), image_links(*old(f)), comps_of(path@), perm)
        } else {
            image_meta(*old(f))
        },
        wf_meta(image_tree(*final(f)), image_meta(*final(f)), image_links(*final(f))),
        image_inode(*final(f)) == image_inode(*old(f)),
        image_nlink(*final(f)) == image_nlink(*old(f)),
        image_data(*final(f)) == image_data(*old(f)),
        image_target(*final(f)) == image_target(*old(f)),
        image_xattrs(*final(f)) == image_xattrs(*old(f)),
        image_times(*final(f)) == image_times(*old(f)),
{
    f.set_permissions(path, perm)
}

/// `Formatter::set_owner`: sets uid/gid of an existing entry's inode; fails
/// exactly when the path is absent. The tree, every inode's data, target,
/// extended attributes, timestamps and link count are unchanged.
#[verifier::external_body]
fn fmt_set_owner(f: &mut arcbox_ext4::Formatter, path: &str, uid: u32, gid: u32) -> (r:
    std::result::Result<(), arcbox_ext4::error::FormatError>)
    requires
        canonical(path@),
        wf_tree(image_tree(*old(f))),
    ensures
        image_label(*final(f)) == image_label(*old(f)),
        image_uuid(*final(f)) == image_uuid(*old(f)),
        r is Ok <==> image_tree(*old(f)).contains_key(comps_of(path@)),
        image_tree(*final(f)) == image_tree(*old(f)),
        image_links(*final(f)) == image_links(*old(f)),
        image_meta(*final(f)) == if r is Ok {
            with_owner(image_meta(*old(f)), image_links(*old(f)), comps_of(path@), uid, gid)
        } else {
            image_meta(*old(f))
        },
        wf_meta(image_tree(*final(f)), image_meta(*final(f)), image_links(*final(f))),
        image_inode(*final(f)) == image_inode(*old(f)),
        image_nlink(*final(f)) == image_nlink(*old(f)),
        image_data(*final(f)) == image_data(*old(f)),
        image_target(*final(f)) == image_target(*old(f)),
        image_xattrs(*final(f)) == image_xattrs(*old(f)),
        image_times(*final(f)) == image_times(*old(f)),
{
    f.set_owner(path, uid, gid)
}

/// `Formatter::close`: writes directories, inode table, bitmaps, group
/// descriptors and superblock. Nothing is stated of the outcome, which
/// rests on file I/O. Its arithmetic works on the block and inode counts
/// that the size check of [`fmt_with_options`] keeps within 32 bits; whether
/// it can overflow for an image whose written data grows far beyond that
/// size, or whose inode count per group and group count multiply past 32
/// bits (possible only for images near 16 TiB), is not settled here.
#[verifier::external_body]
fn fmt_close(f: arcbox_ext4::Formatter) -> (r: std::result::Result<
    (),
    arcbox_ext4::error::FormatError,
>) {
    f.close()
}


// ---------------------------------------------------------------------------
// Facts about trees
// ---------------------------------------------------------------------------

/// Every ancestor of an entry is an entry.
pub proof fn lemma_ancestor_present(t: Map<Seq<Seq<char>>, bool>, k: Seq<Seq<char>>, p: Seq<Seq<char>>)
    requires
        wf_tree(t),
        t.contains_key(k),
        under(k, p),
    ensures
        t.contains_key(p),
    decreases k.len() - p.len(),
{
    if k.len() > p.len() {
        assert(t.contains_key(k.drop_last()));
        assert(under(k.drop_last(), p)) by {
            assert(k.drop_last().subrange(0, p.len() as int) =~= k.subrange(0, p.len() as int));
        }
        lemma_ancestor_present(t, k.drop_last(), p);
    } else {
        assert(k =~= p) by {
            assert(k.subrange(0, p.len() as int) =~= k);
        }
    }
}

/// Removing nothing but entries at or below an absent path changes nothing.
pub proof fn lemma_without_absent(t: Map<Seq<Seq<char>>, bool>, p: Seq<Seq<char>>)
    requires
        wf_tree(t),
        !t.contains_key(p),
    ensures
        without_subtree(t, p) == t,
{
    assert forall|k: Seq<Seq<char>>| t.contains_key(k) implies !under(k, p) by {
        if under(k, p) {
            lemma_ancestor_present(t, k, p);
        }
    }
    assert(without_subtree(t, p) =~= t);
}

/// The subtree of a child is strictly smaller than the subtree of its parent,
/// also after removals.
proof fn lemma_child_subtree_smaller(
    t: Map<Seq<Seq<char>>, bool>,
    t0: Map<Seq<Seq<char>>, bool>,
    p: Seq<Seq<char>>,
    c: Seq<Seq<char>>,
)
    requires
        wf_tree(t0),
        t.dom().subset_of(t0.dom()),
        t0.contains_key(p),
        c.len() == p.len() + 1,
        under(c, p),
    ensures
        subtree_size(t, c) < subtree_size(t0, p),
{
    let sc = t.dom().filter(|k: Seq<Seq<char>>| under(k, c));
    let sp = t0.dom().filter(|k: Seq<Seq<char>>| under(k, p));
    assert forall|k: Seq<Seq<char>>| sc.contains(k) implies sp.remove(p).contains(k) by {
        assert(k.subrange(0, p.len() as int) =~= k.subrange(0, c.len() as int).subrange(0, p.len() as int));
        assert(k.len() >= c.len());
    }
    assert(sp.contains(p)) by {
        assert(p.subrange(0, p.len() as int) =~= p);
    }
    assert(sp.finite());
    vstd::set_lib::lemma_len_subset(sc, sp.remove(p));
}

/// A key below `p` that is not `p` lies below one of the children of `p`.
proof fn lemma_below_child(t: Map<Seq<Seq<char>>, bool>, k: Seq<Seq<char>>, p: Seq<Seq<char>>)
    requires
        wf_tree(t),
        t.contains_key(k),
        under(k, p),
        k != p,
    ensures
        k.len() > p.len(),
        t.contains_key(k.subrange(0, p.len() + 1int)),
        under(k, k.subrange(0, p.len() + 1int)),
        under(k.subrange(0, p.len() + 1int), p),
        k.subrange(0, p.len() + 1int) == p.push(k[p.len() as int]),
{
    if k.len() == p.len() {
        assert(k =~= p) by {
            assert(k.subrange(0, p.len() as int) =~= k);
        }
    }
    let c = k.subrange(0, p.len() + 1int);
    assert(c.subrange(0, c.len() as int) =~= c);
    assert(c.subrange(0, p.len() as int) =~= k.subrange(0, p.len() as int));
    assert(c =~= p.push(k[p.len() as int]));
    lemma_ancestor_present(t, k, c);
}

/// Some name among the first `n` of `ns`, appended to `p`, is an ancestor of
/// (or equal to) `k`.
pub open spec fn below_listed(k: Seq<Seq<char>>, p: Seq<Seq<char>>, ns: Seq<Seq<char>>, n: int) -> bool {
    exists|j: int| 0 <= j < n && #[trigger] under(k, p.push(ns[j]))
}

// ---------------------------------------------------------------------------
// The writer
// ---------------------------------------------------------------------------

/// High-level ext4 image writer that wraps arcbox-ext4's `Formatter`.
pub struct Ext4Writer {
    formatter: arcbox_ext4::Formatter,
    /// The target of every hard link made so far, in order.
    link_log: Vec<String>,
}

/// No regular file or symlink of `f` has more links than the paths in `log`
/// that name it, plus one.
pub open spec fn link_budget(f: arcbox_ext4::Formatter, log: Seq<Seq<char>>) -> bool {
    forall|k: Seq<Seq<char>>|
        #![trigger nlink_at(f, k)]
        image_tree(f).contains_key(k) && !image_tree(f)[k] && !image_links(f).contains(k) ==> nlink_at(f, k)
            <= 1 + links_to(log, k)
}

/// A create call keeps the link budget: its non-directory entries were
/// there before (and gained no link), but for `p`, which is new with one
/// link or was there before.
proof fn lemma_budget_after_create(
    f0: arcbox_ext4::Formatter,
    f1: arcbox_ext4::Formatter,
    log: Seq<Seq<char>>,
    p: Seq<Seq<char>>,
)
    requires
        link_budget(f0, log),
        wf_tree(image_tree(f1)),
        grown_by_dirs(f0, f1, p),
        nlink_bounded(f0, f1, seq![]),
        image_tree(f1).contains_key(p) && !image_tree(f1)[p] ==> nlink_at(f1, p) <= 1 || (image_tree(
            f0,
        ).contains_key(p) && !image_tree(f0)[p]),
    ensures
        link_budget(f1, log),
{
    assert forall|k: Seq<Seq<char>>|
        image_tree(f1).contains_key(k) && !image_tree(f1)[k] && !image_links(f1).contains(k) implies #[trigger] nlink_at(
        f1,
        k,
    ) <= 1 + links_to(log, k) by {
        if k != p || (image_tree(f0).contains_key(p) && !image_tree(f0)[p]) {
            assert(image_tree(f0).contains_key(k) && !image_tree(f0)[k]);
            assert(k != Seq::<Seq<char>>::empty());
            assert(nlink_at(f1, k) <= nlink_at(f0, k));
            assert(nlink_at(f0, k) <= 1 + links_to(log, k));
        }
    }
}

/// A hard link to `t` keeps the link budget with `t` logged: every
/// non-directory entry left was there before, and only `t` gained a link.
proof fn lemma_budget_after_link(
    f0: arcbox_ext4::Formatter,
    f1: arcbox_ext4::Formatter,
    log: Seq<Seq<char>>,
    t: Seq<char>,
)
    requires
        link_budget(f0, log),
        nlink_bounded(f0, f1, comps_of(t)),
        forall|k: Seq<Seq<char>>|
            #![trigger image_tree(f1)[k]]
            image_tree(f1).contains_key(k) && !image_tree(f1)[k] && !image_links(f1).contains(k)
                ==> image_tree(f0).contains_key(k) && !image_tree(f0)[k] && !image_links(f0).contains(k),
    ensures
        link_budget(f1, log.push(t)),
{
    assert forall|k: Seq<Seq<char>>|
        image_tree(f1).contains_key(k) && !image_tree(f1)[k] && !image_links(f1).contains(k) implies #[trigger] nlink_at(
        f1,
        k,
    ) <= 1 + links_to(log.push(t), k) by {
        assert(log.push(t).drop_last() =~= log);
        assert(image_tree(f0).contains_key(k) && !image_tree(f0)[k] && !image_links(f0).contains(k));
        assert(nlink_at(f0, k) <= 1 + links_to(log, k));
    }
}

/// A call that only removes entries keeps the link budget.
proof fn lemma_budget_shrunk(f0: arcbox_ext4::Formatter, f1: arcbox_ext4::Formatter, log: Seq<Seq<char>>)
    requires
        link_budget(f0, log),
        wf_tree(image_tree(f1)),
        nlink_bounded(f0, f1, seq![]),
        shrunk(f0, f1),
    ensures
        link_budget(f1, log),
{
    assert forall|k: Seq<Seq<char>>|
        image_tree(f1).contains_key(k) && !image_tree(f1)[k] && !image_links(f1).contains(k) implies #[trigger] nlink_at(
        f1,
        k,
    ) <= 1 + links_to(log, k) by {
        assert(image_tree(f1)[k] == image_tree(f0)[k]);
        assert(k != Seq::<Seq<char>>::empty());
        assert(nlink_at(f0, k) <= 1 + links_to(log, k));
    }
}

/// A call that changes only metadata keeps inodes apart and the link
/// budget.
proof fn lemma_budget_same(f0: arcbox_ext4::Formatter, f1: arcbox_ext4::Formatter, log: Seq<Seq<char>>)
    requires
        link_budget(f0, log),
        distinct_inodes(f0),
        image_tree(f1) == image_tree(f0),
        image_links(f1) == image_links(f0),
        image_inode(f1) == image_inode(f0),
        image_nlink(f1) == image_nlink(f0),
        image_data(f1) == image_data(f0),
        image_target(f1) == image_target(f0),
        image_xattrs(f1) == image_xattrs(f0),
        image_times(f1) == image_times(f0),
    ensures
        link_budget(f1, log),
        distinct_inodes(f1),
        contents_all_kept(f0, f1),
{
    assert forall|k: Seq<Seq<char>>|
        image_tree(f1).contains_key(k) && !image_tree(f1)[k] && !image_links(f1).contains(k) implies #[trigger] nlink_at(
        f1,
        k,
    ) <= 1 + links_to(log, k) by {
        assert(nlink_at(f0, k) <= 1 + links_to(log, k));
    }
    assert forall|k1: Seq<Seq<char>>, k2: Seq<Seq<char>>|
        image_tree(f1).contains_key(k1) && image_tree(f1).contains_key(k2) && !image_links(f1).contains(k1)
            && !image_links(f1).contains(k2) && k1 != k2 implies #[trigger] image_inode(f1)[k1]
        != #[trigger] image_inode(f1)[k2] by {
        assert(image_inode(f0)[k1] != image_inode(f0)[k2]);
    }
}

/// How many of the paths in `log` name the entry `q`.
pub open spec fn links_to(log: Seq<Seq<char>>, q: Seq<Seq<char>>) -> nat
    decreases log.len(),
{
    if log.len() == 0 {
        0
    } else {
        links_to(log.drop_last(), q) + if comps_of(log.last()) == q {
            1nat
        } else {
            0nat
        }
    }
}

/// An image as the library models it: the directory tree (entry to "is a
/// directory"), the mode and owner of each entry, and the hard links.
pub type ImageState = (
    Map<Seq<Seq<char>>, bool>,
    Map<Seq<Seq<char>>, (u16, u32, u32)>,
    Set<Seq<Seq<char>>>,
);

/// Every entry of `n` that `o` also has, other than those at or below
/// `except`, holds what it held in `o`.
pub open spec fn kept_contents(o: Ext4Writer, n: Ext4Writer, except: Option<Seq<Seq<char>>>) -> bool {
    forall|k: Seq<Seq<char>>|
        #![trigger n.content(k)]
        n.tree().contains_key(k) && o.tree().contains_key(k) && !(except matches Some(e) && under(k, e))
            ==> n.content(k) == o.content(k)
}

/// Keeping every entry's content keeps that of the entries outside any
/// subtree.
pub proof fn lemma_kept_outside(o: Ext4Writer, n: Ext4Writer, p: Seq<Seq<char>>)
    requires
        kept_contents(o, n, None),
    ensures
        kept_contents(o, n, Some(p)),
{
    assert forall|k: Seq<Seq<char>>|
        n.tree().contains_key(k) && o.tree().contains_key(k) && !(Some(p) matches Some(e) && under(k, e))
            implies #[trigger] n.content(k) == o.content(k) by {
        assert(n.tree().contains_key(k) && o.tree().contains_key(k) && !(None::<Seq<Seq<char>>> matches Some(
            e,
        ) && under(k, e)));
    }
}

/// An unchanged writer keeps every entry's content.
pub proof fn lemma_kept_same(w: Ext4Writer)
    ensures
        kept_contents(w, w, None),
{
}

/// Two steps that each keep every entry's content, the second removing no
/// entry, keep every entry's content.
pub proof fn lemma_kept_chain(a: Ext4Writer, b: Ext4Writer, c: Ext4Writer)
    requires
        kept_contents(a, b, None),
        kept_contents(b, c, None),
        c.tree() == b.tree(),
    ensures
        kept_contents(a, c, None),
{
    assert forall|k: Seq<Seq<char>>|
        c.tree().contains_key(k) && a.tree().contains_key(k) && !(None::<Seq<Seq<char>>> matches Some(e)
            && under(k, e)) implies #[trigger] c.content(k) == a.content(k) by {
        assert(c.content(k) == b.content(k));
        assert(b.content(k) == a.content(k));
    }
}

/// A model as the formatter keeps it.
pub open spec fn wf_state(s: ImageState) -> bool {
    wf_tree(s.0) && wf_meta(s.0, s.1, s.2)
}

/// The permission bits a mode sets: `mode & 0o7777`.
pub open spec fn perm_of(mode: u32) -> u16 {
    (mode % 4096) as u16
}

/// The model after deleting `p` (see [`delete_effect`]): metadata and hard
/// links of the removed entries go with them.
pub open spec fn state_delete(s: ImageState, p: Seq<Seq<char>>) -> ImageState {
    let t = delete_effect(s.0, p);
    (t, s.1.restrict(t.dom()), s.2.intersect(t.dom()))
}

/// The model after clearing `p` (see [`clear_effect`]).
pub open spec fn state_clear(s: ImageState, p: Seq<Seq<char>>) -> ImageState {
    let t = clear_effect(s.0, p);
    (t, s.1.restrict(t.dom()), s.2.intersect(t.dom()))
}

/// The model after creating the absent `p` with metadata `own`, its missing
/// ancestors first.
pub open spec fn state_create(
    s: ImageState,
    p: Seq<Seq<char>>,
    dir: bool,
    own: (u16, u32, u32),
) -> ImageState {
    (with_created(s.0, p, dir), created_meta(s.0, s.1, p, own), s.2)
}

/// The model after writing a regular file at `p`: what was there is
/// deleted, then the file is created with mode `S_IFREG | perm` and owner
/// `uid:gid`.
pub open spec fn state_write(s: ImageState, p: Seq<Seq<char>>, perm: u16, uid: u32, gid: u32) -> ImageState {
    state_create(state_delete(s, p), p, false, (reg_mode(perm), uid, gid))
}

/// The model after creating a symbolic link at `p`: what was there is
/// deleted, then the link is created with the inherited owner.
pub open spec fn state_symlink(s: ImageState, p: Seq<Seq<char>>) -> ImageState {
    let s1 = state_delete(s, p);
    let o = inherited_owner(s1.0, s1.1, p);
    state_create(s1, p, false, (symlink_mode(), o.0, o.1))
}

/// The model after creating a hard link at `p`: what was there is deleted,
/// then a link entry is added (it reports a directory and shows the root's
/// metadata, see [`image_meta`]).
pub open spec fn state_link(s: ImageState, p: Seq<Seq<char>>) -> ImageState {
    let s1 = state_delete(s, p);
    (s1.0.insert(p, true), s1.1.insert(p, s1.1[seq![]]), s1.2.insert(p))
}

/// The model after setting the permission bits of `p`'s inode.
pub open spec fn state_perm(s: ImageState, p: Seq<Seq<char>>, perm: u16) -> ImageState {
    (s.0, with_perm(s.1, s.2, p, perm), s.2)
}

/// The model after setting the owner of `p`'s inode.
pub open spec fn state_owner(s: ImageState, p: Seq<Seq<char>>, uid: u32, gid: u32) -> ImageState {
    (s.0, with_owner(s.1, s.2, p, uid, gid), s.2)
}

/// The model after `mkdir -p` of `p` with permission bits `perm` and owner
/// `uid:gid`: an existing directory gets the permission bits and, when an
/// owner part is given, the owner (a missing part as 0); otherwise the
/// directory is created with the given owner parts and the inherited ones
/// for the rest.
pub open spec fn state_mkdir(
    s: ImageState,
    p: Seq<Seq<char>>,
    perm: u16,
    uid: Option<u32>,
    gid: Option<u32>,
) -> ImageState {
    if s.0.contains_key(p) {
        let s1 = state_perm(s, p, perm);
        if uid is Some || gid is Some {
            state_owner(
                s1,
                p,
                match uid {
                    Some(u) => u,
                    None => 0,
                },
                match gid {
                    Some(g) => g,
                    None => 0,
                },
            )
        } else {
            s1
        }
    } else {
        let o = inherited_owner(s.0, s.1, p);
        state_create(
            s,
            p,
            true,
            (
                dir_mode(perm),
                match uid {
                    Some(u) => u,
                    None => o.0,
                },
                match gid {
                    Some(g) => g,
                    None => o.1,
                },
            ),
        )
    }
}

/// Restricting a well-formed model's metadata and links to its own tree
/// changes nothing.
proof fn lemma_restrict_own(s: ImageState)
    requires
        wf_state(s),
    ensures
        s.1.restrict(s.0.dom()) == s.1,
        s.2.intersect(s.0.dom()) == s.2,
{
    assert(s.1.restrict(s.0.dom()) =~= s.1);
    assert(s.2.intersect(s.0.dom()) =~= s.2);
}

/// Deleting a path that is absent leaves a well-formed model as it is.
proof fn lemma_state_delete_absent(s: ImageState, p: Seq<Seq<char>>)
    requires
        wf_state(s),
        !s.0.contains_key(p),
    ensures
        state_delete(s, p) == s,
{
    lemma_without_absent(s.0, p);
    if p.len() == 0 {
        assert(without_children(s.0, p) =~= s.0);
    }
    lemma_restrict_own(s);
}

/// Deleting `p` and then creating it anew (a file or symlink) keeps the
/// writer's counts, keeps what every entry outside `p`'s subtree holds, and,
/// on success, gives `p` an inode of its own.
proof fn lemma_after_create(o: Ext4Writer, mid: Ext4Writer, n: Ext4Writer, p: Seq<Seq<char>>, ok: bool)
    requires
        mid.wf(),
        n.link_log == mid.link_log,
        kept_contents(o, mid, None),
        mid.state() == state_delete(o.state(), p),
        wf_tree(image_tree(n.formatter)),
        grown_by_dirs(mid.formatter, n.formatter, p),
        nlink_bounded(mid.formatter, n.formatter, seq![]),
        contents_all_kept(mid.formatter, n.formatter),
        distinct_inodes(n.formatter),
        ok ==> new_inode_at(n.formatter, p),
        !ok ==> image_tree(n.formatter).contains_key(p) == image_tree(mid.formatter).contains_key(p),
    ensures
        n.counts_ok(),
        kept_contents(o, n, Some(p)),
        ok ==> forall|k: Seq<Seq<char>>|
            #![trigger n.content(k)]
            n.tree().contains_key(k) && k != p ==> n.content(k).inode != n.content(p).inode,
{
    if p.len() > 0 {
        lemma_without_absent_after_delete(o.tree(), p);
        assert(!image_tree(mid.formatter).contains_key(p));
    }
    assert(link_budget(mid.formatter, mid.link_log()));
    if image_tree(n.formatter).contains_key(p) && !image_tree(n.formatter)[p] {
        if ok {
            assert(nlink_at(n.formatter, p) == 1);
        } else if p.len() == 0 {
            assert(p =~= Seq::<Seq<char>>::empty());
        }
    }
    lemma_budget_after_create(mid.formatter, n.formatter, mid.link_log(), p);
    assert(n.link_log() == mid.link_log());
    assert forall|k: Seq<Seq<char>>|
        n.tree().contains_key(k) && o.tree().contains_key(k) && !(Some(p) matches Some(e) && under(k, e))
            implies #[trigger] n.content(k) == o.content(k) by {
        if p.len() == 0 {
            assert(under(k, p)) by {
                assert(k.subrange(0, 0) =~= p);
            }
        }
        assert(mid.tree().contains_key(k));
        assert(content_at(n.formatter, k) == content_at(mid.formatter, k));
        assert(mid.content(k) == o.content(k));
    }
    if ok {
        assert forall|k: Seq<Seq<char>>|
            #![trigger n.content(k)]
            n.tree().contains_key(k) && k != p implies n.content(k).inode != n.content(p).inode by {
            assert(image_inode(n.formatter)[k] != image_inode(n.formatter)[p]);
        }
    }
}

impl Ext4Writer {
    /// The image as the library models it.
    pub closed spec fn state(&self) -> ImageState {
        (image_tree(self.formatter), image_meta(self.formatter), image_links(self.formatter))
    }

    /// The image's file tree.
    pub open spec fn tree(&self) -> Map<Seq<Seq<char>>, bool> {
        self.state().0
    }

    /// The mode and owner of each entry.
    pub open spec fn meta(&self) -> Map<Seq<Seq<char>>, (u16, u32, u32)> {
        self.state().1
    }

    /// The entries that are hard links.
    pub open spec fn links(&self) -> Set<Seq<Seq<char>>> {
        self.state().2
    }

    /// The volume label and UUID the image was made with.
    pub closed spec fn settings(&self) -> (Option<Seq<char>>, Option<uuid::Uuid>) {
        (image_label(self.formatter), image_uuid(self.formatter))
    }

    /// What entry `k` holds: its inode and that inode's data, symlink
    /// target, extended attributes and timestamps.
    pub closed spec fn content(&self, k: Seq<Seq<char>>) -> EntryContent {
        content_at(self.formatter, k)
    }

    /// The link count of the inode entry `k` refers to.
    pub closed spec fn link_count(&self, k: Seq<Seq<char>>) -> u16 {
        nlink_at(self.formatter, k)
    }

    /// The targets of the hard links made so far, in order.
    pub closed spec fn link_log(&self) -> Seq<Seq<char>> {
        self.link_log@.map_values(|s: String| s@)
    }

    /// Whether one more hard link to `q` fits the inode's 16-bit link
    /// count: fewer than 65534 hard links to `q` were made so far.
    pub open spec fn link_room(&self, q: Seq<Seq<char>>) -> bool {
        links_to(self.link_log(), q) < 65534
    }

    /// Distinct entries other than hard links have distinct inodes, the
    /// logged link targets are canonical paths, and no regular file or
    /// symlink has more links than the hard links made to it so far, plus
    /// one.
    pub closed spec fn counts_ok(&self) -> bool {
        &&& distinct_inodes(self.formatter)
        &&& forall|i: int| 0 <= i < self.link_log@.len() ==> canonical(#[trigger] self.link_log@[i]@)
        &&& link_budget(self.formatter, self.link_log())
    }

    /// The writer's model is well formed.
    pub open spec fn wf(&self) -> bool {
        wf_state(self.state()) && self.counts_ok()
    }

    /// Create a new ext4 image file of `size` bytes at `path`, with the
    /// superblock overrides of `opts`.
    ///
    /// A label that does not fit the superblock's 16-byte `volume_name` field
    /// (or holds a NUL) is refused with [`Error::InvalidLabel`] before the
    /// file is touched. Otherwise the formatter creates the image; its
    /// failures come back as [`Error::Ext4Format`]. A new image holds the
    /// root directory (`0o755`) and `/lost+found` (`0o700`), owned by 0:0.
    /// The size must be above 0 and below 16 TiB (a 32-bit count of 4 KiB
    /// blocks), else the formatter's block arithmetic overflows.
    pub fn create(path: &str, size: u64, opts: &Ext4Options) -> (r: Result<Self>)
        requires
            image_size_ok(size),
        ensures
            match opts.label_view() {
                Some(l) => !label_fits(l) ==> (r matches Err(Error::InvalidLabel(m)) && m@ == l),
                None => true,
            },
            r matches Ok(w) ==> w.wf() && w.state() == (
                initial_tree(),
                initial_meta(),
                Set::<Seq<Seq<char>>>::empty(),
            ) && w.settings() == (opts.label_view(), opts.uuid_view()) && w.link_log() == Seq::<
                Seq<char>,
            >::empty(),
            opts.label_ok() ==> (r matches Err(e) ==> e is Ext4Format),
    {
        let label = opts.label_str();
        if let Some(l) = label {
            if !label_fits_exec(l) {
                return Err(Error::InvalidLabel(String::from_str(l)));
            }
        }
        let owned_label = match label {
            Some(l) => Some(String::from_str(l)),
            None => None,
        };
        match fmt_with_options(path, size, opts.uuid_value(), owned_label) {
            Ok(formatter) => {
                let w = Ext4Writer { formatter, link_log: Vec::new() };
                proof {
                    lemma_initial_tree_wf();
                    assert(initial_meta().dom() =~= initial_tree().dom());
                    assert(w.link_log() =~= Seq::<Seq<char>>::empty());
                    assert forall|k: Seq<Seq<char>>| image_tree(w.formatter).contains_key(k) implies image_tree(
                        w.formatter,
                    )[k] by {
                        assert(initial_tree().dom() =~= set![seq![], seq![lost_found()]]);
                    }
                }
                Ok(w)
            },
            Err(e) => Err(Error::Ext4Format(e)),
        }
    }

    /// Create a directory (and any missing parents) with ownership and
    /// extended attributes.
    ///
    /// Extended attributes are applied when the directory inode is first
    /// created. If the directory already exists, only mode and ownership are
    /// updated, because the formatter has no post-creation xattr mutation.
    /// An existing non-directory at `path` makes it fail.
    pub fn mkdir_p_with_metadata(
        &mut self,
        path: &str,
        mode: u32,
        uid: Option<u32>,
        gid: Option<u32>,
        xattrs: Option<&HashMap<String, Vec<u8>>>,
    ) -> (r: Result<()>)
        requires
            old(self).wf(),
            canonical(path@),
        ensures
            final(self).settings() == old(self).settings(),
            final(self).wf(),
            r is Ok ==> final(self).state() == state_mkdir(
                old(self).state(),
                comps_of(path@),
                perm_of(mode),
                uid,
                gid,
            ),
            r matches Err(e) ==> e is Ext4Format,
            old(self).tree().contains_key(comps_of(path@)) ==> (r is Ok <==> old(self).tree()[comps_of(
                path@,
            )]),
            old(self).tree().contains_key(comps_of(path@)) && !old(self).tree()[comps_of(path@)]
                ==> final(self).state() == old(self).state(),
            final(self).link_log() == old(self).link_log(),
            kept_contents(*old(self), *final(self), None),
            r is Ok && !old(self).tree().contains_key(comps_of(path@)) ==> final(self).content(
                comps_of(path@),
            ).xattrs == Some(xattr_view(xattrs)),
    {
        let perm = permission_bits(mode);
        let ghost f0 = self.formatter;
        if !fmt_is_dir(&self.formatter, path) {
            let res = fmt_create_dir(&mut self.formatter, path, perm, uid, gid, xattrs);
            proof {
                lemma_budget_after_create(f0, self.formatter, self.link_log(), comps_of(path@));
            }
            match res {
                Ok(()) => Ok(()),
                Err(e) => Err(Error::Ext4Format(e)),
            }
        } else {
            let res = fmt_set_permissions(&mut self.formatter, path, perm);
            proof {
                lemma_budget_same(f0, self.formatter, self.link_log());
            }
            match res {
                Ok(()) => {},
                Err(e) => {
                    return Err(Error::Ext4Format(e));
                },
            }
            let ghost f1 = self.formatter;
            if uid.is_some() || gid.is_some() {
                let u = match uid {
                    Some(u) => u,
                    None => 0,
                };
                let g = match gid {
                    Some(g) => g,
                    None => 0,
                };
                let res = fmt_set_owner(&mut self.formatter, path, u, g);
                proof {
                    lemma_budget_same(f1, self.formatter, self.link_log());
                }
                match res {
                    Ok(()) => {},
                    Err(e) => {
                        return Err(Error::Ext4Format(e));
                    },
                }
            }
            Ok(())
        }
    }

    /// Create a directory (and any missing parents) with the given mode.
    pub fn mkdir_p(&mut self, path: &str, mode: u32) -> (r: Result<()>)
        requires
            old(self).wf(),
            canonical(path@),
        ensures
            final(self).settings() == old(self).settings(),
            final(self).wf(),
            r is Ok ==> final(self).state() == state_mkdir(
                old(self).state(),
                comps_of(path@),
                perm_of(mode),
                None,
                None,
            ),
            r matches Err(e) ==> e is Ext4Format,
            old(self).tree().contains_key(comps_of(path@)) ==> (r is Ok <==> old(self).tree()[comps_of(
                path@,
            )]),
            old(self).tree().contains_key(comps_of(path@)) && !old(self).tree()[comps_of(path@)]
                ==> final(self).state() == old(self).state(),
            final(self).link_log() == old(self).link_log(),
            kept_contents(*old(self), *final(self), None),
            r is Ok && !old(self).tree().contains_key(comps_of(path@)) ==> final(self).content(
                comps_of(path@),
            ).xattrs == Some(xattr_view(None)),
    {
        self.mkdir_p_with_metadata(path, mode, None, None, None)
    }

    /// Write a regular file holding `data`, with extended attributes,
    /// creating parent directories as needed.
    ///
    /// An entry already at `path` is removed first (a later layer overrides
    /// an earlier one): directories recursively, anything else unlinked.
    /// Writing at `/` fails, since the root stays a directory.
    pub fn write_file_with_xattrs(
        &mut self,
        path: &str,
        data: &[u8],
        mode: u32,
        uid: u32,
        gid: u32,
        xattrs: Option<&HashMap<String, Vec<u8>>>,
    ) -> (r: Result<()>)
        requires
            old(self).wf(),
            canonical(path@),
        ensures
            final(self).settings() == old(self).settings(),
            final(self).wf(),
            r is Ok ==> final(self).state() == state_write(
                old(self).state(),
                comps_of(path@),
                perm_of(mode),
                uid,
                gid,
            ),
            r matches Err(e) ==> e is Ext4Format,
            path@ == seq!['/'] ==> r is Err,
            final(self).link_log() == old(self).link_log(),
            kept_contents(*old(self), *final(self), Some(comps_of(path@))),
            r is Ok ==> final(self).content(comps_of(path@)).data == Some(data@),
            r is Ok ==> final(self).content(comps_of(path@)).xattrs == Some(xattr_view(xattrs)),
            r is Ok ==> final(self).link_count(comps_of(path@)) == 1,
            r is Ok ==> forall|k: Seq<Seq<char>>|
                #![trigger final(self).content(k)]
                final(self).tree().contains_key(k) && k != comps_of(path@) ==> final(self).content(k).inode
                    != final(self).content(comps_of(path@)).inode,
    {
        let perm = permission_bits(mode);
        let ghost s0 = self.state();
        if fmt_exists(&self.formatter, path) {
            self.delete(path)?;
        } else {
            proof {
                lemma_state_delete_absent(s0, comps_of(path@));
            }
        }
        proof {
            lemma_comps_of_path_of(comps_of(path@));
            if comps_of(path@).len() > 0 {
                lemma_without_absent_after_delete(s0.0, comps_of(path@));
            }
        }
        let ghost mid = *self;
        let res = fmt_create_file(&mut self.formatter, path, data, perm, uid, gid, xattrs);
        proof {
            lemma_after_create(*old(self), mid, *self, comps_of(path@), res is Ok);
        }
        match res {
            Ok(()) => Ok(()),
            Err(e) => Err(Error::Ext4Format(e)),
        }
    }

    /// Write a regular file holding `data`, creating parent directories as
    /// needed; see [`Self::write_file_with_xattrs`].
    pub fn write_file(&mut self, path: &str, data: &[u8], mode: u32, uid: u32, gid: u32) -> (r:
        Result<()>)
        requires
            old(self).wf(),
            canonical(path@),
        ensures
            final(self).settings() == old(self).settings(),
            final(self).wf(),
            r is Ok ==> final(self).state() == state_write(
                old(self).state(),
                comps_of(path@),
                perm_of(mode),
                uid,
                gid,
            ),
            r matches Err(e) ==> e is Ext4Format,
            path@ == seq!['/'] ==> r is Err,
            final(self).link_log() == old(self).link_log(),
            kept_contents(*old(self), *final(self), Some(comps_of(path@))),
            r is Ok ==> final(self).content(comps_of(path@)).data == Some(data@),
            r is Ok ==> final(self).content(comps_of(path@)).xattrs == Some(xattr_view(None)),
            r is Ok ==> final(self).link_count(comps_of(path@)) == 1,
            r is Ok ==> forall|k: Seq<Seq<char>>|
                #![trigger final(self).content(k)]
                final(self).tree().contains_key(k) && k != comps_of(path@) ==> final(self).content(k).inode
                    != final(self).content(comps_of(path@)).inode,
    {
        self.write_file_with_xattrs(path, data, mode, uid, gid, None)
    }

    /// Create a symbolic link at `path` pointing to `target`, replacing any
    /// entry already there.
    pub fn symlink(&mut self, target: &str, path: &str) -> (r: Result<()>)
        requires
            old(self).wf(),
            canonical(path@),
            path@ != seq!['/'],
        ensures
            final(self).settings() == old(self).settings(),
            final(self).wf(),
            r is Ok ==> final(self).state() == state_symlink(old(self).state(), comps_of(path@)),
            r matches Err(e) ==> e is Ext4Format,
            final(self).link_log() == old(self).link_log(),
            kept_contents(*old(self), *final(self), Some(comps_of(path@))),
            r is Ok ==> final(self).content(comps_of(path@)).target == Some(target@),
            r is Ok ==> final(self).content(comps_of(path@)).xattrs == Some(xattr_view(None)),
            r is Ok ==> final(self).link_count(comps_of(path@)) == 1,
    {
        let ghost s0 = self.state();
        if fmt_exists(&self.formatter, path) {
            self.delete(path)?;
        } else {
            proof {
                lemma_state_delete_absent(s0, comps_of(path@));
            }
        }
        proof {
            lemma_comps_of_path_of(comps_of(path@));
            lemma_without_absent_after_delete(s0.0, comps_of(path@));
        }
        let ghost mid = *self;
        let res = fmt_create_symlink(&mut self.formatter, path, target, 0o777);
        proof {
            assert(symlink_mode_of(0o777u16) == symlink_mode()) by (bit_vector);
            lemma_after_create(*old(self), mid, *self, comps_of(path@), res is Ok);
        }
        match res {
            Ok(()) => Ok(()),
            Err(e) => Err(Error::Ext4Format(e)),
        }
    }

    /// Create a hard link at `path` pointing to the existing non-directory
    /// `target`, replacing any entry already at `path`. The parent of `path`
    /// must already exist.
    pub fn link(&mut self, target: &str, path: &str) -> (r: Result<()>)
        requires
            old(self).wf(),
            canonical(path@),
            canonical(target@),
            path@ != seq!['/'],
            old(self).link_room(comps_of(target@)),
        ensures
            final(self).settings() == old(self).settings(),
            final(self).wf(),
            r is Ok ==> final(self).state() == state_link(old(self).state(), comps_of(path@)),
            r is Ok ==> without_subtree(old(self).tree(), comps_of(path@)).contains_key(
                comps_of(target@),
            ) && !old(self).tree()[comps_of(target@)],
            r matches Err(e) ==> e is Ext4Format,
            final(self).link_log() == old(self).link_log().push(target@),
            kept_contents(*old(self), *final(self), Some(comps_of(path@))),
            r is Ok ==> final(self).content(comps_of(path@)) == old(self).content(comps_of(target@)),
            r is Ok && !old(self).tree().contains_key(comps_of(path@)) ==> final(self).link_count(
                comps_of(path@),
            ) == old(self).link_count(comps_of(target@)) + 1,
    {
        let ghost s0 = self.state();
        if fmt_exists(&self.formatter, path) {
            self.delete(path)?;
        } else {
            proof {
                lemma_state_delete_absent(s0, comps_of(path@));
            }
        }
        let ghost s1 = self.state();
        proof {
            lemma_comps_of_path_of(comps_of(path@));
            lemma_without_absent_after_delete(s0.0, comps_of(path@));
            lemma_without_absent(s1.0, comps_of(path@));
            lemma_restrict_own(s1);
        }
        let ghost mid = *self;
        let ghost t = comps_of(target@);
        proof {
            if image_tree(mid.formatter).contains_key(t) && !image_tree(mid.formatter)[t]
                && !image_links(mid.formatter).contains(t) {
                assert(nlink_at(mid.formatter, t) <= 1 + links_to(mid.link_log(), t));
            }
        }
        let res = fmt_link(&mut self.formatter, path, target);
        let ghost f2 = self.formatter;
        proof {
            assert forall|k: Seq<Seq<char>>|
                #![trigger image_tree(f2)[k]]
                image_tree(f2).contains_key(k) && !image_tree(f2)[k] && !image_links(f2).contains(k)
                    implies image_tree(mid.formatter).contains_key(k) && !image_tree(mid.formatter)[k]
                    && !image_links(mid.formatter).contains(k) by {
                if res is Ok {
                    assert(k != comps_of(path@));
                }
            }
            lemma_budget_after_link(mid.formatter, f2, mid.link_log(), target@);
        }
        self.link_log.push(String::from_str(target));
        proof {
            assert(self.link_log() =~= mid.link_log().push(target@));
            assert forall|k: Seq<Seq<char>>|
                self.tree().contains_key(k) && old(self).tree().contains_key(k) && !(Some(
                    comps_of(path@),
                ) matches Some(e) && under(k, e)) implies #[trigger] self.content(k) == old(self).content(k) by {
                assert(k != comps_of(path@)) by {
                    assert(under(k, k)) by {
                        assert(k.subrange(0, k.len() as int) =~= k);
                    }
                }
                assert(mid.tree().contains_key(k));
                assert(content_at(f2, k) == content_at(mid.formatter, k));
                assert(mid.content(k) == old(self).content(k));
            }
            if res is Ok {
                assert(mid.tree().contains_key(t));
                assert(mid.content(t) == old(self).content(t));
            }
        }
        match res {
            Ok(()) => Ok(()),
            Err(e) => Err(Error::Ext4Format(e)),
        }
    }

    /// Remove the entry at `path` (a file, symlink or directory, with
    /// everything below it).
    pub fn remove(&mut self, path: &str) -> (r: Result<()>)
        requires
            old(self).wf(),
            canonical(path@),
        ensures
            final(self).settings() == old(self).settings(),
            final(self).wf(),
            r is Ok,
            final(self).state() == state_delete(old(self).state(), comps_of(path@)),
            final(self).link_log() == old(self).link_log(),
            kept_contents(*old(self), *final(self), None),
    {
        self.delete(path)
    }

    /// Remove a directory and everything below it.
    pub fn rmdir(&mut self, path: &str) -> (r: Result<()>)
        requires
            old(self).wf(),
            canonical(path@),
        ensures
            final(self).settings() == old(self).settings(),
            final(self).wf(),
            r is Ok,
            final(self).state() == state_delete(old(self).state(), comps_of(path@)),
            final(self).link_log() == old(self).link_log(),
            kept_contents(*old(self), *final(self), None),
    {
        self.delete(path)
    }

    /// The names of the immediate children of the directory at `path`.
    pub fn list_dir(&self, path: &str) -> (r: Result<Vec<String>>)
        requires
            self.wf(),
            canonical(path@),
        ensures
            r matches Ok(names) && names_are_children(self.tree(), comps_of(path@), names@),
    {
        Ok(fmt_list_dir(&self.formatter, path))
    }

    /// Replace the permission bits of the entry at `path` (of its inode,
    /// keeping the file type); fails exactly when nothing is there.
    pub fn set_permissions(&mut self, path: &str, mode: u32) -> (r: Result<()>)
        requires
            old(self).wf(),
            canonical(path@),
        ensures
            final(self).settings() == old(self).settings(),
            final(self).wf(),
            r is Ok <==> old(self).tree().contains_key(comps_of(path@)),
            final(self).state() == if r is Ok {
                state_perm(old(self).state(), comps_of(path@), perm_of(mode))
            } else {
                old(self).state()
            },
            r matches Err(e) ==> e is Ext4Format,
            final(self).link_log() == old(self).link_log(),
            kept_contents(*old(self), *final(self), None),
            forall|k: Seq<Seq<char>>| #[trigger] final(self).link_count(k) == old(self).link_count(k),
    {
        let ghost f0 = self.formatter;
        let res = fmt_set_permissions(&mut self.formatter, path, permission_bits(mode));
        proof {
            lemma_budget_same(f0, self.formatter, self.link_log());
        }
        match res {
            Ok(()) => Ok(()),
            Err(e) => Err(Error::Ext4Format(e)),
        }
    }

    /// Set the owner of the entry at `path` (of its inode); fails exactly
    /// when nothing is there.
    pub fn set_owner(&mut self, path: &str, uid: u32, gid: u32) -> (r: Result<()>)
        requires
            old(self).wf(),
            canonical(path@),
        ensures
            final(self).settings() == old(self).settings(),
            final(self).wf(),
            r is Ok <==> old(self).tree().contains_key(comps_of(path@)),
            final(self).state() == if r is Ok {
                state_owner(old(self).state(), comps_of(path@), uid, gid)
            } else {
                old(self).state()
            },
            r matches Err(e) ==> e is Ext4Format,
            final(self).link_log() == old(self).link_log(),
            kept_contents(*old(self), *final(self), None),
            forall|k: Seq<Seq<char>>| #[trigger] final(self).link_count(k) == old(self).link_count(k),
    {
        let ghost f0 = self.formatter;
        let res = fmt_set_owner(&mut self.formatter, path, uid, gid);
        proof {
            lemma_budget_same(f0, self.formatter, self.link_log());
        }
        match res {
            Ok(()) => Ok(()),
            Err(e) => Err(Error::Ext4Format(e)),
        }
    }

    /// Finalize the ext4 image: write directories, inode table, bitmaps and
    /// superblock.
    pub fn finish(self) -> (r: Result<()>)
        ensures
            r matches Err(e) ==> e is Ext4Format,
    {
        match fmt_close(self.formatter) {
            Ok(()) => Ok(()),
            Err(e) => Err(Error::Ext4Format(e)),
        }
    }

    /// Whether one more hard link to `target` fits its inode's 16-bit link
    /// count; see [`Self::link_room`].
    pub fn has_link_room(&self, target: &str) -> (b: bool)
        requires
            self.wf(),
            canonical(target@),
        ensures
            b == self.link_room(comps_of(target@)),
    {
        let ghost q = comps_of(target@);
        let ghost log = self.link_log();
        let mut n: usize = 0;
        let mut i: usize = 0;
        while i < self.link_log.len()
            invariant
                self.wf(),
                canonical(target@),
                q == comps_of(target@),
                log == self.link_log(),
                i <= self.link_log@.len(),
                n == links_to(log.subrange(0, i as int), q),
                n <= i,
            decreases self.link_log.len() - i,
        {
            let ghost e = self.link_log@[i as int]@;
            proof {
                assert(log.subrange(0, i + 1).drop_last() =~= log.subrange(0, i as int));
                assert(log.subrange(0, i + 1).last() == e);
                assert(canonical(self.link_log@[i as int]@));
            }
            if crate::text::str_eq(self.link_log[i].as_str(), target) {
                n = n + 1;
            } else {
                proof {
                    if comps_of(e) == q {
                        assert(e == path_of(comps_of(e)));
                        assert(target@ == path_of(comps_of(target@)));
                    }
                }
            }
            i = i + 1;
        }
        proof {
            assert(log.subrange(0, log.len() as int) =~= log);
        }
        n < 65534
    }

    /// Whether the path exists.
    pub fn path_exists(&self, path: &str) -> (b: bool)
        requires
            self.wf(),
            canonical(path@),
        ensures
            b == self.tree().contains_key(comps_of(path@)),
    {
        fmt_exists(&self.formatter, path)
    }

    /// Whether the path exists and reports a directory.
    pub fn is_dir(&self, path: &str) -> (b: bool)
        requires
            self.wf(),
            canonical(path@),
        ensures
            b == (self.tree().contains_key(comps_of(path@)) && self.tree()[comps_of(path@)]),
    {
        fmt_is_dir(&self.formatter, path)
    }

    /// Delete any entry at `path`: file, symlink, or directory (recursively).
    ///
    /// Returns `Ok(())` if the path does not exist; this matches the
    /// semantics of OCI whiteouts, which may target entries that never
    /// appeared in a lower layer. Deleting `/` empties the root directory.
    pub fn delete(&mut self, path: &str) -> (r: Result<()>)
        requires
            old(self).wf(),
            canonical(path@),
        ensures
            final(self).settings() == old(self).settings(),
            final(self).wf(),
            r is Ok,
            final(self).state() == state_delete(old(self).state(), comps_of(path@)),
            final(self).link_log() == old(self).link_log(),
            kept_contents(*old(self), *final(self), None),
        decreases 2 * subtree_size(old(self).tree(), comps_of(path@)) + 1,
    {
        let ghost p = comps_of(path@);
        let ghost s0 = self.state();
        let ghost t0 = s0.0;
        if !fmt_exists(&self.formatter, path) {
            proof {
                lemma_state_delete_absent(s0, p);
            }
            return Ok(());
        }
        if fmt_is_dir(&self.formatter, path) {
            self.clear_dir(path)?;
        }
        let ghost s1 = self.state();
        assert(s1 == state_clear(s0, p) || s1 == s0);
        proof {
            lemma_restrict_own(s0);
        }
        if is_root_str(path) {
            proof {
                lemma_comps_of_path_of(p);
                assert(t0[p]);
            }
            return Ok(());
        }
        proof {
            lemma_comps_of_path_of(p);
        }
        let ghost f1 = self.formatter;
        let ghost w1 = *self;
        let _ = fmt_unlink(&mut self.formatter, path);
        proof {
            assert(shrunk(f1, self.formatter)) by {
                assert forall|k: Seq<Seq<char>>|
                    #![trigger image_tree(self.formatter)[k]]
                    image_tree(self.formatter).contains_key(k) implies image_tree(f1).contains_key(k)
                    && image_tree(self.formatter)[k] == image_tree(f1)[k] && image_links(
                    self.formatter,
                ).contains(k) == image_links(f1).contains(k) by {
                    assert(without_subtree(image_tree(f1), p).contains_key(k));
                }
            }
            lemma_budget_shrunk(f1, self.formatter, self.link_log());
            assert forall|k: Seq<Seq<char>>|
                self.tree().contains_key(k) && old(self).tree().contains_key(k) implies #[trigger] self.content(k) == old(self).content(k) by {
                assert(without_subtree(image_tree(f1), p).contains_key(k));
                assert(image_tree(f1).contains_key(k));
                assert(content_at(self.formatter, k) == content_at(f1, k));
                assert(w1.tree().contains_key(k));
                assert(w1.content(k) == old(self).content(k));
            }
            assert(without_subtree(s1.0, p) =~= without_subtree(t0, p));
            let s2 = self.state();
            assert(s2.1 =~= s0.1.restrict(s2.0.dom()));
            assert(s2.2 =~= s0.2.intersect(s2.0.dom()));
        }
        Ok(())
    }

    /// Recursively remove every child of `path`, leaving the directory
    /// itself. No-op when `path` does not exist or is not a directory.
    pub fn clear_dir(&mut self, path: &str) -> (r: Result<()>)
        requires
            old(self).wf(),
            canonical(path@),
        ensures
            final(self).settings() == old(self).settings(),
            final(self).wf(),
            r is Ok,
            final(self).state() == state_clear(old(self).state(), comps_of(path@)),
            final(self).link_log() == old(self).link_log(),
            kept_contents(*old(self), *final(self), None),
        decreases 2 * subtree_size(old(self).tree(), comps_of(path@)),
    {
        let ghost p = comps_of(path@);
        let ghost st0 = self.state();
        let ghost t0 = st0.0;
        proof {
            lemma_restrict_own(st0);
        }
        if !fmt_is_dir(&self.formatter, path) {
            return Ok(());
        }
        let names = fmt_list_dir(&self.formatter, path);
        let ghost ns = names@.map_values(|s: String| s@);
        proof {
            assert(t0.filter_keys(|k: Seq<Seq<char>>| !below_listed(k, p, ns, 0)) =~= t0);
            assert forall|k: Seq<Seq<char>>|
                #![trigger t0.contains_key(k)]
                t0.contains_key(k) && k.len() == p.len() + 1 && under(k, p) implies exists|j: int|
                    0 <= j < ns.len() && ns[j] == k.last() by {
                assert(k =~= p.push(k.last())) by {
                    assert(k.subrange(0, p.len() as int) == p);
                    assert forall|m: int| 0 <= m < p.len() implies k[m] == p[m] by {
                        assert(k.subrange(0, p.len() as int)[m] == k[m]);
                    }
                }
                assert(t0.contains_key(p.push(k.last())));
                let j = choose|j: int| 0 <= j < names@.len() && names@[j]@ == k.last();
                assert(ns[j] == names@[j]@);
            }
            assert forall|j: int| 0 <= j < ns.len() implies t0.contains_key(p.push(#[trigger] ns[j])) by {
                assert(ns[j] == names@[j]@);
            }
        }
        let ghost s0 = self.settings();
        let mut i: usize = 0;
        while i < names.len()
            invariant
                self.wf(),
                self.settings() == s0,
                s0 == old(self).settings(),
                st0 == old(self).state(),
                t0 == st0.0,
                canonical(path@),
                p == comps_of(path@),
                wf_tree(t0),
                t0.contains_key(p),
                t0[p],
                i <= names@.len(),
                ns == names@.map_values(|s: String| s@),
                forall|j: int| 0 <= j < ns.len() ==> t0.contains_key(p.push(#[trigger] ns[j])),
                forall|k: Seq<Seq<char>>|
                    #![trigger t0.contains_key(k)]
                    t0.contains_key(k) && k.len() == p.len() + 1 && under(k, p) ==> exists|j: int|
                        0 <= j < ns.len() && ns[j] == k.last(),
                self.tree() == t0.filter_keys(|k: Seq<Seq<char>>| !below_listed(k, p, ns, i as int)),
                self.meta() == st0.1.restrict(self.tree().dom()),
                self.links() == st0.2.intersect(self.tree().dom()),
                subtree_size(old(self).tree(), p) == subtree_size(t0, p),
                self.link_log() == old(self).link_log(),
                kept_contents(*old(self), *self, None),
            decreases names@.len() - i,
        {
            let ghost n = ns[i as int];
            let ghost c = p.push(n);
            proof {
                assert(t0.contains_key(c));
                assert(valid_comps(c));
                assert(valid_name(n)) by {
                    assert(c[c.len() - 1] == n);
                }
                lemma_join_spec(p, n);
                lemma_comps_of_path_of(p);
                lemma_comps_of_path_of(c);
                assert(names@[i as int]@ == n);
            }
            let child = join(path, names[i].as_str());
            proof {
                assert(under(c, p)) by {
                    assert(c.subrange(0, p.len() as int) =~= p);
                }
                lemma_child_subtree_smaller(self.tree(), t0, p, c);
            }
            let ghost scur = self.state();
            let ghost wcur = *self;
            self.delete(child.as_str())?;
            proof {
                assert forall|k: Seq<Seq<char>>|
                    self.tree().contains_key(k) && old(self).tree().contains_key(k) implies #[trigger] self.content(k)
                    == old(self).content(k) by {
                    assert(wcur.tree().contains_key(k));
                    assert(self.content(k) == wcur.content(k));
                }
                assert(comps_of(child@) == c);
                assert(p.len() + 1 > 0);
                let tn = t0.filter_keys(|k: Seq<Seq<char>>| !below_listed(k, p, ns, i + 1));
                assert forall|k: Seq<Seq<char>>| #[trigger] below_listed(k, p, ns, i + 1) <==> (
                    below_listed(k, p, ns, i as int) || under(k, c)) by {
                    if under(k, c) {
                        assert(under(k, p.push(ns[i as int])));
                    }
                    if below_listed(k, p, ns, i + 1) && !under(k, c) {
                        let j = choose|j: int| 0 <= j < i + 1 && #[trigger] under(k, p.push(ns[j]));
                        assert(j != i);
                    }
                }
                assert(self.tree() =~= tn);
                assert(self.meta() =~= st0.1.restrict(self.tree().dom()));
                assert(self.links() =~= st0.2.intersect(self.tree().dom()));
            }
            i = i + 1;
        }
        proof {
            assert forall|k: Seq<Seq<char>>| #[trigger] t0.contains_key(k) implies (below_listed(
                k,
                p,
                ns,
                ns.len() as int,
            ) <==> (under(k, p) && k != p)) by {
                if below_listed(k, p, ns, ns.len() as int) {
                    let j = choose|j: int| 0 <= j < ns.len() && #[trigger] under(k, p.push(ns[j]));
                    let c = p.push(ns[j]);
                    assert(k.subrange(0, p.len() as int) =~= k.subrange(0, c.len() as int).subrange(0, p.len() as int));
                    assert(c.subrange(0, p.len() as int) =~= p);
                }
                if under(k, p) && k != p {
                    lemma_below_child(t0, k, p);
                    let c = k.subrange(0, p.len() + 1int);
                    assert(under(c, p));
                    let j = choose|j: int| 0 <= j < ns.len() && ns[j] == c.last();
                    assert(c =~= p.push(ns[j]));
                    assert(under(k, p.push(ns[j])));
                }
            }
            assert(self.tree() =~= without_children(t0, p));
        }
        Ok(())
    }
}


/// `names` are exactly the names of the children of `p` in `t`.
pub open spec fn names_are_children(t: Map<Seq<Seq<char>>, bool>, p: Seq<Seq<char>>, names: Seq<
    String,
>) -> bool {
    &&& forall|i: int| 0 <= i < names.len() ==> t.contains_key(p.push(#[trigger] names[i]@))
    &&& forall|n: Seq<char>|
        #![trigger t.contains_key(p.push(n))]
        t.contains_key(p.push(n)) ==> exists|i: int| 0 <= i < names.len() && names[i]@ == n
}

/// The permission bits (`mode & 0o7777`) of a mode.
pub fn permission_bits(mode: u32) -> (r: u16)
    ensures
        r == mode % 4096,
{
    let m: u32 = mode % 4096;
    m as u16
}

/// A freshly formatted image's tree is well formed.
pub proof fn lemma_initial_tree_wf()
    ensures
        wf_tree(initial_tree()),
{
    let t = initial_tree();
    assert(t.dom() =~= set![seq![], seq![lost_found()]]);
    assert(valid_name(lost_found())) by {
        assert(lost_found()[0] == 'l');
        assert(lost_found().len() == 10);
    }
    assert forall|k: Seq<Seq<char>>| #[trigger] t.contains_key(k) implies valid_comps(k) by {
        if k == seq![lost_found()] {
            assert(k[0] == lost_found());
        }
    }
    assert forall|k: Seq<Seq<char>>| #[trigger] t.contains_key(k) && k.len() > 0 implies t.contains_key(
        k.drop_last(),
    ) by {
        assert(k == seq![lost_found()]);
        assert(k.drop_last() =~= seq![]);
    }
}

/// After deleting a non-root path, it is gone.
proof fn lemma_without_absent_after_delete(t: Map<Seq<Seq<char>>, bool>, p: Seq<Seq<char>>)
    requires
        p.len() > 0,
    ensures
        !without_subtree(t, p).contains_key(p),
{
    assert(under(p, p)) by {
        assert(p.subrange(0, p.len() as int) =~= p);
    }
}

/// What deleting `p` does to a tree: `p` and everything below it go; for the
/// root, only what is below it.
pub open spec fn delete_effect(t: Map<Seq<Seq<char>>, bool>, p: Seq<Seq<char>>) -> Map<
    Seq<Seq<char>>,
    bool,
> {
    if p.len() == 0 {
        without_children(t, p)
    } else {
        without_subtree(t, p)
    }
}

/// What clearing `p` does to a tree: everything strictly below a directory
/// `p` goes; anything else is left alone.
pub open spec fn clear_effect(t: Map<Seq<Seq<char>>, bool>, p: Seq<Seq<char>>) -> Map<
    Seq<Seq<char>>,
    bool,
> {
    if t.contains_key(p) && t[p] {
        without_children(t, p)
    } else {
        t
    }
}

} // verus!

verus! {

// ---------------------------------------------------------------------------
// Laws of the writer's operations
// ---------------------------------------------------------------------------

/// Deleting a path that does not exist leaves the image as it is.
pub proof fn law_delete_missing_is_noop(t: Map<Seq<Seq<char>>, bool>, p: Seq<Seq<char>>)
    requires
        wf_tree(t),
        !t.contains_key(p),
    ensures
        delete_effect(t, p) == t,
{
    lemma_without_absent(t, p);
}

/// Deleting a path other than `/` removes it and everything below it, and
/// keeps every other entry as it was.
pub proof fn law_delete_removes_subtree(t: Map<Seq<Seq<char>>, bool>, p: Seq<Seq<char>>)
    requires
        wf_tree(t),
        p.len() > 0,
    ensures
        forall|k: Seq<Seq<char>>| under(k, p) ==> !#[trigger] delete_effect(t, p).contains_key(k),
        forall|k: Seq<Seq<char>>|
            !under(k, p) && #[trigger] t.contains_key(k) ==> delete_effect(t, p).contains_key(k)
                && delete_effect(t, p)[k] == t[k],
        wf_tree(delete_effect(t, p)),
{
    lemma_without_subtree_wf(t, p);
}

/// Clearing a directory removes everything below it and keeps the directory
/// itself and every entry outside it; clearing anything else (a file, or a
/// path that does not exist) changes nothing.
pub proof fn law_clear_keeps_directory(t: Map<Seq<Seq<char>>, bool>, p: Seq<Seq<char>>)
    requires
        wf_tree(t),
    ensures
        t.contains_key(p) && t[p] ==> {
            &&& clear_effect(t, p).contains_key(p)
            &&& clear_effect(t, p)[p]
            &&& forall|k: Seq<Seq<char>>|
                under(k, p) && k != p ==> !#[trigger] clear_effect(t, p).contains_key(k)
            &&& forall|k: Seq<Seq<char>>|
                !under(k, p) && #[trigger] t.contains_key(k) ==> clear_effect(t, p).contains_key(k)
                    && clear_effect(t, p)[k] == t[k]
        },
        !(t.contains_key(p) && t[p]) ==> clear_effect(t, p) == t,
        wf_tree(clear_effect(t, p)),
{
    lemma_without_children_wf(t, p);
}

/// `mkdir -p` is idempotent, and afterwards a path that was missing is a
/// directory.
pub proof fn law_mkdir_idempotent(t: Map<Seq<Seq<char>>, bool>, p: Seq<Seq<char>>)
    requires
        wf_tree(t),
        valid_comps(p),
    ensures
        mkdir_effect(mkdir_effect(t, p), p) == mkdir_effect(t, p),
        mkdir_effect(t, p).contains_key(p),
        !t.contains_key(p) ==> mkdir_effect(t, p)[p],
{
}

/// Writing a file replaces whatever was at its path: afterwards the path is
/// a non-directory with nothing below it.
pub proof fn law_write_replaces(t: Map<Seq<Seq<char>>, bool>, p: Seq<Seq<char>>)
    requires
        wf_tree(t),
        p.len() > 0,
    ensures
        with_created(delete_effect(t, p), p, false).contains_key(p),
        !with_created(delete_effect(t, p), p, false)[p],
        forall|k: Seq<Seq<char>>|
            under(k, p) && k != p ==> !#[trigger] with_created(delete_effect(t, p), p, false).contains_key(k),
{
    let t1 = with_created(delete_effect(t, p), p, false);
    assert forall|k: Seq<Seq<char>>| under(k, p) && k != p implies !#[trigger] t1.contains_key(k) by {
        assert(!missing_ancestors(delete_effect(t, p), p).contains_key(k));
    }
}

/// Removing a subtree keeps a tree well formed.
proof fn lemma_without_subtree_wf(t: Map<Seq<Seq<char>>, bool>, p: Seq<Seq<char>>)
    requires
        wf_tree(t),
        p.len() > 0,
    ensures
        wf_tree(without_subtree(t, p)),
{
    let t1 = without_subtree(t, p);
    assert(t1.dom() =~= t.dom().filter(|k: Seq<Seq<char>>| !under(k, p)));
    assert(!under(seq![], p));
    assert forall|k: Seq<Seq<char>>| #[trigger] t1.contains_key(k) && k.len() > 0 implies t1.contains_key(
        k.drop_last(),
    ) by {
        if under(k.drop_last(), p) {
            assert(k.subrange(0, p.len() as int) =~= k.drop_last().subrange(0, p.len() as int));
        }
    }
}

/// Removing what lies strictly below a path keeps a tree well formed.
proof fn lemma_without_children_wf(t: Map<Seq<Seq<char>>, bool>, p: Seq<Seq<char>>)
    requires
        wf_tree(t),
    ensures
        wf_tree(without_children(t, p)),
{
    let t1 = without_children(t, p);
    assert(t1.dom() =~= t.dom().filter(|k: Seq<Seq<char>>| !under(k, p) || k == p));
    assert forall|k: Seq<Seq<char>>| #[trigger] t1.contains_key(k) && k.len() > 0 implies t1.contains_key(
        k.drop_last(),
    ) by {
        if under(k.drop_last(), p) && k.drop_last() != p {
            assert(k.subrange(0, p.len() as int) =~= k.drop_last().subrange(0, p.len() as int));
        }
    }
    if p.len() == 0 {
        assert(p =~= Seq::<Seq<char>>::empty());
        assert(t1.contains_key(seq![]));
    } else {
        assert(!under(seq![], p));
    }
}

} // verus!

verus! {

/// `mkdir -p` of an existing directory (not the root, not a hard link)
/// replaces its permission bits, keeps its file type and owner, and changes
/// no other entry.
pub proof fn law_mkdir_updates_permissions(s: ImageState, p: Seq<Seq<char>>, perm: u16)
    requires
        wf_state(s),
        s.0.contains_key(p),
        s.0[p],
        !shares_root(s.2, p),
    ensures
        state_mkdir(s, p, perm, None, None).0 == s.0,
        state_mkdir(s, p, perm, None, None).1[p] == (
            (s.1[p].0 & 0xF000u16) | (perm & 0x0FFFu16),
            s.1[p].1,
            s.1[p].2,
        ),
        forall|k: Seq<Seq<char>>|
            #[trigger] s.1.contains_key(k) && k != p ==> state_mkdir(s, p, perm, None, None).1[k]
                == s.1[k],
{
}

/// Writing a file gives it the requested mode and owner, whatever was at its
/// path before.
pub proof fn law_write_sets_mode_and_owner(
    s: ImageState,
    p: Seq<Seq<char>>,
    perm: u16,
    uid: u32,
    gid: u32,
)
    requires
        wf_state(s),
        p.len() > 0,
    ensures
        state_write(s, p, perm, uid, gid).1[p] == (reg_mode(perm), uid, gid),
        !state_write(s, p, perm, uid, gid).0[p],
{
}

} // verus!
