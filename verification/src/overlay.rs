//! Docker overlay2 storage directory support.
//!
//! Docker's overlay2 driver stores image layers as:
//!
//! ```text
//! /var/lib/docker/overlay2/
//! ├── l/                        # Symlinks: <short-id> → ../<chain-id>/diff
//! ├── <chain-id>/
//! │   ├── diff/                 # Layer filesystem content
//! │   ├── link                  # Short ID for this layer
//! │   └── lower                 # Colon-separated lower layer references
//! └── ...
//! ```
//!
//! The storage directory itself is read outside the library. This module
//! holds what is decided from what was read: the lower references named by
//! a `lower` file, the bottom-to-top order of a layer chain, the check that a
//! resolved layer stays inside the storage root, the ext4 path of a host
//! entry, hard-link detection by `(device, inode)`, and what each entry of a
//! layer's `diff/` tree does to the image.
use std::collections::HashMap;
use vstd::prelude::*;

use crate::error::{Error, Result};
use crate::ext4::{
    kept_contents, perm_of, state_delete, state_link, state_mkdir, state_symlink, without_subtree,
    xattr_view, Ext4Writer, ImageState,
};
use crate::layer::{apply_whiteout, state_whiteout};
use crate::path::{
    canonical, chars_of, comps_of, join_on, last_component, lemma_comps_of_path_of,
    lemma_parent_spec, lemma_split_on_len, parent_of, parse_oci_whiteout, path_of, split_on,
    valid_comps, valid_name, whiteout_spec,
};
use crate::text::{split_chars, str_eq, trim, trim_ws};

verus! {

broadcast use vstd::std_specs::hash::group_hash_axioms;

// ---------------------------------------------------------------------------
// Host path components
// ---------------------------------------------------------------------------

/// The pieces of a path kept as `Normal` components: neither empty nor `.`.
pub open spec fn keep_normals(ps: Seq<Seq<char>>) -> Seq<Seq<char>>
    decreases ps.len(),
{
    if ps.len() == 0 {
        seq![]
    } else {
        let acc = keep_normals(ps.drop_last());
        let b = ps.last();
        if b.len() == 0 || b == seq!['.'] {
            acc
        } else {
            acc.push(b)
        }
    }
}

/// The components of a host path as `Path::components` yields them on Unix:
/// `/` for an absolute path or `.` for a path that starts with `./` (or is
/// `.`), then each piece between `/` that is neither empty nor `.`.
pub open spec fn host_comps(s: Seq<char>) -> Seq<Seq<char>> {
    lead_comps(s) + keep_normals(split_on(s, '/'))
}

/// The component a path's first characters give before its normal pieces:
/// `/` for an absolute path, `.` for `.` itself or a path starting `./`.
pub open spec fn lead_comps(s: Seq<char>) -> Seq<Seq<char>> {
    if s.len() > 0 && s[0] == '/' {
        seq![seq!['/']]
    } else if s == seq!['.'] || (s.len() >= 2 && s[0] == '.' && s[1] == '/') {
        seq![seq!['.']]
    } else {
        seq![]
    }
}

/// `a` is a prefix of `b`.
pub open spec fn is_prefix(a: Seq<Seq<char>>, b: Seq<Seq<char>>) -> bool {
    a.len() <= b.len() && b.take(a.len() as int) == a
}

/// How a list of components is shown as a path.
pub open spec fn show_comps(cs: Seq<Seq<char>>) -> Seq<char> {
    if cs.len() > 0 && cs[0] == seq!['/'] {
        seq!['/'] + join_on(cs.drop_first(), '/')
    } else {
        join_on(cs, '/')
    }
}

/// The ext4 path of the host entry `full` of a layer rooted at `root`:
/// `full` made relative to `root` (component by component, as
/// `Path::strip_prefix` does) behind a leading `/`; `full` itself behind a
/// `/` when it does not lie under `root`.
pub open spec fn ext4_path_spec(root: Seq<char>, full: Seq<char>) -> Seq<char> {
    let rc = host_comps(root);
    let fc = host_comps(full);
    if is_prefix(rc, fc) {
        seq!['/'] + show_comps(fc.skip(rc.len() as int))
    } else {
        seq!['/'] + full
    }
}

/// The pieces of `s` between `/` that are neither empty nor `.`, each as a
/// slice of it.
fn normal_pieces(s: &str) -> (r: Vec<&str>)
    ensures
        r@.map_values(|x: &str| x@) == keep_normals(split_on(s@, '/')),
{
    let v = chars_of(s);
    let ranges = split_chars(&v, '/');
    let ghost ps = split_on(s@, '/');
    let mut out: Vec<&str> = Vec::new();
    assert(ps.take(0) =~= Seq::<Seq<char>>::empty());
    assert(out@.map_values(|x: &str| x@) =~= keep_normals(ps.take(0)));
    let mut k: usize = 0;
    while k < ranges.len()
        invariant
            v@ == s@,
            ranges@.len() == ps.len(),
            ps == split_on(s@, '/'),
            forall|j: int|
                0 <= j < ranges@.len() ==> {
                    &&& (#[trigger] ranges@[j]).0 <= ranges@[j].1 <= v@.len()
                    &&& v@.subrange(ranges@[j].0 as int, ranges@[j].1 as int) == ps[j]
                },
            k <= ranges@.len(),
            out@.map_values(|x: &str| x@) == keep_normals(ps.take(k as int)),
        decreases ranges.len() - k,
    {
        let (a, b) = ranges[k];
        let ghost piece = ps[k as int];
        proof {
            assert(ps.take(k + 1).drop_last() =~= ps.take(k as int));
            assert(ps.take(k + 1).last() == piece);
        }
        if b == a || (b - a == 1 && v[a] == '.') {
            proof {
                if b - a == 1 {
                    assert(piece =~= seq!['.']);
                }
            }
        } else {
            let part = s.substring_char(a, b);
            assert(part@ =~= piece);
            assert(piece != seq!['.']) by {
                if piece == seq!['.'] {
                    assert(piece[0] == v@[a as int]);
                }
            }
            let ghost before = out@;
            out.push(part);
            proof {
                lemma_map_view_push(before, part);
            }
        }
        k = k + 1;
    }
    assert(ps.take(ranges@.len() as int) =~= ps);
    out
}

/// The component that a path's first characters contribute before its
/// normal pieces: `/` for an absolute path, `.` for one starting with `./`
/// (or equal to `.`).
fn lead_component(s: &str) -> (r: Option<&'static str>)
    ensures
        match r {
            Some(l) => lead_comps(s@) == seq![l@],
            None => lead_comps(s@) == Seq::<Seq<char>>::empty(),
        },
{
    let v = chars_of(s);
    proof {
        reveal_strlit("/");
        reveal_strlit(".");
        assert("/"@ =~= seq!['/']);
        assert("."@ =~= seq!['.']);
    }
    if v.len() > 0 && v[0] == '/' {
        Some("/")
    } else if (v.len() == 1 && v[0] == '.') || (v.len() >= 2 && v[0] == '.' && v[1] == '/') {
        proof {
            if v.len() == 1 {
                assert(s@ =~= seq!['.']);
            }
        }
        Some(".")
    } else {
        assert(s@ != seq!['.']) by {
            if s@ == seq!['.'] {
                assert(v@.len() == 1);
            }
        }
        None
    }
}

/// The components of `s`, each as a slice of it.
pub fn host_components(s: &str) -> (r: Vec<&str>)
    ensures
        r@.map_values(|x: &str| x@) == host_comps(s@),
{
    let mut out: Vec<&str> = Vec::new();
    match lead_component(s) {
        Some(l) => {
            out.push(l);
        },
        None => {},
    }
    let ghost lead = out@;
    let mut rest = normal_pieces(s);
    let ghost tail = rest@;
    out.append(&mut rest);
    assert(out@.map_values(|x: &str| x@) =~= lead.map_values(|x: &str| x@) + tail.map_values(
        |x: &str| x@,
    ));
    out
}

proof fn lemma_map_view_push<'a>(s: Seq<&'a str>, x: &'a str)
    ensures
        s.push(x).map_values(|y: &str| y@) == s.map_values(|y: &str| y@).push(x@),
{
    assert(s.push(x).map_values(|y: &str| y@) =~= s.map_values(|y: &str| y@).push(x@));
}

/// Whether the components of `a` are a prefix of those of `b`.
fn comps_prefix(a: &Vec<&str>, b: &Vec<&str>) -> (r: bool)
    ensures
        r == is_prefix(a@.map_values(|x: &str| x@), b@.map_values(|x: &str| x@)),
{
    let ghost av = a@.map_values(|x: &str| x@);
    let ghost bv = b@.map_values(|x: &str| x@);
    if a.len() > b.len() {
        return false;
    }
    let mut i: usize = 0;
    while i < a.len()
        invariant
            av == a@.map_values(|x: &str| x@),
            bv == b@.map_values(|x: &str| x@),
            a@.len() <= b@.len(),
            i <= a@.len(),
            forall|j: int| 0 <= j < i ==> av[j] == bv[j],
        decreases a.len() - i,
    {
        if !str_eq(a[i], b[i]) {
            assert(bv.take(av.len() as int)[i as int] != av[i as int]);
            return false;
        }
        i = i + 1;
    }
    assert(bv.take(av.len() as int) =~= av);
    true
}

/// Whether the host path `path` lies at or below `root`, component by
/// component (as `Path::starts_with` decides).
pub fn path_starts_with(path: &str, root: &str) -> (r: bool)
    ensures
        r == is_prefix(host_comps(root@), host_comps(path@)),
{
    let pc = host_components(path);
    let rc = host_components(root);
    comps_prefix(&rc, &pc)
}

/// Build the absolute ext4 path of the host entry `full_path` of a layer
/// whose diff directory is `root` (e.g. `root/usr/bin/foo` becomes
/// `/usr/bin/foo`).
pub fn to_ext4_path(root: &str, full_path: &str) -> (r: String)
    ensures
        r@ == ext4_path_spec(root@, full_path@),
{
    proof {
        reveal_strlit("/");
        assert("/"@ =~= seq!['/']);
    }
    let rc = host_components(root);
    let fc = host_components(full_path);
    let ghost rv = rc@.map_values(|x: &str| x@);
    let ghost fv = fc@.map_values(|x: &str| x@);
    let mut out = String::from_str("/");
    if !comps_prefix(&rc, &fc) {
        out.append(full_path);
        return out;
    }
    let ghost rest = fv.skip(rv.len() as int);
    let mut i: usize = rc.len();
    let rooted_rest = i < fc.len() && str_eq(fc[i], "/");
    if rooted_rest {
        assert(fv[i as int] == fc@[i as int]@);
        out.append("/");
        i = i + 1;
        assert(rest.len() > 0 && rest[0] == seq!['/']);
        assert(rest.drop_first() =~= fv.skip(i as int));
    } else {
        if i < fc.len() {
            assert(fv[i as int] == fc@[i as int]@);
            assert(rest[0] == fv[i as int]);
        }
        assert(!(rest.len() > 0 && rest[0] == seq!['/']));
    }
    let first: usize = i;
    let ghost start = i as int;
    let ghost base = out@;
    assert(fv.subrange(start, start) =~= Seq::<Seq<char>>::empty());
    assert(base + join_on(fv.subrange(start, start), '/') =~= base);
    while i < fc.len()
        invariant
            fv == fc@.map_values(|x: &str| x@),
            start == first,
            start <= i <= fv.len(),
            out@ == base + join_on(fv.subrange(start, i as int), '/'),
        decreases fc.len() - i,
    {
        let ghost o0 = out@;
        proof {
            reveal_strlit("/");
        }
        if i > first {
            out.append("/");
        }
        out.append(fc[i]);
        proof {
            assert(fv[i as int] == fc@[i as int]@);
            let pre = fv.subrange(start, i as int);
            let nxt = fv.subrange(start, i + 1);
            assert(nxt.drop_last() =~= pre);
            assert(nxt.last() == fv[i as int]);
            if i == start {
                assert(pre =~= Seq::<Seq<char>>::empty());
                assert(join_on(nxt, '/') == fv[i as int]);
                assert(out@ =~= o0 + fv[i as int]);
            } else {
                assert(join_on(nxt, '/') == join_on(pre, '/') + seq!['/'] + fv[i as int]);
                assert(out@ =~= o0 + seq!['/'] + fv[i as int]);
            }
        }
        i = i + 1;
    }
    proof {
        assert(fv.subrange(start, fv.len() as int) =~= fv.skip(start));
    }
    out
}

} // verus!

verus! {

// ---------------------------------------------------------------------------
// Layer chains
// ---------------------------------------------------------------------------

/// The pieces of `ps` that are not empty, in order.
pub open spec fn non_empty(ps: Seq<Seq<char>>) -> Seq<Seq<char>>
    decreases ps.len(),
{
    if ps.len() == 0 {
        seq![]
    } else if ps.last().len() == 0 {
        non_empty(ps.drop_last())
    } else {
        non_empty(ps.drop_last()).push(ps.last())
    }
}

/// The lower-layer references a `lower` file names: its content, trimmed of
/// surrounding whitespace, split on `:`, empty references skipped.
pub open spec fn lower_refs_spec(content: Seq<char>) -> Seq<Seq<char>> {
    non_empty(split_on(trim_ws(content), ':'))
}

/// The lower-layer references (`l/<short-id>`, relative to the overlay2
/// root) named by the content of a layer's `lower` file, nearest first.
pub fn lower_refs(content: &str) -> (r: Vec<String>)
    ensures
        r@.map_values(|x: String| x@) == lower_refs_spec(content@),
{
    let t = trim(content);
    let v = chars_of(t);
    let ranges = split_chars(&v, ':');
    let ghost ps = split_on(t@, ':');
    let mut out: Vec<String> = Vec::new();
    assert(ps.take(0) =~= Seq::<Seq<char>>::empty());
    assert(out@.map_values(|x: String| x@) =~= non_empty(ps.take(0)));
    let mut k: usize = 0;
    while k < ranges.len()
        invariant
            v@ == t@,
            ranges@.len() == ps.len(),
            ps == split_on(t@, ':'),
            forall|j: int|
                0 <= j < ranges@.len() ==> {
                    &&& (#[trigger] ranges@[j]).0 <= ranges@[j].1 <= v@.len()
                    &&& v@.subrange(ranges@[j].0 as int, ranges@[j].1 as int) == ps[j]
                },
            k <= ranges@.len(),
            out@.map_values(|x: String| x@) == non_empty(ps.take(k as int)),
        decreases ranges.len() - k,
    {
        let (a, b) = ranges[k];
        let ghost piece = ps[k as int];
        proof {
            assert(ps.take(k + 1).drop_last() =~= ps.take(k as int));
            assert(ps.take(k + 1).last() == piece);
        }
        if b > a {
            let part = String::from_str(t.substring_char(a, b));
            assert(part@ =~= piece);
            let ghost before = out@;
            out.push(part);
            proof {
                lemma_map_string_push(before, part);
            }
        } else {
            assert(piece.len() == 0);
        }
        k = k + 1;
    }
    assert(ps.take(ranges@.len() as int) =~= ps);
    out
}

proof fn lemma_map_string_push(s: Seq<String>, x: String)
    ensures
        s.push(x).map_values(|y: String| y@) == s.map_values(|y: String| y@).push(x@),
{
    assert(s.push(x).map_values(|y: String| y@) =~= s.map_values(|y: String| y@).push(x@));
}

/// The layer diff directories of a chain, bottom to top: the lower layers
/// (listed nearest first) reversed, then the topmost layer.
pub fn layer_order(lowers: Vec<String>, top: String) -> (r: Vec<String>)
    ensures
        r@ == lowers@.reverse().push(top),
{
    let mut out: Vec<String> = Vec::new();
    let mut i: usize = lowers.len();
    let mut lowers = lowers;
    let ghost orig = lowers@;
    while i > 0
        invariant
            i <= orig.len(),
            lowers@ == orig.take(i as int),
            out@ == orig.skip(i as int).reverse(),
        decreases i,
    {
        let last = lowers.pop().unwrap();
        proof {
            assert(orig.take(i as int).last() == orig[i - 1]);
            assert(orig.take(i as int).drop_last() =~= orig.take(i - 1));
        }
        out.push(last);
        i = i - 1;
        assert(out@ =~= orig.skip(i as int).reverse());
    }
    out.push(top);
    assert(orig.skip(0) =~= orig);
    out
}

/// Refuse a resolved lower layer that lies outside the overlay2 root
/// (compared component by component, as `Path::starts_with` does).
pub fn check_within_root(diff_path: &str, root: &str) -> (r: Result<()>)
    ensures
        is_prefix(host_comps(root@), host_comps(diff_path@)) ==> r is Ok,
        !is_prefix(host_comps(root@), host_comps(diff_path@)) ==> (r matches Err(
            Error::UnsupportedFormat(m),
        ) && m@ == "lower layer reference escapes overlay2 root: "@ + diff_path@),
{
    if path_starts_with(diff_path, root) {
        Ok(())
    } else {
        let mut m = String::from_str("lower layer reference escapes overlay2 root: ");
        m.append(diff_path);
        Err(Error::UnsupportedFormat(m))
    }
}

/// A resolved Docker overlay2 layer chain: the layers' `diff/` directories,
/// bottom to top (base layer first).
pub struct Overlay2Source {
    layers: Vec<String>,
}

impl Overlay2Source {
    /// The diff directories, bottom to top.
    pub closed spec fn layers_view(&self) -> Seq<Seq<char>> {
        self.layers@.map_values(|x: String| x@)
    }

    /// The chain whose layers, bottom to top, are `layers`.
    pub fn from_layers(layers: Vec<String>) -> (s: Self)
        ensures
            s.layers_view() == layers@.map_values(|x: String| x@),
    {
        Overlay2Source { layers }
    }

    /// The chain of a topmost layer whose `diff/` directory is `top_diff`,
    /// given its resolved lower layers as its `lower` file lists them
    /// (nearest first).
    pub fn from_chain(lowers: Vec<String>, top_diff: String) -> (s: Self)
        ensures
            s.layers_view() == lowers@.reverse().push(top_diff).map_values(|x: String| x@),
    {
        Overlay2Source { layers: layer_order(lowers, top_diff) }
    }

    /// The diff directories, bottom to top.
    pub fn layers(&self) -> (r: &Vec<String>)
        ensures
            r@.map_values(|x: String| x@) == self.layers_view(),
    {
        &self.layers
    }

    /// The number of layers that will be applied.
    pub fn layer_count(&self) -> (n: usize)
        ensures
            n == self.layers_view().len(),
    {
        self.layers.len()
    }
}

} // verus!

verus! {

// ---------------------------------------------------------------------------
// Hard links across a layer walk
// ---------------------------------------------------------------------------

/// The number a `(device, inode)` pair is recorded under.
pub open spec fn inode_key(dev: u64, ino: u64) -> int {
    dev * 0x1_0000_0000_0000_0000int + ino
}

/// Distinct `(device, inode)` pairs are recorded under distinct numbers.
pub proof fn law_inode_key_injective(d1: u64, i1: u64, d2: u64, i2: u64)
    ensures
        inode_key(d1, i1) == inode_key(d2, i2) ==> d1 == d2 && i1 == i2,
        0 <= inode_key(d1, i1) <= u128::MAX,
{
    assert(0 <= inode_key(d1, i1) <= u128::MAX) by (nonlinear_arith);
    if inode_key(d1, i1) == inode_key(d2, i2) {
        assert(d1 == d2 && i1 == i2) by (nonlinear_arith)
            requires
                d1 * 0x1_0000_0000_0000_0000int + i1 == d2 * 0x1_0000_0000_0000_0000int + i2,
                0 <= i1 < 0x1_0000_0000_0000_0000int,
                0 <= i2 < 0x1_0000_0000_0000_0000int,
                0 <= d1,
                0 <= d2,
        ;
    }
}

fn inode_key_exec(dev: u64, ino: u64) -> (k: u128)
    ensures
        k == inode_key(dev, ino),
{
    proof {
        law_inode_key_injective(dev, ino, dev, ino);
    }
    let d: u128 = dev as u128;
    let i: u128 = ino as u128;
    assert(d * 0x1_0000_0000_0000_0000u128 + i <= u128::MAX) by (nonlinear_arith)
        requires
            d <= u64::MAX,
            i <= u64::MAX,
    ;
    d * 0x1_0000_0000_0000_0000u128 + i
}

/// One hard-link check, from record `h0` to `h1` with answer `r`: a file
/// with a single link is neither looked up nor recorded; a recorded
/// identity answers with its path; a new identity is recorded with `path`.
pub open spec fn hardlink_checked(
    h0: Map<(u64, u64), Seq<char>>,
    nlink: u64,
    dev: u64,
    ino: u64,
    path: Seq<char>,
    h1: Map<(u64, u64), Seq<char>>,
    r: Option<Seq<char>>,
) -> bool {
    if nlink <= 1 {
        r is None && h1 == h0
    } else if h0.contains_key((dev, ino)) {
        r == Some(h0[(dev, ino)]) && h1 == h0
    } else {
        r is None && h1 == h0.insert((dev, ino), path)
    }
}

/// Once a path is recorded for an identity, every later check keeps it:
/// all later files with that identity become hard links to the first one.
pub proof fn law_recorded_path_is_kept(
    h0: Map<(u64, u64), Seq<char>>,
    nlink: u64,
    dev: u64,
    ino: u64,
    path: Seq<char>,
    h1: Map<(u64, u64), Seq<char>>,
    r: Option<Seq<char>>,
    k: (u64, u64),
)
    requires
        hardlink_checked(h0, nlink, dev, ino, path, h1, r),
        h0.contains_key(k),
    ensures
        h1.contains_key(k),
        h1[k] == h0[k],
        nlink > 1 && k == (dev, ino) ==> r == Some(h0[k]),
{
}

/// The ext4 paths already written during one layer walk, by the
/// `(device, inode)` of the host file they were written from.
pub struct HardlinkTable {
    seen: HashMap<u128, String>,
}

impl HardlinkTable {
    /// The recorded paths, by `(device, inode)`.
    pub closed spec fn recorded(&self) -> Map<(u64, u64), Seq<char>> {
        Map::new(
            |k: (u64, u64)| self.seen@.contains_key(inode_key(k.0, k.1) as u128),
            |k: (u64, u64)| self.seen@[inode_key(k.0, k.1) as u128]@,
        )
    }

    /// Every key of the map is the key of some pair, and every recorded path
    /// is canonical.
    pub closed spec fn wf(&self) -> bool {
        &&& forall|n: u128| #[trigger]
            self.seen@.contains_key(n) ==> exists|d: u64, i: u64| inode_key(d, i) == n
        &&& forall|k: (u64, u64)| #[trigger]
            self.recorded().contains_key(k) ==> crate::path::canonical(self.recorded()[k])
    }

    /// An empty table.
    pub fn new() -> (t: Self)
        ensures
            t.wf(),
            t.recorded() == Map::<(u64, u64), Seq<char>>::empty(),
    {
        let t = HardlinkTable { seen: HashMap::new() };
        assert(t.recorded() =~= Map::<(u64, u64), Seq<char>>::empty());
        t
    }

    /// The ext4 path recorded for the identity `(dev, ino)`, if any.
    pub fn recorded_path(&self, dev: u64, ino: u64) -> (r: Option<&String>)
        requires
            self.wf(),
        ensures
            r is Some == self.recorded().contains_key((dev, ino)),
            r matches Some(s) ==> s@ == self.recorded()[(dev, ino)],
    {
        let key = inode_key_exec(dev, ino);
        assert(key == inode_key(dev, ino) as u128);
        self.seen.get(&key)
    }

    /// Hard-link detection for a host file with `nlink` links and identity
    /// `(dev, ino)`, about to be written at `ext4_path`.
    ///
    /// A file with a single link is never recorded. Otherwise, when a file
    /// with the same identity was already written, its ext4 path is
    /// returned (so the caller can create a hard link); else this file's
    /// path is recorded and `None` returned.
    pub fn check_hardlink(&mut self, nlink: u64, dev: u64, ino: u64, ext4_path: &str) -> (r:
        Option<String>)
        requires
            old(self).wf(),
            crate::path::canonical(ext4_path@),
        ensures
            final(self).wf(),
            hardlink_checked(
                old(self).recorded(),
                nlink,
                dev,
                ino,
                ext4_path@,
                final(self).recorded(),
                match r {
                    Some(p) => Some(p@),
                    None => None,
                },
            ),
    {
        if nlink <= 1 {
            return None;
        }
        let key = inode_key_exec(dev, ino);
        assert(key == inode_key(dev, ino) as u128);
        match self.seen.get(&key) {
            Some(existing) => {
                let p = existing.clone();
                assert(self.recorded().contains_key((dev, ino)));
                Some(p)
            },
            None => {
                assert(!self.recorded().contains_key((dev, ino)));
                let ghost before = self.recorded();
                self.seen.insert(key, String::from_str(ext4_path));
                proof {
                    assert forall|k: (u64, u64)|
                        #![trigger self.recorded().contains_key(k)]
                        #![trigger before.insert((dev, ino), ext4_path@).contains_key(k)]
                        true implies (self.recorded().contains_key(k) == before.insert(
                        (dev, ino),
                        ext4_path@,
                    ).contains_key(k)) by {
                        law_inode_key_injective(k.0, k.1, dev, ino);
                    }
                    assert(self.recorded() =~= before.insert((dev, ino), ext4_path@)) by {
                        assert forall|k: (u64, u64)| #[trigger]
                            self.recorded().contains_key(k) implies self.recorded()[k] == before.insert(
                            (dev, ino),
                            ext4_path@,
                        )[k] by {
                            law_inode_key_injective(k.0, k.1, dev, ino);
                        }
                    }
                    assert forall|n: u128| #[trigger]
                        self.seen@.contains_key(n) implies exists|d: u64, i: u64| inode_key(d, i) == n by {
                        if n == key {
                            assert(inode_key(dev, ino) == n);
                        }
                    }
                }
                None
            },
        }
    }
}

} // verus!

verus! {

// ---------------------------------------------------------------------------
// The entries of a layer's diff tree
// ---------------------------------------------------------------------------

/// The file type of a host entry (as `symlink_metadata` reports it).
#[derive(Clone, Copy, Debug, PartialEq, Eq)]
pub enum HostKind {
    Symlink,
    Directory,
    File,
    CharDevice,
    /// Sockets, FIFOs and block devices.
    Other,
}

/// What the walk reads of a host entry's metadata.
#[derive(Clone, Copy, Debug)]
pub struct HostMeta {
    pub kind: HostKind,
    pub mode: u32,
    pub uid: u32,
    pub gid: u32,
    pub nlink: u64,
    pub dev: u64,
    pub ino: u64,
    pub rdev: u64,
}

/// What the walk does next with an entry once it is applied.
#[derive(Clone, Copy, Debug, PartialEq, Eq)]
pub enum HostStep {
    /// Nothing more.
    Done,
    /// The entry is a directory now present in the image: walk into it.
    Descend,
    /// The entry is a regular file to be written (its data and extended
    /// attributes read from the host) at its ext4 path.
    WriteFile,
}

/// An overlay2-native whiteout: a character device with device number 0.
pub open spec fn chardev_whiteout(m: HostMeta) -> bool {
    m.kind == HostKind::CharDevice && m.rdev == 0
}

/// Whether the metadata describes an overlay2-native whiteout (character
/// device 0/0).
pub fn is_chardev_whiteout(meta: &HostMeta) -> (b: bool)
    ensures
        b == chardev_whiteout(*meta),
{
    match meta.kind {
        HostKind::CharDevice => meta.rdev == 0,
        _ => false,
    }
}

/// The extended attributes to hand the formatter: none when the map is
/// empty.
pub fn optional_xattrs(xattrs: &HashMap<String, Vec<u8>>) -> (r: Option<&HashMap<String, Vec<u8>>>)
    ensures
        r is Some <==> xattrs@.len() > 0,
        r matches Some(x) ==> x == xattrs,
{
    proof {
        if xattrs@.len() == 0 {
            assert(xattrs@.dom().finite());
        }
    }
    if xattrs.is_empty() {
        None
    } else {
        Some(xattrs)
    }
}

/// The outcome of applying a host entry at the (non-root) ext4 path `p`,
/// from image `s0` and hard-link record `h0` to `s1` and `h1`, with result
/// `r`.
pub open spec fn host_applied(
    s0: ImageState,
    h0: Map<(u64, u64), Seq<char>>,
    p: Seq<Seq<char>>,
    m: HostMeta,
    s1: ImageState,
    h1: Map<(u64, u64), Seq<char>>,
    r: Result<HostStep>,
) -> bool {
    match whiteout_spec(p.last()) {
        Some(w) => r == Ok::<HostStep, Error>(HostStep::Done) && h1 == h0 && s1 == state_whiteout(
            s0,
            p.drop_last(),
            w,
        ),
        None => if chardev_whiteout(m) {
            r == Ok::<HostStep, Error>(HostStep::Done) && h1 == h0 && s1 == state_delete(s0, p)
        } else {
            match m.kind {
                HostKind::Symlink => {
                    &&& h1 == h0
                    &&& r is Ok ==> r == Ok::<HostStep, Error>(HostStep::Done) && s1 == state_symlink(
                        s0,
                        p,
                    )
                    &&& r matches Err(x) ==> x is Ext4Format
                },
                HostKind::Directory => {
                    &&& h1 == h0
                    &&& r is Ok ==> r == Ok::<HostStep, Error>(HostStep::Descend) && s1 == state_mkdir(
                        s0,
                        p,
                        perm_of(m.mode),
                        Some(m.uid),
                        Some(m.gid),
                    )
                    &&& s0.0.contains_key(p) ==> (r is Ok <==> s0.0[p])
                    &&& s0.0.contains_key(p) && !s0.0[p] ==> s1 == s0
                    &&& r matches Err(x) ==> x is Ext4Format
                },
                HostKind::File => if m.nlink > 1 && h0.contains_key((m.dev, m.ino)) {
                    &&& h1 == h0
                    &&& r is Ok ==> r == Ok::<HostStep, Error>(HostStep::Done) && s1 == state_link(
                        s0,
                        p,
                    )
                    &&& r is Ok ==> without_subtree(s0.0, p).contains_key(
                        comps_of(h0[(m.dev, m.ino)]),
                    )
                    &&& r matches Err(x) ==> x is Ext4Format
                } else {
                    &&& r == Ok::<HostStep, Error>(HostStep::WriteFile)
                    &&& s1 == s0
                    &&& h1 == if m.nlink > 1 {
                        h0.insert((m.dev, m.ino), path_of(p))
                    } else {
                        h0
                    }
                },
                _ => r == Ok::<HostStep, Error>(HostStep::Done) && h1 == h0 && s1 == s0,
            }
        },
    }
}

/// The entry a host entry at `p` becomes a hard link to: the path recorded
/// for its identity, when it is a regular file with more than one link
/// whose identity was recorded (and `p` is no whiteout).
pub open spec fn host_link_target(
    h0: Map<(u64, u64), Seq<char>>,
    p: Seq<Seq<char>>,
    m: HostMeta,
) -> Option<Seq<Seq<char>>> {
    if whiteout_spec(p.last()) is None && !chardev_whiteout(m) && m.kind == HostKind::File && m.nlink
        > 1 && h0.contains_key((m.dev, m.ino)) {
        Some(comps_of(h0[(m.dev, m.ino)]))
    } else {
        None
    }
}

/// What applying a host entry at `p` does to what the image's entries hold,
/// from writer `w0` to `w1` with result `r`: every entry outside `p`'s
/// subtree keeps what it held; a symlink made stores exactly `target`; a
/// directory made has the extended attributes `xattrs`; a hard link made
/// refers to the inode of the path recorded for the file's identity (and so
/// holds what that holds), which gains a link when `p` was free.
pub open spec fn host_contents_applied(
    w0: Ext4Writer,
    h0: Map<(u64, u64), Seq<char>>,
    p: Seq<Seq<char>>,
    m: HostMeta,
    target: Option<Seq<char>>,
    xattrs: Map<Seq<char>, Seq<u8>>,
    w1: Ext4Writer,
    r: Result<HostStep>,
) -> bool {
    &&& kept_contents(w0, w1, Some(p))
    &&& whiteout_spec(p.last()) is None && !chardev_whiteout(m) ==> match m.kind {
        HostKind::Symlink => r is Ok ==> w1.content(p).target == target,
        HostKind::Directory => r is Ok && !w0.tree().contains_key(p) ==> w1.content(p).xattrs == Some(
            xattrs,
        ),
        _ => true,
    }
    &&& host_link_target(h0, p, m) matches Some(q) ==> (r is Ok ==> w1.content(p) == w0.content(q) && (
    !w0.tree().contains_key(p) ==> w1.link_count(p) == w0.link_count(q) + 1))
}

/// Whether applying the host entry keeps within the link counts: true
/// unless it makes a hard link to an entry whose link count has no room
/// left (see [`Ext4Writer::link_room`]).
pub fn host_link_allowed(
    writer: &Ext4Writer,
    table: &HardlinkTable,
    ext4_path: &str,
    meta: &HostMeta,
) -> (b: bool)
    requires
        writer.wf(),
        table.wf(),
        canonical(ext4_path@),
        ext4_path@ != seq!['/'],
    ensures
        b == (host_link_target(table.recorded(), comps_of(ext4_path@), *meta) matches Some(q)
            ==> writer.link_room(q)),
{
    proof {
        lemma_comps_of_path_of(comps_of(ext4_path@));
    }
    let leaf = last_component(ext4_path);
    if parse_oci_whiteout(leaf).is_some() || is_chardev_whiteout(meta) {
        return true;
    }
    if !matches!(meta.kind, HostKind::File) || meta.nlink <= 1 {
        return true;
    }
    match table.recorded_path(meta.dev, meta.ino) {
        None => true,
        Some(existing) => writer.has_link_room(existing.as_str()),
    }
}

/// A host file whose identity was already written becomes a hard link to
/// the first path written for it: both refer to one inode, which gains a
/// link (so a file with two host links ends with link count 2 when its
/// first path was written with one).
pub proof fn law_host_hardlink_shares_inode(
    w0: Ext4Writer,
    h0: Map<(u64, u64), Seq<char>>,
    p: Seq<Seq<char>>,
    m: HostMeta,
    target: Option<Seq<char>>,
    xattrs: Map<Seq<char>, Seq<u8>>,
    w1: Ext4Writer,
    r: Result<HostStep>,
    q: Seq<Seq<char>>,
)
    requires
        host_link_target(h0, p, m) == Some(q),
        host_contents_applied(w0, h0, p, m, target, xattrs, w1, r),
        !w0.tree().contains_key(p),
        w0.link_count(q) == 1,
        r is Ok,
    ensures
        w1.content(p).inode == w0.content(q).inode,
        w1.content(p) == w0.content(q),
        w1.link_count(p) == 2,
{
}

/// Apply one entry of a layer's `diff/` tree at `ext4_path`.
///
/// An OCI whiteout name (`.wh.<name>`, `.wh..wh..opq`) deletes its sibling
/// or clears its directory; a character device 0/0 (overlay2's own
/// whiteout) deletes what is at its path. Otherwise a symlink is created to
/// `link_target`, a directory is created with its mode, owner and extended
/// attributes (and is to be walked into), and a regular file either becomes
/// a hard link to the first path written for the same host inode or is to
/// be written by the caller. Other entries are skipped.
pub fn apply_host_entry(
    writer: &mut Ext4Writer,
    table: &mut HardlinkTable,
    ext4_path: &str,
    meta: &HostMeta,
    link_target: Option<&str>,
    xattrs: Option<&HashMap<String, Vec<u8>>>,
) -> (r: Result<HostStep>)
    requires
        old(writer).wf(),
        old(table).wf(),
        canonical(ext4_path@),
        ext4_path@ != seq!['/'],
        meta.kind == HostKind::Symlink ==> link_target is Some,
        host_link_target(old(table).recorded(), comps_of(ext4_path@), *meta) matches Some(q)
            ==> old(writer).link_room(q),
    ensures
        final(writer).settings() == old(writer).settings(),
        final(writer).wf(),
        final(table).wf(),
        host_applied(
            old(writer).state(),
            old(table).recorded(),
            comps_of(ext4_path@),
            *meta,
            final(writer).state(),
            final(table).recorded(),
            r,
        ),
        host_contents_applied(
            *old(writer),
            old(table).recorded(),
            comps_of(ext4_path@),
            *meta,
            match link_target {
                Some(t) => Some(t@),
                None => None,
            },
            xattr_view(xattrs),
            *final(writer),
            r,
        ),
{
    let ghost p = comps_of(ext4_path@);
    proof {
        lemma_comps_of_path_of(p);
    }
    let leaf = last_component(ext4_path);
    if let Some(w) = parse_oci_whiteout(leaf) {
        let parent = parent_of(ext4_path);
        proof {
            lemma_parent_spec(p);
            assert(valid_comps(p.drop_last())) by {
                assert forall|k: int| 0 <= k < p.drop_last().len() implies valid_name(
                    #[trigger] p.drop_last()[k],
                ) by {
                    assert(p.drop_last()[k] == p[k]);
                }
            }
            lemma_comps_of_path_of(p.drop_last());
        }
        apply_whiteout(writer, parent.as_str(), w)?;
        return Ok(HostStep::Done);
    }
    if is_chardev_whiteout(meta) {
        writer.delete(ext4_path)?;
        return Ok(HostStep::Done);
    }
    match meta.kind {
        HostKind::Symlink => {
            let target = match link_target {
                Some(t) => t,
                None => "",
            };
            writer.symlink(target, ext4_path)?;
            Ok(HostStep::Done)
        },
        HostKind::Directory => {
            writer.mkdir_p_with_metadata(ext4_path, meta.mode, Some(meta.uid), Some(meta.gid), xattrs)?;
            Ok(HostStep::Descend)
        },
        HostKind::File => {
            match table.check_hardlink(meta.nlink, meta.dev, meta.ino, ext4_path) {
                Some(existing) => {
                    writer.link(existing.as_str(), ext4_path)?;
                    Ok(HostStep::Done)
                },
                None => Ok(HostStep::WriteFile),
            }
        },
        _ => Ok(HostStep::Done),
    }
}

} // verus!
