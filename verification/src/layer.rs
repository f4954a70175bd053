//! Applying the entries of an OCI layer (a tar stream) to the ext4 writer.
//!
//! The tar stream is read outside the library; each entry reaches
//! [`apply_tar_entry`] as a [`TarEntryInfo`] (its raw path, type, header
//! fields and link name) together with its data. Entries are applied in
//! order: each path is sanitized per
//! [`sanitize_entry_path`](crate::path::sanitize_entry_path) (rejecting `..`
//! components and NUL bytes), and OCI whiteout semantics apply (`.wh.<name>`
//! deletes the sibling `<name>`, `.wh..wh..opq` clears the parent directory).
use vstd::prelude::*;
use vstd::utf8::{decode_utf8, valid_utf8};

use crate::error::{Error, Result};
use crate::ext4::{
    kept_contents, perm_of, wf_state, state_clear, state_delete, state_link, state_mkdir, state_owner,
    state_symlink, state_write, without_subtree, Ext4Writer, ImageState,
};
use crate::path::{
    canonical, chars_of, comps_of, fault_text, join, last_component, lemma_comps_of_path_of,
    lemma_join_spec, lemma_parent_spec, lossy_utf8, parent_of, parse_oci_whiteout, path_of,
    sanitize_entry_path, sanitize_spec, str_from_utf8, valid_comps, valid_name, whiteout_spec,
    Whiteout,
};

verus! {

/// The type of a tar entry, as far as layer application tells types apart.
#[derive(Clone, Copy, Debug, PartialEq, Eq)]
pub enum EntryKind {
    Regular,
    GnuSparse,
    Directory,
    Symlink,
    Link,
    Char,
    Block,
    Fifo,
    /// Any other type (pax and GNU extension headers and the like).
    Other,
}

/// What layer application reads of a tar entry's header.
pub struct TarEntryInfo {
    /// The entry's path, as raw bytes.
    pub path: Vec<u8>,
    /// The entry's type.
    pub kind: EntryKind,
    /// The mode field, when the header holds a readable one.
    pub mode: Option<u32>,
    /// The uid field, when the header holds a readable one.
    pub uid: Option<u64>,
    /// The gid field, when the header holds a readable one.
    pub gid: Option<u64>,
    /// The link name (symlink or hard link target), as raw bytes, if any.
    pub link_name: Option<Vec<u8>>,
}

/// `r` is a refusal of a tar entry with message `msg`.
pub open spec fn refused_with(r: Result<()>, msg: Seq<char>) -> bool {
    r matches Err(Error::InvalidTarPath(m)) && m@ == msg
}

/// The mode to give an entry whose header holds none readable.
pub open spec fn mode_or(m: Option<u32>, default: u32) -> u32 {
    match m {
        Some(v) => v,
        None => default,
    }
}

/// A uid or gid field, truncated to 32 bits; 0 when unreadable.
pub open spec fn id_of(v: Option<u64>) -> u32 {
    match v {
        Some(x) => x as u32,
        None => 0,
    }
}

/// What a whiteout in directory `parent` does to the image: the opaque
/// marker (`w` is `None`) clears the directory; `.wh.<n>` deletes the
/// sibling `n`. A sibling named `.` is the directory itself, which is then
/// cleared, and one named `..` names nothing.
pub open spec fn state_whiteout(s: ImageState, parent: Seq<Seq<char>>, w: Option<Seq<char>>) -> ImageState {
    match w {
        None => state_clear(s, parent),
        Some(n) => if n == seq!['.'] {
            state_clear(s, parent)
        } else if n == seq!['.', '.'] {
            s
        } else {
            state_delete(s, parent.push(n))
        },
    }
}

/// The outcome of applying a non-whiteout entry at the (non-root) path `p`,
/// from image `s0` to image `s1` with result `r`.
pub open spec fn member_applied(
    s0: ImageState,
    e: TarEntryInfo,
    p: Seq<Seq<char>>,
    s1: ImageState,
    r: Result<()>,
) -> bool {
    match e.kind {
        EntryKind::Regular | EntryKind::GnuSparse => {
            &&& r is Ok ==> s1 == state_write(
                s0,
                p,
                perm_of(mode_or(e.mode, 0o644)),
                id_of(e.uid),
                id_of(e.gid),
            )
            &&& r matches Err(x) ==> x is Ext4Format
        },
        EntryKind::Directory => {
            &&& r is Ok ==> s1 == state_owner(
                state_mkdir(s0, p, perm_of(mode_or(e.mode, 0o755)), None, None),
                p,
                id_of(e.uid),
                id_of(e.gid),
            )
            &&& r matches Err(x) ==> x is Ext4Format
            &&& s0.0.contains_key(p) ==> (r is Ok <==> s0.0[p])
            &&& s0.0.contains_key(p) && !s0.0[p] ==> s1 == s0
        },
        EntryKind::Symlink => match e.link_name {
            None => s1 == s0 && refused_with(r, "symlink without target: "@ + path_of(p)),
            Some(b) => if !valid_utf8(b@) {
                s1 == s0 && refused_with(r, "non-UTF-8 symlink target: "@ + path_of(p))
            } else if decode_utf8(b@).contains('\0') {
                s1 == s0 && refused_with(r, "NUL byte in tar entry target at "@ + path_of(p))
            } else {
                &&& r is Ok ==> s1 == state_symlink(s0, p)
                &&& r matches Err(x) ==> x is Ext4Format
            },
        },
        EntryKind::Link => match e.link_name {
            None => s1 == s0 && refused_with(r, "hardlink without target: "@ + path_of(p)),
            Some(b) => match sanitize_spec(b@) {
                Err(f) => s1 == s0 && refused_with(r, fault_text(f) + lossy_utf8(b@)),
                Ok(q) => {
                    &&& r is Ok ==> s1 == state_link(s0, p)
                    &&& r is Ok ==> without_subtree(s0.0, p).contains_key(q) && !s0.0[q]
                    &&& r matches Err(x) ==> x is Ext4Format
                },
            },
        },
        _ => r is Ok && s1 == s0,
    }
}

/// The outcome of applying tar entry `e` to image `s0`: the image `s1` after
/// it, with result `r`. A refused path changes nothing; the root entry is
/// skipped; a whiteout always succeeds.
pub open spec fn entry_applied(s0: ImageState, e: TarEntryInfo, s1: ImageState, r: Result<()>) -> bool {
    match sanitize_spec(e.path@) {
        Err(f) => s1 == s0 && refused_with(r, fault_text(f) + lossy_utf8(e.path@)),
        Ok(p) => if p.len() == 0 {
            r is Ok && s1 == s0
        } else {
            match whiteout_spec(p.last()) {
                Some(w) => r is Ok && s1 == state_whiteout(s0, p.drop_last(), w),
                None => member_applied(s0, e, p, s1, r),
            }
        },
    }
}

/// The entry a tar entry makes a hard link to, when it is a hard link whose
/// path and target are both accepted (and whose path is neither the root
/// nor a whiteout).
pub open spec fn tar_link_target(e: TarEntryInfo) -> Option<Seq<Seq<char>>> {
    match sanitize_spec(e.path@) {
        Ok(p) => if p.len() > 0 && whiteout_spec(p.last()) is None && e.kind == EntryKind::Link {
            match e.link_name {
                Some(b) => match sanitize_spec(b@) {
                    Ok(q) => Some(q),
                    Err(_) => None,
                },
                None => None,
            }
        } else {
            None
        },
        Err(_) => None,
    }
}

/// What applying tar entry `e` with data `data` does to what the image's
/// entries hold, from writer `w0` to `w1` with result `r`. A refused path,
/// the root entry, a whiteout, a directory and a skipped entry (device
/// node, FIFO, extension header) keep what every remaining entry holds; a
/// regular file, symlink or hard link keeps what every entry outside its
/// path holds, and: a regular file written holds exactly `data` in an inode
/// of its own with one link; a symlink made stores exactly its target; a
/// hard link made refers to its target's inode, and so holds what the
/// target held.
pub open spec fn entry_contents_applied(
    w0: Ext4Writer,
    e: TarEntryInfo,
    data: Seq<u8>,
    w1: Ext4Writer,
    r: Result<()>,
) -> bool {
    match sanitize_spec(e.path@) {
        Err(_) => kept_contents(w0, w1, None),
        Ok(p) => if p.len() == 0 || whiteout_spec(p.last()) is Some {
            kept_contents(w0, w1, None)
        } else {
            match e.kind {
                EntryKind::Regular | EntryKind::GnuSparse => {
                    &&& kept_contents(w0, w1, Some(p))
                    &&& r is Ok ==> w1.content(p).data == Some(data) && w1.link_count(p) == 1
                        && forall|k: Seq<Seq<char>>|
                        #![trigger w1.content(k)]
                        w1.tree().contains_key(k) && k != p ==> w1.content(k).inode
                            != w1.content(p).inode
                },
                EntryKind::Symlink => {
                    &&& kept_contents(w0, w1, Some(p))
                    &&& match e.link_name {
                        Some(b) => r is Ok ==> w1.content(p).target == Some(decode_utf8(b@)),
                        None => true,
                    }
                },
                EntryKind::Link => {
                    &&& kept_contents(w0, w1, Some(p))
                    &&& match tar_link_target(e) {
                        Some(q) => r is Ok ==> w1.content(p) == w0.content(q),
                        None => true,
                    }
                },
                _ => kept_contents(w0, w1, None),
            }
        },
    }
}

/// Whether applying `entry` to `writer` keeps within the link counts: true
/// unless it makes a hard link to an entry whose link count has no room
/// left (see [`Ext4Writer::link_room`]).
pub fn tar_link_allowed(writer: &Ext4Writer, entry: &TarEntryInfo) -> (b: bool)
    requires
        writer.wf(),
    ensures
        b == (tar_link_target(*entry) matches Some(q) ==> writer.link_room(q)),
{
    if !matches!(entry.kind, EntryKind::Link) {
        return true;
    }
    let path_str = match sanitize_entry_path(entry.path.as_slice()) {
        Ok(s) => s,
        Err(_) => {
            return true;
        },
    };
    let ghost p = match sanitize_spec(entry.path@) {
        Ok(c) => c,
        Err(_) => Seq::<Seq<char>>::empty(),
    };
    proof {
        crate::path::lemma_split_pieces_free(entry.path@, 47u8);
        crate::path::lemma_sanitize_pieces_valid(crate::path::split_on(entry.path@, 47u8));
        lemma_comps_of_path_of(p);
    }
    if crate::path::is_root_str(path_str.as_str()) {
        return true;
    }
    let leaf = last_component(path_str.as_str());
    if parse_oci_whiteout(leaf).is_some() {
        return true;
    }
    match &entry.link_name {
        None => true,
        Some(bytes) => match sanitize_entry_path(bytes.as_slice()) {
            Err(_) => true,
            Ok(target) => {
                proof {
                    crate::path::lemma_split_pieces_free(bytes@, 47u8);
                    crate::path::lemma_sanitize_pieces_valid(crate::path::split_on(bytes@, 47u8));
                    if let Ok(q) = sanitize_spec(bytes@) {
                        lemma_comps_of_path_of(q);
                    }
                }
                writer.has_link_room(target.as_str())
            },
        },
    }
}

/// Refuse a link target that holds a NUL character.
fn reject_nul(value: &str, owner_path: &str) -> (r: Result<()>)
    ensures
        value@.contains('\0') ==> refused_with(r, "NUL byte in tar entry target at "@ + owner_path@),
        !value@.contains('\0') ==> r is Ok,
{
    let v = chars_of(value);
    let mut i: usize = 0;
    while i < v.len()
        invariant
            v@ == value@,
            i <= v@.len(),
            forall|j: int| 0 <= j < i ==> v@[j] != '\0',
        decreases v.len() - i,
    {
        if v[i] == '\0' {
            assert(value@.contains('\0')) by {
                assert(value@[i as int] == '\0');
            }
            return Err(Error::InvalidTarPath(text_then("NUL byte in tar entry target at ", owner_path)));
        }
        i = i + 1;
    }
    assert(!value@.contains('\0')) by {
        if value@.contains('\0') {
            let j = choose|j: int| 0 <= j < value@.len() && value@[j] == '\0';
            assert(v@[j] != '\0');
        }
    }
    Ok(())
}

/// `text` followed by `rest`.
fn text_then(text: &str, rest: &str) -> (m: String)
    ensures
        m@ == text@ + rest@,
{
    let mut m = String::from_str(text);
    m.append(rest);
    m
}

/// Apply the whiteout `w` found in directory `parent` (a canonical path):
/// see [`state_whiteout`].
pub fn apply_whiteout(writer: &mut Ext4Writer, parent: &str, w: Whiteout) -> (r: Result<()>)
    requires
        old(writer).wf(),
        canonical(parent@),
        match w {
            Whiteout::Delete(n) => n@.len() > 0 && crate::path::free_of(n@, '/'),
            Whiteout::Opaque => true,
        },
    ensures
        final(writer).settings() == old(writer).settings(),
        final(writer).wf(),
        r is Ok,
        kept_contents(*old(writer), *final(writer), None),
        final(writer).state() == state_whiteout(
            old(writer).state(),
            comps_of(parent@),
            match w {
                Whiteout::Delete(n) => Some(n@),
                Whiteout::Opaque => None,
            },
        ),
{
    match w {
        Whiteout::Opaque => writer.clear_dir(parent),
        Whiteout::Delete(name) => {
            let v = chars_of(name);
            if v.len() == 1 && v[0] == '.' {
                assert(name@ =~= seq!['.']);
                writer.clear_dir(parent)
            } else if v.len() == 2 && v[0] == '.' && v[1] == '.' {
                assert(name@ =~= seq!['.', '.']);
                Ok(())
            } else {
                proof {
                    assert(valid_name(name@));
                    lemma_comps_of_path_of(comps_of(parent@));
                    lemma_join_spec(comps_of(parent@), name@);
                    lemma_comps_of_path_of(comps_of(parent@).push(name@));
                }
                let target = join(parent, name);
                writer.delete(target.as_str())
            }
        },
    }
}

/// Apply one tar entry, whose data is `data`, to the writer.
///
/// The entry's path is sanitized first; a refused path fails with
/// [`Error::InvalidTarPath`] and changes nothing. The root entry is skipped.
/// A whiteout deletes its sibling (or clears its directory). Otherwise,
/// by type: a regular file is written (replacing what was at its path), a
/// directory is created `mkdir -p` style and given the entry's owner, a
/// symlink (whose target must be UTF-8 without NUL) and a hard link (whose
/// target is sanitized like a path) replace what was at their path, and
/// device nodes, FIFOs and extension headers are skipped.
pub fn apply_tar_entry(writer: &mut Ext4Writer, entry: &TarEntryInfo, data: &[u8]) -> (r: Result<
    (),
>)
    requires
        old(writer).wf(),
        tar_link_target(*entry) matches Some(q) ==> old(writer).link_room(q),
    ensures
        final(writer).settings() == old(writer).settings(),
        final(writer).wf(),
        entry_applied(old(writer).state(), *entry, final(writer).state(), r),
        entry_contents_applied(*old(writer), *entry, data@, *final(writer), r),
{
    proof {
        crate::ext4::lemma_kept_same(*old(writer));
    }
    let path_str = match sanitize_entry_path(entry.path.as_slice()) {
        Ok(s) => s,
        Err(e) => {
            return Err(e);
        },
    };
    let ghost p = match sanitize_spec(entry.path@) {
        Ok(c) => c,
        Err(_) => Seq::<Seq<char>>::empty(),
    };
    proof {
        crate::path::lemma_split_pieces_free(entry.path@, 47u8);
        crate::path::lemma_sanitize_pieces_valid(crate::path::split_on(entry.path@, 47u8));
        lemma_comps_of_path_of(p);
        crate::ext4::lemma_kept_outside(*old(writer), *old(writer), p);
    }
    if crate::path::is_root_str(path_str.as_str()) {
        return Ok(());
    }
    assert(p.len() > 0);
    let leaf = last_component(path_str.as_str());
    if let Some(w) = parse_oci_whiteout(leaf) {
        let parent = parent_of(path_str.as_str());
        proof {
            lemma_parent_spec(p);
            lemma_comps_of_path_of(p.drop_last());
            assert(valid_comps(p.drop_last())) by {
                assert forall|k: int| 0 <= k < p.drop_last().len() implies valid_name(
                    #[trigger] p.drop_last()[k],
                ) by {
                    assert(p.drop_last()[k] == p[k]);
                }
            }
            lemma_comps_of_path_of(p.drop_last());
            assert(valid_name(leaf@));
        }
        let res = apply_whiteout(writer, parent.as_str(), w);
        proof {
            crate::ext4::lemma_kept_outside(*old(writer), *writer, p);
        }
        return res;
    }
    let path = path_str.as_str();
    match entry.kind {
        EntryKind::Regular | EntryKind::GnuSparse => {
            let mode = match entry.mode {
                Some(m) => m,
                None => 0o644,
            };
            let uid = id_from(entry.uid);
            let gid = id_from(entry.gid);
            writer.write_file(path, data, mode, uid, gid)
        },
        EntryKind::Directory => {
            let mode = match entry.mode {
                Some(m) => m,
                None => 0o755,
            };
            let uid = id_from(entry.uid);
            let gid = id_from(entry.gid);
            let ghost w0 = *writer;
            let res = writer.mkdir_p(path, mode);
            let ghost w1 = *writer;
            proof {
                crate::ext4::lemma_kept_outside(w0, w1, p);
            }
            if res.is_err() {
                return res;
            }
            let res = writer.set_owner(path, uid, gid);
            proof {
                crate::ext4::lemma_kept_chain(w0, w1, *writer);
                crate::ext4::lemma_kept_outside(w0, *writer, p);
            }
            res
        },
        EntryKind::Symlink => {
            match &entry.link_name {
                None => Err(Error::InvalidTarPath(text_then("symlink without target: ", path))),
                Some(bytes) => match str_from_utf8(bytes.as_slice()) {
                    None => Err(Error::InvalidTarPath(text_then("non-UTF-8 symlink target: ", path))),
                    Some(target) => {
                        proof {
                            vstd::utf8::encode_utf8_decode_utf8(target@);
                        }
                        reject_nul(target, path)?;
                        writer.symlink(target, path)
                    },
                },
            }
        },
        EntryKind::Link => {
            match &entry.link_name {
                None => Err(Error::InvalidTarPath(text_then("hardlink without target: ", path))),
                Some(bytes) => {
                    let target = sanitize_entry_path(bytes.as_slice())?;
                    proof {
                        crate::path::lemma_split_pieces_free(bytes@, 47u8);
                        crate::path::lemma_sanitize_pieces_valid(crate::path::split_on(bytes@, 47u8));
                        if let Ok(q) = sanitize_spec(bytes@) {
                            lemma_comps_of_path_of(q);
                        }
                    }
                    writer.link(target.as_str(), path)
                },
            }
        },
        _ => Ok(()),
    }
}

/// A uid or gid header field as written to the image: truncated to 32
/// bits, 0 when unreadable.
fn id_from(v: Option<u64>) -> (r: u32)
    ensures
        r == id_of(v),
{
    match v {
        Some(x) => x as u32,
        None => 0,
    }
}

} // verus!

verus! {

// ---------------------------------------------------------------------------
// Laws of layer application
// ---------------------------------------------------------------------------

/// A tar entry whose path is refused (a `..` component, a NUL byte or a
/// non-UTF-8 component) fails with `InvalidTarPath` and leaves the image as
/// it was.
pub proof fn law_refused_entry_changes_nothing(
    s0: ImageState,
    e: TarEntryInfo,
    s1: ImageState,
    r: Result<()>,
)
    requires
        sanitize_spec(e.path@) is Err,
        entry_applied(s0, e, s1, r),
    ensures
        s1 == s0,
        r matches Err(x) && x is InvalidTarPath,
{
}

/// A `.wh.<name>` entry deletes `<name>` from its directory, with everything
/// below it, and keeps every entry outside it as it was; it always
/// succeeds.
pub proof fn law_whiteout_deletes_sibling(
    s0: ImageState,
    e: TarEntryInfo,
    s1: ImageState,
    r: Result<()>,
    p: Seq<Seq<char>>,
    name: Seq<char>,
)
    requires
        wf_state(s0),
        sanitize_spec(e.path@) == Ok::<Seq<Seq<char>>, crate::path::TarPathFault>(p),
        p.len() > 0,
        whiteout_spec(p.last()) == Some(Some(name)),
        name != seq!['.'],
        name != seq!['.', '.'],
        entry_applied(s0, e, s1, r),
    ensures
        r is Ok,
        forall|k: Seq<Seq<char>>|
            crate::ext4::under(k, p.drop_last().push(name)) ==> !#[trigger] s1.0.contains_key(k),
        forall|k: Seq<Seq<char>>|
            !crate::ext4::under(k, p.drop_last().push(name)) && #[trigger] s0.0.contains_key(k)
                ==> s1.0.contains_key(k) && s1.0[k] == s0.0[k] && s1.1[k] == s0.1[k],
{
    crate::ext4::law_delete_removes_subtree(s0.0, p.drop_last().push(name));
}

/// The opaque marker `.wh..wh..opq` empties its directory and keeps the
/// directory itself, and every entry outside it, as they were; it always
/// succeeds.
pub proof fn law_opaque_clears_directory(
    s0: ImageState,
    e: TarEntryInfo,
    s1: ImageState,
    r: Result<()>,
    p: Seq<Seq<char>>,
)
    requires
        wf_state(s0),
        sanitize_spec(e.path@) == Ok::<Seq<Seq<char>>, crate::path::TarPathFault>(p),
        p.len() > 0,
        whiteout_spec(p.last()) == Some(None::<Seq<char>>),
        s0.0.contains_key(p.drop_last()),
        s0.0[p.drop_last()],
        entry_applied(s0, e, s1, r),
    ensures
        r is Ok,
        s1.0.contains_key(p.drop_last()),
        s1.0[p.drop_last()],
        s1.1[p.drop_last()] == s0.1[p.drop_last()],
        forall|k: Seq<Seq<char>>|
            crate::ext4::under(k, p.drop_last()) && k != p.drop_last() ==> !#[trigger] s1.0.contains_key(k),
        forall|k: Seq<Seq<char>>|
            !crate::ext4::under(k, p.drop_last()) && #[trigger] s0.0.contains_key(k) ==> s1.0.contains_key(k)
                && s1.0[k] == s0.0[k] && s1.1[k] == s0.1[k],
{
    crate::ext4::law_clear_keeps_directory(s0.0, p.drop_last());
}

/// A regular-file entry that is written replaces whatever an earlier layer
/// left at its path: afterwards the path holds a non-directory with the
/// entry's mode and owner, and nothing below it.
pub proof fn law_file_entry_replaces(
    s0: ImageState,
    e: TarEntryInfo,
    s1: ImageState,
    r: Result<()>,
    p: Seq<Seq<char>>,
)
    requires
        wf_state(s0),
        sanitize_spec(e.path@) == Ok::<Seq<Seq<char>>, crate::path::TarPathFault>(p),
        p.len() > 0,
        whiteout_spec(p.last()) is None,
        e.kind == EntryKind::Regular,
        entry_applied(s0, e, s1, r),
        r is Ok,
    ensures
        s1.0.contains_key(p),
        !s1.0[p],
        s1.1[p] == (
            crate::ext4::reg_mode(perm_of(mode_or(e.mode, 0o644))),
            id_of(e.uid),
            id_of(e.gid),
        ),
        forall|k: Seq<Seq<char>>| crate::ext4::under(k, p) && k != p ==> !#[trigger] s1.0.contains_key(k),
{
    crate::ext4::law_write_replaces(s0.0, p);
}

/// A regular-file or directory entry that is applied gets the owner its
/// header names: the header's uid and gid, truncated to 32 bits.
pub proof fn law_entry_owner_from_header(
    s0: ImageState,
    e: TarEntryInfo,
    s1: ImageState,
    r: Result<()>,
    p: Seq<Seq<char>>,
    u: u64,
    g: u64,
)
    requires
        wf_state(s0),
        sanitize_spec(e.path@) == Ok::<Seq<Seq<char>>, crate::path::TarPathFault>(p),
        p.len() > 0,
        whiteout_spec(p.last()) is None,
        e.kind == EntryKind::Regular || e.kind == EntryKind::Directory,
        e.uid == Some(u),
        e.gid == Some(g),
        entry_applied(s0, e, s1, r),
        r is Ok,
    ensures
        s1.1.contains_key(p),
        s1.1[p].1 == u as u32,
        s1.1[p].2 == g as u32,
{
    if e.kind == EntryKind::Directory {
        let m = state_mkdir(s0, p, perm_of(mode_or(e.mode, 0o755)), None, None);
        if s0.0.contains_key(p) {
            assert(s0.1.contains_key(p));
        }
        assert(m.1.contains_key(p));
    }
}

/// A device node, FIFO or extension header whose path is accepted (and is
/// no whiteout marker) is skipped: it succeeds and leaves the image, and what every entry holds,
/// as it was.
pub proof fn law_skipped_entry_changes_nothing(
    w0: Ext4Writer,
    e: TarEntryInfo,
    data: Seq<u8>,
    w1: Ext4Writer,
    r: Result<()>,
    p: Seq<Seq<char>>,
)
    requires
        sanitize_spec(e.path@) == Ok::<Seq<Seq<char>>, crate::path::TarPathFault>(p),
        p.len() == 0 || whiteout_spec(p.last()) is None,
        e.kind == EntryKind::Char || e.kind == EntryKind::Block || e.kind == EntryKind::Fifo
            || e.kind == EntryKind::Other,
        entry_applied(w0.state(), e, w1.state(), r),
        entry_contents_applied(w0, e, data, w1, r),
    ensures
        r is Ok,
        w1.state() == w0.state(),
        kept_contents(w0, w1, None),
{
}

/// A regular-file entry that is written holds exactly the entry's data,
/// whatever an earlier layer left at its path (the upper layer wins), in an
/// inode of its own with one link; every entry outside its path keeps what
/// it held.
pub proof fn law_file_entry_holds_its_data(
    w0: Ext4Writer,
    e: TarEntryInfo,
    data: Seq<u8>,
    w1: Ext4Writer,
    r: Result<()>,
    p: Seq<Seq<char>>,
)
    requires
        sanitize_spec(e.path@) == Ok::<Seq<Seq<char>>, crate::path::TarPathFault>(p),
        p.len() > 0,
        whiteout_spec(p.last()) is None,
        e.kind == EntryKind::Regular,
        entry_contents_applied(w0, e, data, w1, r),
        r is Ok,
    ensures
        w1.content(p).data == Some(data),
        w1.link_count(p) == 1,
        forall|k: Seq<Seq<char>>|
            #![trigger w1.content(k)]
            w1.tree().contains_key(k) && k != p ==> w1.content(k).inode != w1.content(p).inode,
        forall|k: Seq<Seq<char>>|
            #![trigger w1.content(k)]
            w1.tree().contains_key(k) && w0.tree().contains_key(k) && !crate::ext4::under(k, p)
                ==> w1.content(k) == w0.content(k),
{
}

/// A symlink entry that is made stores its target byte for byte: the text
/// stored is the target's UTF-8 decoding, neither sanitized nor refused for
/// `..` components.
pub proof fn law_symlink_entry_stores_target(
    w0: Ext4Writer,
    e: TarEntryInfo,
    data: Seq<u8>,
    w1: Ext4Writer,
    r: Result<()>,
    p: Seq<Seq<char>>,
    b: Seq<u8>,
)
    requires
        sanitize_spec(e.path@) == Ok::<Seq<Seq<char>>, crate::path::TarPathFault>(p),
        p.len() > 0,
        whiteout_spec(p.last()) is None,
        e.kind == EntryKind::Symlink,
        e.link_name matches Some(v) && v@ == b,
        entry_contents_applied(w0, e, data, w1, r),
        r is Ok,
    ensures
        w1.content(p).target == Some(decode_utf8(b)),
{
}

/// A hard-link entry that is made refers to its target's inode: the link
/// and the target hold the same data, symlink target, extended attributes
/// and timestamps.
pub proof fn law_link_entry_shares_inode(
    w0: Ext4Writer,
    e: TarEntryInfo,
    data: Seq<u8>,
    w1: Ext4Writer,
    r: Result<()>,
    p: Seq<Seq<char>>,
    q: Seq<Seq<char>>,
)
    requires
        sanitize_spec(e.path@) == Ok::<Seq<Seq<char>>, crate::path::TarPathFault>(p),
        tar_link_target(e) == Some(q),
        entry_contents_applied(w0, e, data, w1, r),
        r is Ok,
    ensures
        w1.content(p) == w0.content(q),
{
}

} // verus!
