//! Superblock metadata overrides for the output ext4 image.
//!
//! `Ext4Options` is a thin data holder; the values reach the superblock when
//! [`crate::ext4::Ext4Writer::create`] formats the image. A label must fit
//! the superblock's 16-byte `volume_name` field and hold no NUL; the writer
//! refuses any other label with [`Error::InvalidLabel`](crate::Error) before
//! it touches the output file.
use vstd::prelude::*;

use vstd::utf8::encode_utf8;

use crate::path::chars_of;

verus! {

/// Caller-supplied overrides for the output ext4 superblock.
///
/// Other properties of the ext4 image (4 KiB block size, no journal) are
/// fixed by the formatter and not configurable.
#[derive(Clone, Debug)]
pub struct Ext4Options {
    pub(crate) label: Option<String>,
    pub(crate) uuid: Option<uuid::Uuid>,
}

/// Length of the ext4 superblock's `volume_name` field, in bytes.
pub const VOLUME_NAME_LEN: usize = 16;

/// A label the superblock can hold: at most 16 bytes of UTF-8 and no NUL.
pub open spec fn label_fits(l: Seq<char>) -> bool {
    &&& encode_utf8(l).len() <= VOLUME_NAME_LEN
    &&& !l.contains('\0')
}

impl Ext4Options {
    /// The label, as text, if one was set.
    pub closed spec fn label_view(&self) -> Option<Seq<char>> {
        match self.label {
            Some(l) => Some(l@),
            None => None,
        }
    }

    /// The label, if any, fits the superblock.
    pub open spec fn label_ok(&self) -> bool {
        match self.label_view() {
            Some(l) => label_fits(l),
            None => true,
        }
    }

    /// The UUID, if one was set.
    pub closed spec fn uuid_view(&self) -> Option<uuid::Uuid> {
        self.uuid
    }

    /// Create an empty options set. Equivalent to [`Default::default`].
    pub fn new() -> (o: Self)
        ensures
            o.label_view() is None,
            o.uuid_view() is None,
    {
        Ext4Options { label: None, uuid: None }
    }

    /// Set the filesystem volume label. It must fit the ext4 superblock's
    /// 16-byte `volume_name` field; the check happens when the image is
    /// created.
    pub fn label(self, label: &str) -> (o: Self)
        ensures
            o.label_view() == Some(label@),
            o.uuid_view() == self.uuid_view(),
    {
        Ext4Options { label: Some(String::from_str(label)), uuid: self.uuid }
    }

    /// Set an explicit filesystem UUID. When omitted, the formatter picks a
    /// random v4 UUID at format time.
    pub fn uuid(self, uuid: uuid::Uuid) -> (o: Self)
        ensures
            o.label_view() == self.label_view(),
            o.uuid_view() == Some(uuid),
    {
        Ext4Options { label: self.label, uuid: Some(uuid) }
    }

    /// The label, if one was set.
    pub fn label_str(&self) -> (r: Option<&str>)
        ensures
            match r {
                Some(s) => self.label_view() == Some(s@),
                None => self.label_view() is None,
            },
    {
        match &self.label {
            Some(l) => Some(l.as_str()),
            None => None,
        }
    }

    /// The UUID, if one was set.
    pub fn uuid_value(&self) -> (r: Option<uuid::Uuid>)
        ensures
            r == self.uuid_view(),
    {
        self.uuid
    }
}

impl Default for Ext4Options {
    fn default() -> (o: Self)
        ensures
            o.label_view() is None,
            o.uuid_view() is None,
    {
        Ext4Options::new()
    }
}

/// Whether `label` fits the superblock's `volume_name` field.
pub fn label_fits_exec(label: &str) -> (b: bool)
    ensures
        b == label_fits(label@),
{
    if label.as_bytes().len() > VOLUME_NAME_LEN {
        return false;
    }
    let v = chars_of(label);
    let mut i: usize = 0;
    while i < v.len()
        invariant
            v@ == label@,
            i <= v@.len(),
            forall|j: int| 0 <= j < i ==> v@[j] != '\0',
        decreases v.len() - i,
    {
        if v[i] == '\0' {
            assert(label@.contains('\0')) by {
                assert(label@[i as int] == '\0');
            }
            return false;
        }
        i = i + 1;
    }
    assert(!label@.contains('\0')) by {
        if label@.contains('\0') {
            let j = choose|j: int| 0 <= j < label@.len() && label@[j] == '\0';
            assert(v@[j] != '\0');
        }
    }
    true
}

} // verus!
