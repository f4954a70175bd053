//! Path helpers shared between the tar-layer and overlay2-directory appliers:
//! splitting on `/`, the absolute ext4 paths built from component lists, and
//! the OCI whiteout markers.
use vstd::prelude::*;
use vstd::utf8::{decode_utf8, encode_utf8, encode_scalar, valid_utf8};

use crate::error::{Error, Result};

verus! {

// ---------------------------------------------------------------------------
// Splitting a sequence on a separator
// ---------------------------------------------------------------------------

/// Index of the last occurrence of `sep` in `s`, or -1.
pub open spec fn last_index_of<T>(s: Seq<T>, sep: T) -> int
    decreases s.len(),
{
    if s.len() == 0 {
        -1
    } else if s.last() == sep {
        s.len() - 1
    } else {
        last_index_of(s.drop_last(), sep)
    }
}

pub proof fn lemma_last_index_of_bounds<T>(s: Seq<T>, sep: T)
    ensures
        -1 <= last_index_of(s, sep) < s.len(),
        last_index_of(s, sep) >= 0 ==> s[last_index_of(s, sep)] == sep,
        forall|j: int| last_index_of(s, sep) < j < s.len() ==> s[j] != sep,
    decreases s.len(),
{
    if s.len() > 0 && s.last() != sep {
        lemma_last_index_of_bounds(s.drop_last(), sep);
        assert forall|j: int| last_index_of(s, sep) < j < s.len() implies s[j] != sep by {
            if j < s.len() - 1 {
                assert(s[j] == s.drop_last()[j]);
            }
        }
    }
}

/// The pieces of `s` between occurrences of `sep` (as `str::split` yields
/// them: one more piece than there are separators, empty pieces kept).
pub open spec fn split_on<T>(s: Seq<T>, sep: T) -> Seq<Seq<T>>
    decreases s.len(),
{
    let i = last_index_of(s, sep);
    if i < 0 {
        seq![s]
    } else {
        proof {
            lemma_last_index_of_bounds(s, sep);
        }
        split_on(s.subrange(0, i), sep).push(s.subrange(i + 1, s.len() as int))
    }
}

/// Pieces joined back with `sep` between them.
pub open spec fn join_on<T>(pieces: Seq<Seq<T>>, sep: T) -> Seq<T>
    decreases pieces.len(),
{
    if pieces.len() == 0 {
        seq![]
    } else if pieces.len() == 1 {
        pieces[0]
    } else {
        join_on(pieces.drop_last(), sep) + seq![sep] + pieces.last()
    }
}

pub open spec fn free_of<T>(s: Seq<T>, x: T) -> bool {
    forall|i: int| 0 <= i < s.len() ==> s[i] != x
}

pub proof fn lemma_split_on_len<T>(s: Seq<T>, sep: T)
    ensures
        split_on(s, sep).len() >= 1,
    decreases s.len(),
{
    lemma_last_index_of_bounds(s, sep);
    let i = last_index_of(s, sep);
    if i >= 0 {
        lemma_split_on_len(s.subrange(0, i), sep);
    }
}

/// Appending one element to the input extends the last piece, or starts a
/// new empty piece when the element is the separator.
pub proof fn lemma_split_on_snoc<T>(s: Seq<T>, c: T, sep: T)
    ensures
        c == sep ==> split_on(s.push(c), sep) == split_on(s, sep).push(seq![]),
        c != sep ==> split_on(s.push(c), sep) == split_on(s, sep).update(
            split_on(s, sep).len() - 1,
            split_on(s, sep).last().push(c),
        ),
    decreases s.len(),
{
    let t = s.push(c);
    lemma_last_index_of_bounds(s, sep);
    lemma_split_on_len(s, sep);
    assert(t.drop_last() =~= s);
    if c == sep {
        assert(t.subrange(0, s.len() as int) =~= s);
        assert(t.subrange(s.len() + 1int, t.len() as int) =~= Seq::<T>::empty());
    } else {
        let i = last_index_of(s, sep);
        assert(last_index_of(t, sep) == i);
        if i < 0 {
            assert(split_on(t, sep) == seq![t]);
            assert(split_on(s, sep) == seq![s]);
            assert(split_on(s, sep).update(0, s.push(c)) =~= seq![t]);
        } else {
            assert(t.subrange(0, i) =~= s.subrange(0, i));
            assert(t.subrange(i + 1, t.len() as int) =~= s.subrange(i + 1, s.len() as int).push(c));
            assert(split_on(t, sep) =~= split_on(s, sep).update(
                split_on(s, sep).len() - 1,
                split_on(s, sep).last().push(c),
            ));
        }
    }
}

/// Splitting what was joined gives back the pieces, when no piece holds the
/// separator.
pub proof fn lemma_split_join<T>(pieces: Seq<Seq<T>>, sep: T)
    requires
        pieces.len() >= 1,
        forall|k: int| 0 <= k < pieces.len() ==> free_of(#[trigger] pieces[k], sep),
    ensures
        split_on(join_on(pieces, sep), sep) == pieces,
    decreases pieces.len(),
{
    let j = join_on(pieces, sep);
    if pieces.len() == 1 {
        lemma_last_index_of_free(pieces[0], sep);
        assert(split_on(j, sep) =~= pieces);
    } else {
        let front = join_on(pieces.drop_last(), sep);
        let last = pieces.last();
        lemma_last_index_of_suffix(front, last, sep);
        assert(j.subrange(0, front.len() as int) =~= front);
        assert(j.subrange(front.len() + 1int, j.len() as int) =~= last);
        lemma_split_join(pieces.drop_last(), sep);
        assert(split_on(j, sep) =~= pieces);
    }
}

pub proof fn lemma_last_index_of_free<T>(s: Seq<T>, sep: T)
    requires
        free_of(s, sep),
    ensures
        last_index_of(s, sep) == -1,
    decreases s.len(),
{
    if s.len() > 0 {
        lemma_last_index_of_free(s.drop_last(), sep);
    }
}

pub proof fn lemma_last_index_of_suffix<T>(front: Seq<T>, last: Seq<T>, sep: T)
    requires
        free_of(last, sep),
    ensures
        last_index_of(front + seq![sep] + last, sep) == front.len(),
    decreases last.len(),
{
    let s = front + seq![sep] + last;
    if last.len() == 0 {
        assert(s.last() == sep);
    } else {
        assert(s.drop_last() =~= front + seq![sep] + last.drop_last());
        lemma_last_index_of_suffix(front, last.drop_last(), sep);
    }
}


// ---------------------------------------------------------------------------
// Absolute ext4 paths and their components
// ---------------------------------------------------------------------------

/// The absolute path `/c0/c1/...` of a component list; `/` for the empty list.
pub open spec fn path_of(comps: Seq<Seq<char>>) -> Seq<char> {
    seq!['/'] + join_on(comps, '/')
}

/// The components of an absolute path, read back by splitting on `/`.
pub open spec fn comps_of(p: Seq<char>) -> Seq<Seq<char>> {
    if p.len() <= 1 {
        seq![]
    } else {
        split_on(p.drop_first(), '/')
    }
}

/// A single path component as it may appear in a canonical path: not empty,
/// no `/`, and neither `.` nor `..`.
pub open spec fn valid_name(n: Seq<char>) -> bool {
    &&& n.len() > 0
    &&& free_of(n, '/')
    &&& n != seq!['.']
    &&& n != seq!['.', '.']
}

pub open spec fn valid_comps(c: Seq<Seq<char>>) -> bool {
    forall|k: int| 0 <= k < c.len() ==> valid_name(#[trigger] c[k])
}

/// An absolute path with no empty, `.` or `..` component and no trailing `/`
/// (except the root `/` itself).
pub open spec fn canonical(p: Seq<char>) -> bool {
    &&& valid_comps(comps_of(p))
    &&& path_of(comps_of(p)) == p
}

/// `dir` and `name` joined with a single `/`.
pub open spec fn join_spec(dir: Seq<char>, name: Seq<char>) -> Seq<char> {
    if dir == seq!['/'] {
        seq!['/'] + name
    } else {
        dir + seq!['/'] + name
    }
}

/// `s` without its trailing `/` characters.
pub open spec fn trim_trailing_slashes(s: Seq<char>) -> Seq<char>
    decreases s.len(),
{
    if s.len() > 0 && s.last() == '/' {
        trim_trailing_slashes(s.drop_last())
    } else {
        s
    }
}

/// The parent directory of a path: everything before the last `/` once
/// trailing slashes are trimmed, or `/` when that would be empty.
pub open spec fn parent_spec(p: Seq<char>) -> Seq<char> {
    let t = trim_trailing_slashes(p);
    let i = last_index_of(t, '/');
    if i <= 0 {
        seq!['/']
    } else {
        t.subrange(0, i)
    }
}

pub proof fn lemma_join_on_last<T>(pieces: Seq<Seq<T>>, sep: T)
    requires
        pieces.len() >= 1,
    ensures
        join_on(pieces, sep).len() >= pieces.last().len(),
        join_on(pieces, sep).len() == pieces.last().len() ==> pieces.len() == 1,
{
}

/// A component list is read back from its path.
pub proof fn lemma_comps_of_path_of(c: Seq<Seq<char>>)
    requires
        valid_comps(c),
    ensures
        comps_of(path_of(c)) == c,
        canonical(path_of(c)),
        path_of(c).len() >= 1,
        path_of(c)[0] == '/',
        (path_of(c) == seq!['/']) <==> c.len() == 0,
{
    let p = path_of(c);
    if c.len() == 0 {
        assert(join_on(c, '/') =~= Seq::<char>::empty());
        assert(p =~= seq!['/']);
    } else {
        lemma_join_on_last(c, '/');
        assert(valid_name(c.last()));
        assert(p.drop_first() =~= join_on(c, '/'));
        assert forall|k: int| 0 <= k < c.len() implies free_of(#[trigger] c[k], '/') by {
            assert(valid_name(c[k]));
        }
        lemma_split_join(c, '/');
        assert(p.len() > 1);
    }
}

/// Joining a canonical directory with a valid name appends the name to its
/// component list.
pub proof fn lemma_join_spec(c: Seq<Seq<char>>, n: Seq<char>)
    requires
        valid_comps(c),
        valid_name(n),
    ensures
        join_spec(path_of(c), n) == path_of(c.push(n)),
        valid_comps(c.push(n)),
{
    lemma_comps_of_path_of(c);
    let d = c.push(n);
    assert(d.drop_last() =~= c);
    if c.len() == 0 {
        assert(join_on(d, '/') == n);
        assert(join_spec(path_of(c), n) =~= path_of(d));
    } else {
        assert(join_on(d, '/') == join_on(c, '/') + seq!['/'] + n);
        assert(join_spec(path_of(c), n) =~= path_of(d));
    }
    assert forall|k: int| 0 <= k < d.len() implies valid_name(#[trigger] d[k]) by {
        if k < c.len() {
            assert(d[k] == c[k]);
        }
    }
}

/// The parent of a canonical path drops its last component.
pub proof fn lemma_parent_spec(c: Seq<Seq<char>>)
    requires
        valid_comps(c),
    ensures
        parent_spec(path_of(c)) == path_of(if c.len() == 0 { c } else { c.drop_last() }),
{
    let p = path_of(c);
    lemma_comps_of_path_of(c);
    if c.len() == 0 {
        assert(p =~= seq!['/']);
        assert(p.drop_last() =~= Seq::<char>::empty());
        assert(p.len() == 1 && p.last() == '/');
        assert(trim_trailing_slashes(p.drop_last()) == p.drop_last());
        assert(trim_trailing_slashes(p) =~= Seq::<char>::empty());
        assert(join_on(c, '/') =~= Seq::<char>::empty());
        assert(path_of(c) =~= seq!['/']);
    } else {
        let last = c.last();
        assert(valid_name(last));
        assert(p.last() == last.last());
        assert(last.last() != '/');
        assert(trim_trailing_slashes(p) == p);
        let front = if c.len() == 1 { Seq::<char>::empty() } else { seq!['/'] + join_on(c.drop_last(), '/') };
        if c.len() == 1 {
            assert(p =~= Seq::<char>::empty() + seq!['/'] + last);
        } else {
            assert(p =~= (seq!['/'] + join_on(c.drop_last(), '/')) + seq!['/'] + last);
        }
        lemma_last_index_of_suffix(front, last, '/');
        if c.len() == 1 {
            assert(c.drop_last() =~= Seq::<Seq<char>>::empty());
            assert(join_on(c.drop_last(), '/') =~= Seq::<char>::empty());
            assert(path_of(c.drop_last()) =~= seq!['/']);
        } else {
            let e = c.drop_last();
            lemma_join_on_last(e, '/');
            assert(valid_name(e.last()));
            assert(p.subrange(0, front.len() as int) =~= front);
        }
    }
}


// ---------------------------------------------------------------------------
// Executable helpers
// ---------------------------------------------------------------------------

/// The characters of `s`, in order.
pub fn chars_of(s: &str) -> (v: Vec<char>)
    ensures
        v@ == s@,
{
    let mut v: Vec<char> = Vec::new();
    for c in it: s.chars()
        invariant
            v@ == it.seq().take(it.index() as int),
            it.seq() == s@,
    {
        v.push(c);
    }
    v
}


/// The byte ranges `[start, end)` of the pieces of `raw` between `/` bytes.
pub fn split_bytes_on_slash(raw: &[u8]) -> (r: Vec<(usize, usize)>)
    ensures
        r@.len() == split_on(raw@, '/' as u8).len(),
        forall|k: int|
            0 <= k < r@.len() ==> {
                &&& (#[trigger] r@[k]).0 <= r@[k].1 <= raw@.len()
                &&& raw@.subrange(r@[k].0 as int, r@[k].1 as int) == split_on(raw@, '/' as u8)[k]
            },
{
    let sep: u8 = 47u8;
    assert(sep == '/' as u8);
    let mut r: Vec<(usize, usize)> = Vec::new();
    let mut start: usize = 0;
    let mut i: usize = 0;
    assert(raw@.take(0) =~= Seq::<u8>::empty());
    assert(split_on(Seq::<u8>::empty(), sep) =~= seq![Seq::<u8>::empty()]);
    while i < raw.len()
        invariant
            sep == '/' as u8,
            start <= i <= raw@.len(),
            split_on(raw@.take(i as int), sep).len() == r@.len() + 1,
            split_on(raw@.take(i as int), sep).last() == raw@.subrange(start as int, i as int),
            forall|k: int|
                0 <= k < r@.len() ==> {
                    &&& (#[trigger] r@[k]).0 <= r@[k].1 <= i
                    &&& raw@.subrange(r@[k].0 as int, r@[k].1 as int) == split_on(
                        raw@.take(i as int),
                        sep,
                    )[k]
                },
        decreases raw.len() - i,
    {
        let c = raw[i];
        proof {
            assert(raw@.take(i + 1) =~= raw@.take(i as int).push(c));
            lemma_split_on_snoc(raw@.take(i as int), c, sep);
        }
        if c == sep {
            r.push((start, i));
            start = i + 1;
            assert(raw@.subrange(start as int, i + 1) =~= Seq::<u8>::empty());
        } else {
            assert(raw@.subrange(start as int, i + 1) =~= raw@.subrange(start as int, i as int).push(c));
        }
        i = i + 1;
    }
    r.push((start, i));
    assert(raw@.take(i as int) =~= raw@);
    r
}


// ---------------------------------------------------------------------------
// Text decoding (std)
// ---------------------------------------------------------------------------

/// `std::str::from_utf8`: `Some` exactly when the bytes are valid UTF-8, and
/// then the string slice whose UTF-8 encoding is those bytes.
#[verifier::external_body]
pub(crate) fn str_from_utf8(bytes: &[u8]) -> (r: Option<&str>)
    ensures
        r.is_some() == valid_utf8(bytes@),
        r matches Some(s) ==> encode_utf8(s@) == bytes@,
{
    std::str::from_utf8(bytes).ok()
}

/// What `String::from_utf8_lossy` makes of a byte sequence.
pub uninterp spec fn lossy_utf8(bytes: Seq<u8>) -> Seq<char>;

/// `String::from_utf8_lossy`: the bytes as text, each invalid sequence
/// replaced by U+FFFD; valid UTF-8 comes back unchanged.
#[verifier::external_body]
pub(crate) fn string_from_utf8_lossy(bytes: &[u8]) -> (r: String)
    ensures
        r@ == lossy_utf8(bytes@),
        valid_utf8(bytes@) ==> encode_utf8(r@) == bytes@,
{
    String::from_utf8_lossy(bytes).into_owned()
}

proof fn lemma_encode_slash(s: Seq<char>, i: int)
    requires
        0 <= i < s.len(),
        s[i] == '/',
    ensures
        !free_of(encode_utf8(s), 47u8),
    decreases i,
{
    let e = encode_utf8(s);
    let head = encode_scalar(s[0] as u32);
    assert(e == head + encode_utf8(s.drop_first()));
    if i == 0 {
        assert((47u32 & 0x7Fu32) as u8 == 47u8) by (bit_vector);
        assert(head == seq![47u8]);
        assert(e[0] == 47u8);
    } else {
        assert(s.drop_first()[i - 1] == '/');
        lemma_encode_slash(s.drop_first(), i - 1);
        let j = choose|j: int| 0 <= j < encode_utf8(s.drop_first()).len() && encode_utf8(s.drop_first())[j] == 47u8;
        assert(e[head.len() + j] == 47u8);
    }
}

/// A piece of bytes that passes the checks decodes to a valid component name.
pub proof fn lemma_decoded_piece_is_name(b: Seq<u8>)
    requires
        b.len() > 0,
        b != seq![46u8],
        b != seq![46u8, 46u8],
        free_of(b, 47u8),
        valid_utf8(b),
    ensures
        valid_name(decode_utf8(b)),
{
    let d = decode_utf8(b);
    vstd::utf8::decode_utf8_encode_utf8(b);
    assert(encode_utf8(d) == b);
    if d.len() == 0 {
        assert(encode_utf8(d) =~= Seq::<u8>::empty());
    }
    if !free_of(d, '/') {
        let i = choose|i: int| 0 <= i < d.len() && d[i] == '/';
        lemma_encode_slash(d, i);
    }
    lemma_encode_dot();
    if d == seq!['.'] {
        assert(encode_utf8(d) == seq![46u8]);
    }
    if d == seq!['.', '.'] {
        let one = seq!['.'];
        assert(d.drop_first() =~= one);
        assert(encode_utf8(d) == encode_scalar(d[0] as u32) + encode_utf8(one));
        assert(encode_utf8(d) =~= seq![46u8, 46u8]);
    }
}

proof fn lemma_encode_dot()
    ensures
        encode_utf8(seq!['.']) == seq![46u8],
{
    let one = seq!['.'];
    assert('.' as u32 == 46u32);
    assert((46u32 & 0x7Fu32) as u8 == 46u8) by (bit_vector);
    assert(encode_scalar(46u32) == seq![46u8]);
    assert(one.drop_first() =~= Seq::<char>::empty());
    assert(encode_utf8(Seq::<char>::empty()) =~= Seq::<u8>::empty());
    assert(encode_utf8(one) == encode_scalar(one[0] as u32) + encode_utf8(one.drop_first()));
    assert(encode_utf8(one) =~= seq![46u8]);
}

// ---------------------------------------------------------------------------
// Tar entry path sanitation
// ---------------------------------------------------------------------------

/// Why a tar entry path (or hardlink target) is refused.
#[derive(Clone, Copy, Debug, PartialEq, Eq)]
pub enum TarPathFault {
    /// A component is not valid UTF-8.
    NonUtf8,
    /// A component holds a NUL byte.
    Nul,
    /// A `..` component.
    ParentDir,
}

/// The components kept from a list of byte pieces, read left to right: empty
/// and `.` pieces are skipped, the first `..`, non-UTF-8 or NUL-holding
/// piece refuses the whole path.
pub open spec fn sanitize_pieces(ps: Seq<Seq<u8>>) -> std::result::Result<Seq<Seq<char>>, TarPathFault>
    decreases ps.len(),
{
    if ps.len() == 0 {
        Ok(seq![])
    } else {
        match sanitize_pieces(ps.drop_last()) {
            Err(f) => Err(f),
            Ok(acc) => {
                let b = ps.last();
                if b.len() == 0 || b == seq![46u8] {
                    Ok(acc)
                } else if b == seq![46u8, 46u8] {
                    Err(TarPathFault::ParentDir)
                } else if !valid_utf8(b) {
                    Err(TarPathFault::NonUtf8)
                } else if !free_of(b, 0u8) {
                    Err(TarPathFault::Nul)
                } else {
                    Ok(acc.push(decode_utf8(b)))
                }
            },
        }
    }
}

/// The components of a raw tar path, or why it is refused.
pub open spec fn sanitize_spec(raw: Seq<u8>) -> std::result::Result<Seq<Seq<char>>, TarPathFault> {
    sanitize_pieces(split_on(raw, 47u8))
}

/// The text that opens the message of a refused tar path.
pub open spec fn fault_text(f: TarPathFault) -> Seq<char> {
    match f {
        TarPathFault::NonUtf8 => "non-UTF-8 path component: "@,
        TarPathFault::Nul => "NUL byte in tar entry path: "@,
        TarPathFault::ParentDir => "parent-dir component in tar entry: "@,
    }
}

pub proof fn lemma_sanitize_pieces_valid(ps: Seq<Seq<u8>>)
    requires
        forall|k: int| 0 <= k < ps.len() ==> free_of(#[trigger] ps[k], 47u8),
    ensures
        sanitize_pieces(ps) matches Ok(c) ==> valid_comps(c),
    decreases ps.len(),
{
    if ps.len() > 0 {
        assert forall|k: int| 0 <= k < ps.drop_last().len() implies free_of(
            #[trigger] ps.drop_last()[k],
            47u8,
        ) by {
            assert(ps.drop_last()[k] == ps[k]);
        }
        lemma_sanitize_pieces_valid(ps.drop_last());
        if let Ok(acc) = sanitize_pieces(ps.drop_last()) {
            let b = ps.last();
            assert(free_of(b, 47u8)) by {
                assert(b == ps[ps.len() - 1]);
            }
            if b.len() != 0 && b != seq![46u8] && b != seq![46u8, 46u8] && valid_utf8(b)
                && free_of(b, 0u8) {
                lemma_decoded_piece_is_name(b);
                let d = acc.push(decode_utf8(b));
                assert forall|k: int| 0 <= k < d.len() implies valid_name(#[trigger] d[k]) by {
                    if k < acc.len() {
                        assert(d[k] == acc[k]);
                    }
                }
            }
        }
    }
}

pub proof fn lemma_split_pieces_free<T>(s: Seq<T>, sep: T)
    ensures
        forall|k: int| 0 <= k < split_on(s, sep).len() ==> free_of(#[trigger] split_on(s, sep)[k], sep),
    decreases s.len(),
{
    lemma_last_index_of_bounds(s, sep);
    let i = last_index_of(s, sep);
    if i < 0 {
        assert(split_on(s, sep) == seq![s]);
    } else {
        lemma_split_pieces_free(s.subrange(0, i), sep);
        let front = split_on(s.subrange(0, i), sep);
        assert forall|k: int| 0 <= k < split_on(s, sep).len() implies free_of(#[trigger] split_on(s, sep)[k], sep) by {
            if k < front.len() {
                assert(split_on(s, sep)[k] == front[k]);
            } else {
                let last = s.subrange(i + 1, s.len() as int);
                assert(split_on(s, sep)[k] == last);
                assert forall|j: int| 0 <= j < last.len() implies last[j] != sep by {
                    assert(last[j] == s[i + 1 + j]);
                }
            }
        }
    }
}

/// Validate a tar entry path (given as its raw bytes) and canonicalize it to
/// an absolute ext4 path.
///
/// Components are the pieces between `/` bytes: `..` is rejected outright,
/// empty and `.` pieces are skipped, and every other piece must be valid
/// UTF-8 without a NUL byte; the kept pieces are joined behind a leading
/// `/`. An empty path normalizes to `/`.
pub fn sanitize_entry_path(raw: &[u8]) -> (r: Result<String>)
    ensures
        match sanitize_spec(raw@) {
            Ok(c) => r matches Ok(s) && s@ == path_of(c) && canonical(s@),
            Err(f) => r matches Err(Error::InvalidTarPath(m)) && m@ == fault_text(f) + lossy_utf8(
                raw@,
            ),
        },
{
    let pieces = split_bytes_on_slash(raw);
    let ghost ps = split_on(raw@, 47u8);
    proof {
        lemma_split_pieces_free(raw@, 47u8);
    }
    let mut out = String::from_str("/");
    proof {
        reveal_strlit("/");
        assert(join_on(Seq::<Seq<char>>::empty(), '/') =~= Seq::<char>::empty());
        assert(out@ =~= path_of(Seq::<Seq<char>>::empty()));
        assert(ps.take(0) =~= Seq::<Seq<u8>>::empty());
    }
    let ghost mut acc: Seq<Seq<char>> = Seq::empty();
    let mut empty_so_far = true;
    let mut k: usize = 0;
    while k < pieces.len()
        invariant
            pieces@.len() == ps.len(),
            ps == split_on(raw@, 47u8),
            forall|j: int|
                0 <= j < pieces@.len() ==> {
                    &&& (#[trigger] pieces@[j]).0 <= pieces@[j].1 <= raw@.len()
                    &&& raw@.subrange(pieces@[j].0 as int, pieces@[j].1 as int) == ps[j]
                },
            forall|j: int| 0 <= j < ps.len() ==> free_of(#[trigger] ps[j], 47u8),
            k <= pieces@.len(),
            sanitize_pieces(ps.take(k as int)) == Ok::<Seq<Seq<char>>, TarPathFault>(acc),
            out@ == path_of(acc),
            empty_so_far == (acc.len() == 0),
        decreases pieces@.len() - k,
    {
        let (a, b) = pieces[k];
        let ghost piece = ps[k as int];
        proof {
            assert(ps.take(k + 1).drop_last() =~= ps.take(k as int));
            assert(ps.take(k + 1).last() == piece);
        }
        let piece_bytes = vstd::slice::slice_subrange(raw, a, b);
        assert(piece_bytes@ == piece);
        if b == a || (b - a == 1 && raw[a] == 46u8) {
            assert(piece.len() == 0 || piece =~= seq![46u8]);
        } else if b - a == 2 && raw[a] == 46u8 && raw[a + 1] == 46u8 {
            assert(piece =~= seq![46u8, 46u8]);
            assert(sanitize_pieces(ps.take(k + 1)) == Err::<Seq<Seq<char>>, TarPathFault>(TarPathFault::ParentDir));
            proof {
                lemma_sanitize_prefix_err(ps, (k + 1) as int);
            }
            return Err(Error::InvalidTarPath(fault_message("parent-dir component in tar entry: ", raw)));
        } else {
            assert(piece.len() != 0 && piece != seq![46u8] && piece != seq![46u8, 46u8]) by {
                if piece == seq![46u8] { assert(piece.len() == 1 && piece[0] == 46u8); }
                if piece == seq![46u8, 46u8] { assert(piece.len() == 2 && piece[0] == 46u8 && piece[1] == 46u8); }
            }
            match str_from_utf8(piece_bytes) {
                None => {
                    assert(sanitize_pieces(ps.take(k + 1)) == Err::<Seq<Seq<char>>, TarPathFault>(TarPathFault::NonUtf8));
                    proof {
                        lemma_sanitize_prefix_err(ps, (k + 1) as int);
                    }
                    return Err(Error::InvalidTarPath(fault_message("non-UTF-8 path component: ", raw)));
                },
                Some(seg) => {
                    if has_nul(piece_bytes) {
                        assert(sanitize_pieces(ps.take(k + 1)) == Err::<Seq<Seq<char>>, TarPathFault>(TarPathFault::Nul));
                        proof {
                            lemma_sanitize_prefix_err(ps, (k + 1) as int);
                        }
                        return Err(Error::InvalidTarPath(fault_message("NUL byte in tar entry path: ", raw)));
                    }
                    proof {
                        vstd::utf8::decode_utf8_encode_utf8(piece);
                        vstd::utf8::encode_utf8_decode_utf8(seg@);
                        assert(seg@ == decode_utf8(piece));
                        lemma_decoded_piece_is_name(piece);
                    }
                    let ghost old_out = out@;
                    if !empty_so_far {
                        out.append("/");
                        proof {
                            reveal_strlit("/");
                        }
                    }
                    out.append(seg);
                    proof {
                        let nacc = acc.push(seg@);
                        assert(nacc.drop_last() =~= acc);
                        if acc.len() == 0 {
                            assert(join_on(nacc, '/') == seg@);
                            assert(out@ =~= path_of(nacc));
                        } else {
                            assert(join_on(nacc, '/') == join_on(acc, '/') + seq!['/'] + seg@);
                            assert(out@ =~= path_of(nacc));
                        }
                        acc = nacc;
                    }
                    empty_so_far = false;
                }
            }
        }
        k = k + 1;
    }
    proof {
        assert(ps.take(k as int) =~= ps);
        lemma_sanitize_pieces_valid(ps);
        lemma_comps_of_path_of(acc);
    }
    Ok(out)
}

proof fn lemma_sanitize_prefix_err(ps: Seq<Seq<u8>>, n: int)
    requires
        0 <= n <= ps.len(),
        sanitize_pieces(ps.take(n)) is Err,
    ensures
        sanitize_pieces(ps) == sanitize_pieces(ps.take(n)),
    decreases ps.len() - n,
{
    if n < ps.len() {
        assert(ps.take(n + 1).drop_last() =~= ps.take(n));
        lemma_sanitize_prefix_err(ps, n + 1);
    } else {
        assert(ps.take(n) =~= ps);
    }
}

/// Whether any byte is NUL.
fn has_nul(b: &[u8]) -> (r: bool)
    ensures
        r == !free_of(b@, 0u8),
{
    let mut i: usize = 0;
    while i < b.len()
        invariant
            i <= b@.len(),
            forall|j: int| 0 <= j < i ==> b@[j] != 0u8,
        decreases b.len() - i,
    {
        if b[i] == 0u8 {
            return true;
        }
        i = i + 1;
    }
    false
}

/// `text` followed by the raw path as (lossily decoded) text.
fn fault_message(text: &str, raw: &[u8]) -> (m: String)
    ensures
        m@ == text@ + lossy_utf8(raw@),
{
    let mut m = String::from_str(text);
    let shown = string_from_utf8_lossy(raw);
    m.append(shown.as_str());
    m
}


// ---------------------------------------------------------------------------
// Joining, parents and whiteout markers
// ---------------------------------------------------------------------------

/// Whether the string is exactly `/`.
pub(crate) fn is_root_str(s: &str) -> (b: bool)
    ensures
        b == (s@ == seq!['/']),
{
    if s.unicode_len() == 1 {
        let c = s.get_char(0);
        if c == '/' {
            assert(s@ =~= seq!['/']);
            return true;
        }
    }
    false
}

/// Join an absolute directory path with a leaf name, preserving a single `/`.
pub fn join(dir: &str, name: &str) -> (r: String)
    ensures
        r@ == join_spec(dir@, name@),
{
    let mut out = String::from_str(dir);
    if !is_root_str(dir) {
        out.append("/");
    }
    proof {
        reveal_strlit("/");
    }
    out.append(name);
    out
}

/// Parent of an absolute ext4 path, keeping `/` for root and root-children.
pub fn parent_of(path: &str) -> (r: String)
    ensures
        r@ == parent_spec(path@),
{
    let v = chars_of(path);
    let mut end: usize = v.len();
    assert(path@.take(end as int) =~= path@);
    while end > 0 && v[end - 1] == '/'
        invariant
            v@ == path@,
            end <= v@.len(),
            trim_trailing_slashes(path@) == trim_trailing_slashes(path@.take(end as int)),
        decreases end,
    {
        proof {
            assert(path@.take(end as int).drop_last() =~= path@.take(end - 1));
        }
        end = end - 1;
    }
    let ghost t = path@.take(end as int);
    assert(trim_trailing_slashes(t) == t);
    assert(trim_trailing_slashes(path@) == t);
    let mut i: usize = end;
    assert(t.take(i as int) =~= t);
    while i > 0 && v[i - 1] != '/'
        invariant
            v@ == path@,
            i <= end <= v@.len(),
            t == path@.take(end as int),
            last_index_of(t, '/') == last_index_of(t.take(i as int), '/'),
        decreases i,
    {
        proof {
            assert(t.take(i as int).drop_last() =~= t.take(i - 1));
        }
        i = i - 1;
    }
    proof {
        if i == 0 {
            assert(t.take(0) =~= Seq::<char>::empty());
        } else {
            assert(t.take(i as int).last() == '/');
        }
    }
    if i <= 1 {
        proof {
            reveal_strlit("/");
        }
        String::from_str("/")
    } else {
        let front = path.substring_char(0, i - 1);
        assert(front@ =~= t.subrange(0, i - 1));
        String::from_str(front)
    }
}

/// In a canonical path with at least one component, the last `/` stands
/// just before the last component.
pub proof fn lemma_last_slash(c: Seq<Seq<char>>)
    requires
        valid_comps(c),
        c.len() > 0,
    ensures
        last_index_of(path_of(c), '/') == path_of(c).len() - c.last().len() - 1,
        path_of(c).subrange(path_of(c).len() - c.last().len(), path_of(c).len() as int)
            == c.last(),
{
    let p = path_of(c);
    let last = c.last();
    assert(valid_name(last));
    let front = if c.len() == 1 { Seq::<char>::empty() } else { seq!['/'] + join_on(c.drop_last(), '/') };
    if c.len() == 1 {
        assert(p =~= front + seq!['/'] + last);
    } else {
        assert(p =~= front + seq!['/'] + last);
    }
    lemma_last_index_of_suffix(front, last, '/');
    assert(p.subrange(p.len() - last.len(), p.len() as int) =~= last);
}

/// The last component of a canonical path other than `/`.
pub fn last_component(path: &str) -> (r: &str)
    requires
        canonical(path@),
        path@ != seq!['/'],
    ensures
        r@ == comps_of(path@).last(),
        valid_name(r@),
{
    let ghost c = comps_of(path@);
    proof {
        lemma_comps_of_path_of(c);
        if c.len() == 0 {
            assert(path@ =~= seq!['/']);
        }
        lemma_last_slash(c);
        lemma_last_index_of_bounds(path@, '/');
        assert(valid_name(c.last()));
    }
    let v = chars_of(path);
    let mut i: usize = v.len();
    assert(path@.take(i as int) =~= path@);
    while i > 0 && v[i - 1] != '/'
        invariant
            v@ == path@,
            i <= v@.len(),
            last_index_of(path@, '/') == last_index_of(path@.take(i as int), '/'),
        decreases i,
    {
        proof {
            assert(path@.take(i as int).drop_last() =~= path@.take(i - 1));
        }
        i = i - 1;
    }
    proof {
        if i == 0 {
            assert(path@.take(0) =~= Seq::<char>::empty());
        } else {
            assert(path@.take(i as int).last() == '/');
        }
    }
    let r = path.substring_char(i, v.len());
    assert(r@ =~= c.last());
    r
}

/// An OCI whiteout marker detected on a tar entry name or a directory-walk
/// leaf.
pub enum Whiteout<'a> {
    /// `.wh.<name>`: delete `<parent>/<name>`.
    Delete(&'a str),
    /// `.wh..wh..opq`: clear every entry in the parent directory.
    Opaque,
}

/// The opaque-directory marker `.wh..wh..opq`.
pub open spec fn opaque_marker() -> Seq<char> {
    seq!['.', 'w', 'h', '.', '.', 'w', 'h', '.', '.', 'o', 'p', 'q']
}

/// The whiteout prefix `.wh.`.
pub open spec fn whiteout_prefix() -> Seq<char> {
    seq!['.', 'w', 'h', '.']
}

/// `Some(Some(n))` when `name` whites out the sibling `n`, `Some(None)` when
/// it is the opaque marker, `None` when it is no whiteout at all.
pub open spec fn whiteout_spec(name: Seq<char>) -> Option<Option<Seq<char>>> {
    if name == opaque_marker() {
        Some(None)
    } else if name.len() > 4 && name.take(4) == whiteout_prefix() {
        Some(Some(name.skip(4)))
    } else {
        None
    }
}

/// Every leaf name `.wh.<n>` with `n` non-empty, other than the opaque
/// marker `.wh..wh..opq`, whites out the sibling `n`, whatever `n`'s
/// characters are (`.wh..cache` deletes `.cache`); the opaque marker clears
/// its directory; a name not starting with `.wh.` is no whiteout.
pub proof fn law_whiteout_names_its_sibling(n: Seq<char>, name: Seq<char>)
    ensures
        n.len() > 0 && seq!['.', 'w', 'h', '.'] + n != seq![
            '.', 'w', 'h', '.', '.', 'w', 'h', '.', '.', 'o', 'p', 'q'
        ] ==> whiteout_spec(seq!['.', 'w', 'h', '.'] + n) == Some(Some(n)),
        whiteout_spec(seq!['.', 'w', 'h', '.', '.', 'w', 'h', '.', '.', 'o', 'p', 'q']) == Some(
            None::<Seq<char>>,
        ),
        !(name.len() >= 4 && name.take(4) == seq!['.', 'w', 'h', '.']) ==> whiteout_spec(name) is None,
{
    let w = seq!['.', 'w', 'h', '.'] + n;
    assert(w.take(4) =~= seq!['.', 'w', 'h', '.']);
    assert(w.skip(4) =~= n);
    if name.len() >= 4 && name == opaque_marker() {
        assert(name.take(4) =~= seq!['.', 'w', 'h', '.']);
    }
}

/// Whether `v` starts with `lit`.
fn starts_with_chars(v: &Vec<char>, lit: &[char]) -> (b: bool)
    ensures
        b == (lit@.len() <= v@.len() && v@.take(lit@.len() as int) == lit@),
{
    if lit.len() > v.len() {
        return false;
    }
    let mut i: usize = 0;
    while i < lit.len()
        invariant
            lit@.len() <= v@.len(),
            i <= lit@.len(),
            forall|j: int| 0 <= j < i ==> v@[j] == lit@[j],
        decreases lit.len() - i,
    {
        if v[i] != lit[i] {
            assert(v@.take(lit@.len() as int)[i as int] != lit@[i as int]);
            return false;
        }
        i = i + 1;
    }
    assert(v@.take(lit@.len() as int) =~= lit@);
    true
}

/// Classify a leaf file name as an OCI whiteout marker.
pub fn parse_oci_whiteout(file_name: &str) -> (r: Option<Whiteout<'_>>)
    ensures
        match r {
            None => whiteout_spec(file_name@) is None,
            Some(Whiteout::Opaque) => whiteout_spec(file_name@) == Some(None::<Seq<char>>),
            Some(Whiteout::Delete(n)) => whiteout_spec(file_name@) == Some(Some(n@)),
        },
{
    let v = chars_of(file_name);
    let opq = ['.', 'w', 'h', '.', '.', 'w', 'h', '.', '.', 'o', 'p', 'q'];
    assert(opq@ == opaque_marker());
    if v.len() == 12 && starts_with_chars(&v, &opq) {
        assert(file_name@ =~= opaque_marker());
        return Some(Whiteout::Opaque);
    }
    assert(file_name@ != opaque_marker()) by {
        if file_name@ == opaque_marker() {
            assert(v@.take(12) =~= v@);
        }
    }
    let pre = ['.', 'w', 'h', '.'];
    assert(pre@ == whiteout_prefix());
    if v.len() > 4 && starts_with_chars(&v, &pre) {
        let rest = file_name.substring_char(4, v.len());
        assert(rest@ =~= file_name@.skip(4));
        Some(Whiteout::Delete(rest))
    } else {
        None
    }
}

} // verus!

verus! {

/// The parent of a directory joined with a name is that directory again.
pub proof fn law_parent_of_join(c: Seq<Seq<char>>, n: Seq<char>)
    requires
        valid_comps(c),
        valid_name(n),
    ensures
        parent_spec(join_spec(path_of(c), n)) == path_of(c),
        canonical(join_spec(path_of(c), n)),
{
    lemma_join_spec(c, n);
    lemma_parent_spec(c.push(n));
    assert(c.push(n).drop_last() =~= c);
    lemma_comps_of_path_of(c.push(n));
}

} // verus!

verus! {

/// Joining the pieces of a split gives back what was split.
pub proof fn lemma_join_split<T>(s: Seq<T>, sep: T)
    ensures
        join_on(split_on(s, sep), sep) == s,
    decreases s.len(),
{
    lemma_last_index_of_bounds(s, sep);
    let i = last_index_of(s, sep);
    if i >= 0 {
        let front = s.subrange(0, i);
        lemma_join_split(front, sep);
        lemma_split_on_len(front, sep);
        assert(split_on(s, sep).drop_last() =~= split_on(front, sep));
        assert(s =~= front + seq![sep] + s.subrange(i + 1, s.len() as int));
    }
}

/// Whether `s` is a canonical absolute path: `/`, or `/` followed by valid
/// names separated by single `/`.
pub fn is_canonical(s: &str) -> (b: bool)
    ensures
        b == canonical(s@),
{
    let v = chars_of(s);
    if v.len() == 0 || v[0] != '/' {
        proof {
            if canonical(s@) {
                lemma_comps_of_path_of(comps_of(s@));
            }
        }
        return false;
    }
    if v.len() == 1 {
        proof {
            assert(s@ =~= seq!['/']);
            assert(join_on(Seq::<Seq<char>>::empty(), '/') =~= Seq::<char>::empty());
            assert(path_of(Seq::<Seq<char>>::empty()) =~= seq!['/']);
        }
        return true;
    }
    let mut w: Vec<char> = Vec::new();
    let mut i: usize = 1;
    while i < v.len()
        invariant
            v@ == s@,
            1 <= i <= v@.len(),
            w@ == s@.subrange(1, i as int),
        decreases v.len() - i,
    {
        w.push(v[i]);
        i = i + 1;
        assert(w@ =~= s@.subrange(1, i as int));
    }
    assert(w@ =~= s@.drop_first());
    let ranges = crate::text::split_chars(&w, '/');
    let ghost ps = split_on(w@, '/');
    proof {
        lemma_split_pieces_free(w@, '/');
        lemma_join_split(w@, '/');
        assert(comps_of(s@) == ps);
    }
    let mut k: usize = 0;
    let mut ok = true;
    while k < ranges.len()
        invariant
            ranges@.len() == ps.len(),
            forall|j: int|
                0 <= j < ranges@.len() ==> {
                    &&& (#[trigger] ranges@[j]).0 <= ranges@[j].1 <= w@.len()
                    &&& w@.subrange(ranges@[j].0 as int, ranges@[j].1 as int) == ps[j]
                },
            forall|j: int| 0 <= j < ps.len() ==> free_of(#[trigger] ps[j], '/'),
            k <= ranges@.len(),
            ok == forall|j: int| 0 <= j < k ==> valid_name(#[trigger] ps[j]),
        decreases ranges.len() - k,
    {
        let (a, b) = ranges[k];
        let ghost piece = ps[k as int];
        assert(piece.len() == b - a);
        let bad = b == a || (b - a == 1 && w[a] == '.') || (b - a == 2 && w[a] == '.' && w[a + 1]
            == '.');
        assert(bad == !valid_name(piece)) by {
            if b - a == 1 && w@[a as int] == '.' {
                assert(piece =~= seq!['.']);
            }
            if b - a == 2 && w@[a as int] == '.' && w@[a + 1] == '.' {
                assert(piece =~= seq!['.', '.']);
            }
            if piece == seq!['.'] || piece == seq!['.', '.'] {
                assert(piece[0] == w@[a as int]);
            }
            if piece == seq!['.', '.'] {
                assert(piece[1] == w@[a + 1]);
            }
        }
        if bad {
            ok = false;
        }
        k = k + 1;
    }
    proof {
        if ok {
            assert(path_of(ps) =~= s@);
        } else {
            assert(!valid_comps(ps));
        }
    }
    ok
}

} // verus!

verus! {

// ---------------------------------------------------------------------------
// Sanitation is idempotent
// ---------------------------------------------------------------------------

/// UTF-8 encoding distributes over concatenation.
pub proof fn lemma_encode_concat(a: Seq<char>, b: Seq<char>)
    ensures
        encode_utf8(a + b) == encode_utf8(a) + encode_utf8(b),
    decreases a.len(),
{
    if a.len() == 0 {
        assert(a + b =~= b);
        assert(encode_utf8(a) =~= Seq::<u8>::empty());
        assert(encode_utf8(a) + encode_utf8(b) =~= encode_utf8(b));
    } else {
        assert((a + b).drop_first() =~= a.drop_first() + b);
        assert((a + b)[0] == a[0]);
        lemma_encode_concat(a.drop_first(), b);
        assert(encode_utf8(a + b) =~= encode_utf8(a) + encode_utf8(b));
    }
}

/// An ASCII byte appears in the encoding of a scalar only as the encoding
/// of that very character.
proof fn lemma_scalar_ascii_byte(x: u32, b: u8, j: int)
    requires
        vstd::utf8::is_scalar(x),
        b < 0x80,
        0 <= j < encode_scalar(x).len(),
        encode_scalar(x)[j] == b,
    ensures
        x == b as u32,
{
    if vstd::utf8::has_width_1_encoding(x) {
        assert(x <= 0x7f ==> (x & 0x7f) as u8 == x as u8) by (bit_vector);
    } else {
        assert(forall|y: u8| #[trigger] (0x80u8 | y) >= 0x80u8) by (bit_vector);
        assert(forall|y: u8| #[trigger] (0xC0u8 | y) >= 0x80u8) by (bit_vector);
        assert(forall|y: u8| #[trigger] (0xE0u8 | y) >= 0x80u8) by (bit_vector);
        assert(forall|y: u8| #[trigger] (0xF0u8 | y) >= 0x80u8) by (bit_vector);
    }
}

/// A text without the ASCII character `c` encodes to bytes without `c`'s
/// byte.
pub proof fn lemma_encode_free(s: Seq<char>, c: char, b: u8)
    requires
        free_of(s, c),
        c as u32 == b as u32,
        b < 0x80,
    ensures
        free_of(encode_utf8(s), b),
    decreases s.len(),
{
    if s.len() > 0 {
        let head = encode_scalar(s[0] as u32);
        assert(encode_utf8(s) == head + encode_utf8(s.drop_first()));
        assert(free_of(s.drop_first(), c)) by {
            assert forall|i: int| 0 <= i < s.drop_first().len() implies s.drop_first()[i] != c by {
                assert(s.drop_first()[i] == s[i + 1]);
            }
        }
        lemma_encode_free(s.drop_first(), c, b);
        vstd::utf8::char_is_scalar(s[0]);
        assert forall|j: int| 0 <= j < encode_utf8(s).len() implies encode_utf8(s)[j] != b by {
            if j < head.len() {
                if head[j] == b {
                    lemma_scalar_ascii_byte(s[0] as u32, b, j);
                    vstd::utf8::char_u32_cast(s[0], b as u32);
                    vstd::utf8::char_u32_cast(c, b as u32);
                    assert(s[0] == c);
                }
            } else {
                assert(encode_utf8(s)[j] == encode_utf8(s.drop_first())[j - head.len()]);
            }
        }
    }
}

proof fn lemma_encode_slash_char()
    ensures
        encode_utf8(seq!['/']) == seq![47u8],
{
    let one = seq!['/'];
    assert('/' as u32 == 47u32);
    assert((47u32 & 0x7Fu32) as u8 == 47u8) by (bit_vector);
    assert(encode_scalar(47u32) == seq![47u8]);
    assert(one.drop_first() =~= Seq::<char>::empty());
    assert(encode_utf8(Seq::<char>::empty()) =~= Seq::<u8>::empty());
    assert(encode_utf8(one) == encode_scalar(one[0] as u32) + encode_utf8(one.drop_first()));
    assert(encode_utf8(one) =~= seq![47u8]);
}

/// The encodings of each component.
pub open spec fn encode_comps(c: Seq<Seq<char>>) -> Seq<Seq<u8>> {
    c.map_values(|n: Seq<char>| encode_utf8(n))
}

/// Encoding a joined component list joins the encoded components.
proof fn lemma_encode_join(c: Seq<Seq<char>>)
    ensures
        encode_utf8(join_on(c, '/')) == join_on(encode_comps(c), 47u8),
    decreases c.len(),
{
    let e = encode_comps(c);
    if c.len() == 0 {
        assert(encode_utf8(Seq::<char>::empty()) =~= Seq::<u8>::empty());
    } else if c.len() == 1 {
        assert(e[0] == encode_utf8(c[0]));
    } else {
        let front = c.drop_last();
        lemma_encode_join(front);
        assert(encode_comps(front) =~= e.drop_last());
        lemma_encode_concat(join_on(front, '/') + seq!['/'], c.last());
        lemma_encode_concat(join_on(front, '/'), seq!['/']);
        lemma_encode_slash_char();
        assert(e.last() == encode_utf8(c.last()));
    }
}

/// Joining a list that starts with an extra piece.
proof fn lemma_join_cons<T>(x: Seq<T>, ps: Seq<Seq<T>>, sep: T)
    requires
        ps.len() >= 1,
    ensures
        join_on(seq![x] + ps, sep) == x + seq![sep] + join_on(ps, sep),
    decreases ps.len(),
{
    let all = seq![x] + ps;
    if ps.len() == 1 {
        assert(all.drop_last() =~= seq![x]);
        assert(all.last() == ps[0]);
    } else {
        lemma_join_cons(x, ps.drop_last(), sep);
        assert(all.drop_last() =~= seq![x] + ps.drop_last());
        assert(all.last() == ps.last());
    }
}

/// Sanitizing the pieces `""`, then the encodings of valid NUL-free names,
/// gives the names back.
proof fn lemma_sanitize_encoded(c: Seq<Seq<char>>)
    requires
        valid_comps(c),
        forall|k: int| 0 <= k < c.len() ==> free_of(#[trigger] c[k], '\0'),
    ensures
        sanitize_pieces(seq![Seq::<u8>::empty()] + encode_comps(c)) == Ok::<
            Seq<Seq<char>>,
            TarPathFault,
        >(c),
    decreases c.len(),
{
    let ps = seq![Seq::<u8>::empty()] + encode_comps(c);
    if c.len() == 0 {
        assert(ps.drop_last() =~= Seq::<Seq<u8>>::empty());
        assert(ps.last() =~= Seq::<u8>::empty());
        assert(sanitize_pieces(ps.drop_last()) == Ok::<Seq<Seq<char>>, TarPathFault>(seq![]));
        assert(c =~= Seq::<Seq<char>>::empty());
    } else {
        let front = c.drop_last();
        assert(valid_comps(front)) by {
            assert forall|k: int| 0 <= k < front.len() implies valid_name(#[trigger] front[k]) by {
                assert(front[k] == c[k]);
            }
        }
        assert forall|k: int| 0 <= k < front.len() implies free_of(#[trigger] front[k], '\0') by {
            assert(front[k] == c[k]);
        }
        lemma_sanitize_encoded(front);
        assert(ps.drop_last() =~= seq![Seq::<u8>::empty()] + encode_comps(front));
        let n = c.last();
        let b = ps.last();
        assert(b == encode_utf8(n));
        assert(valid_name(n));
        assert(free_of(n, '\0'));
        vstd::utf8::encode_utf8_valid_utf8(n);
        vstd::utf8::encode_utf8_decode_utf8(n);
        lemma_encode_free(n, '\0', 0u8);
        lemma_encode_dot();
        if b.len() == 0 {
            assert(n.len() > 0);
            assert(encode_utf8(n) == encode_scalar(n[0] as u32) + encode_utf8(n.drop_first()));
            vstd::utf8::char_is_scalar(n[0]);
        }
        if b == seq![46u8] {
            vstd::utf8::encode_utf8_decode_utf8(seq!['.']);
        }
        if b == seq![46u8, 46u8] {
            let dd = seq!['.', '.'];
            assert(dd.drop_first() =~= seq!['.']);
            assert(encode_utf8(dd) == encode_scalar(dd[0] as u32) + encode_utf8(dd.drop_first()));
            assert(encode_utf8(dd) =~= seq![46u8, 46u8]);
            vstd::utf8::encode_utf8_decode_utf8(dd);
        }
        assert(b.len() > 0);
        assert(b != seq![46u8]);
        assert(b != seq![46u8, 46u8]);
        assert(valid_utf8(b));
        assert(free_of(b, 0u8));
        assert(decode_utf8(b) == n);
        assert(sanitize_pieces(ps.drop_last()) == Ok::<Seq<Seq<char>>, TarPathFault>(front));
        assert(front.push(n) =~= c);
    }
}

/// The components a path is refused or accepted with hold no NUL.
proof fn lemma_sanitize_pieces_nul_free(ps: Seq<Seq<u8>>)
    ensures
        sanitize_pieces(ps) matches Ok(c) ==> forall|k: int|
            0 <= k < c.len() ==> free_of(#[trigger] c[k], '\0'),
    decreases ps.len(),
{
    if ps.len() > 0 {
        lemma_sanitize_pieces_nul_free(ps.drop_last());
        let b = ps.last();
        if valid_utf8(b) && free_of(b, 0u8) {
            let d = decode_utf8(b);
            vstd::utf8::decode_utf8_encode_utf8(b);
            if !free_of(d, '\0') {
                let i = choose|i: int| 0 <= i < d.len() && d[i] == '\0';
                lemma_encode_has_ascii(d, i, 0u8);
            }
        }
    }
}

/// An ASCII character in a text puts its byte in the encoding.
proof fn lemma_encode_has_ascii(s: Seq<char>, i: int, b: u8)
    requires
        0 <= i < s.len(),
        s[i] as u32 == b as u32,
        b < 0x80,
    ensures
        !free_of(encode_utf8(s), b),
    decreases i,
{
    let e = encode_utf8(s);
    let head = encode_scalar(s[0] as u32);
    assert(e == head + encode_utf8(s.drop_first()));
    if i == 0 {
        let x = s[0] as u32;
        assert(x <= 0x7f ==> (x & 0x7f) as u8 == x as u8) by (bit_vector);
        assert(head == seq![b]);
        assert(e[0] == b);
    } else {
        assert(s.drop_first()[i - 1] == s[i]);
        lemma_encode_has_ascii(s.drop_first(), i - 1, b);
        let j = choose|j: int|
            0 <= j < encode_utf8(s.drop_first()).len() && encode_utf8(s.drop_first())[j] == b;
        assert(e[head.len() + j] == b);
    }
}

/// Sanitizing the bytes of a sanitized path gives the same path back.
pub proof fn law_sanitize_idempotent(raw: Seq<u8>)
    requires
        sanitize_spec(raw) is Ok,
    ensures
        sanitize_spec(encode_utf8(path_of(sanitize_spec(raw)->Ok_0))) == sanitize_spec(raw),
{
    let c = sanitize_spec(raw)->Ok_0;
    lemma_split_pieces_free(raw, 47u8);
    lemma_sanitize_pieces_valid(split_on(raw, 47u8));
    lemma_sanitize_pieces_nul_free(split_on(raw, 47u8));
    let e = encode_comps(c);
    let pieces = seq![Seq::<u8>::empty()] + e;
    lemma_encode_concat(seq!['/'], join_on(c, '/'));
    lemma_encode_slash_char();
    lemma_encode_join(c);
    assert forall|k: int| 0 <= k < pieces.len() implies free_of(#[trigger] pieces[k], 47u8) by {
        if k > 0 {
            assert(pieces[k] == encode_utf8(c[k - 1]));
            assert(valid_name(c[k - 1]));
            lemma_encode_free(c[k - 1], '/', 47u8);
        }
    }
    if c.len() == 0 {
        assert(encode_utf8(path_of(c)) =~= seq![47u8]) by {
            assert(join_on(c, '/') =~= Seq::<char>::empty());
            assert(encode_utf8(Seq::<char>::empty()) =~= Seq::<u8>::empty());
        }
        let two = seq![Seq::<u8>::empty(), Seq::<u8>::empty()];
        assert(join_on(two, 47u8) =~= seq![47u8]) by {
            assert(two.drop_last() =~= seq![Seq::<u8>::empty()]);
            assert(join_on(two.drop_last(), 47u8) =~= Seq::<u8>::empty());
        }
        lemma_split_join(two, 47u8);
        assert(two.drop_last().drop_last() =~= Seq::<Seq<u8>>::empty());
        assert(sanitize_pieces(two.drop_last().drop_last()) == Ok::<Seq<Seq<char>>, TarPathFault>(
            seq![],
        ));
        assert(sanitize_pieces(two.drop_last()) == Ok::<Seq<Seq<char>>, TarPathFault>(seq![]));
        assert(two.last() =~= Seq::<u8>::empty());
        assert(c =~= Seq::<Seq<char>>::empty());
        assert(sanitize_pieces(two) == Ok::<Seq<Seq<char>>, TarPathFault>(c));
    } else {
        lemma_join_cons(Seq::<u8>::empty(), e, 47u8);
        assert(encode_utf8(path_of(c)) =~= join_on(pieces, 47u8));
        lemma_split_join(pieces, 47u8);
        lemma_sanitize_encoded(c);
    }
}

} // verus!
