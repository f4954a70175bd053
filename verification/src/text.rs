//! Text helpers over `str`: whitespace trimming as `str::trim` does it,
//! splitting on a separator character, and comparison.
use vstd::prelude::*;

use crate::path::{chars_of, lemma_split_on_snoc, split_on};

verus! {

/// `char::is_whitespace`: the Unicode `White_Space` property.
pub open spec fn is_ws(c: char) -> bool {
    ||| '\u{9}' <= c <= '\u{d}'
    ||| c == ' '
    ||| c == '\u{85}'
    ||| c == '\u{a0}'
    ||| c == '\u{1680}'
    ||| '\u{2000}' <= c <= '\u{200a}'
    ||| c == '\u{2028}'
    ||| c == '\u{2029}'
    ||| c == '\u{202f}'
    ||| c == '\u{205f}'
    ||| c == '\u{3000}'
}

/// Number of leading whitespace characters of `s`.
pub open spec fn leading_ws(s: Seq<char>) -> nat
    decreases s.len(),
{
    if s.len() > 0 && is_ws(s[0]) {
        1 + leading_ws(s.drop_first())
    } else {
        0
    }
}

/// Number of trailing whitespace characters of `s`.
pub open spec fn trailing_ws(s: Seq<char>) -> nat
    decreases s.len(),
{
    if s.len() > 0 && is_ws(s.last()) {
        1 + trailing_ws(s.drop_last())
    } else {
        0
    }
}

/// `str::trim`: `s` without leading and trailing whitespace.
pub open spec fn trim_ws(s: Seq<char>) -> Seq<char> {
    let t = s.skip(leading_ws(s) as int);
    t.take(t.len() - trailing_ws(t))
}

proof fn lemma_leading_ws_bound(s: Seq<char>)
    ensures
        leading_ws(s) <= s.len(),
        leading_ws(s) < s.len() ==> !is_ws(s[leading_ws(s) as int]),
        forall|j: int| 0 <= j < leading_ws(s) ==> is_ws(#[trigger] s[j]),
    decreases s.len(),
{
    if s.len() > 0 && is_ws(s[0]) {
        lemma_leading_ws_bound(s.drop_first());
        assert forall|j: int| 0 <= j < leading_ws(s) implies is_ws(#[trigger] s[j]) by {
            if j > 0 {
                assert(s[j] == s.drop_first()[j - 1]);
            }
        }
    }
}

proof fn lemma_trailing_ws_bound(s: Seq<char>)
    ensures
        trailing_ws(s) <= s.len(),
        trailing_ws(s) < s.len() ==> !is_ws(s[s.len() - trailing_ws(s) - 1]),
        forall|j: int| s.len() - trailing_ws(s) <= j < s.len() ==> is_ws(#[trigger] s[j]),
    decreases s.len(),
{
    if s.len() > 0 && is_ws(s.last()) {
        lemma_trailing_ws_bound(s.drop_last());
        assert forall|j: int| s.len() - trailing_ws(s) <= j < s.len() implies is_ws(#[trigger] s[j]) by {
            if j < s.len() - 1 {
                assert(s[j] == s.drop_last()[j]);
            }
        }
    }
}

/// Whether `c` is whitespace.
pub fn is_ws_exec(c: char) -> (b: bool)
    ensures
        b == is_ws(c),
{
    ('\u{9}' <= c && c <= '\u{d}') || c == ' ' || c == '\u{85}' || c == '\u{a0}' || c == '\u{1680}'
        || ('\u{2000}' <= c && c <= '\u{200a}') || c == '\u{2028}' || c == '\u{2029}' || c
        == '\u{202f}' || c == '\u{205f}' || c == '\u{3000}'
}

/// `s` without leading and trailing whitespace.
pub fn trim(s: &str) -> (r: &str)
    ensures
        r@ == trim_ws(s@),
{
    let v = chars_of(s);
    let mut i: usize = 0;
    proof {
        lemma_leading_ws_bound(s@);
    }
    while i < v.len() && is_ws_exec(v[i])
        invariant
            v@ == s@,
            i <= leading_ws(s@),
            leading_ws(s@) <= s@.len(),
            leading_ws(s@) < s@.len() ==> !is_ws(s@[leading_ws(s@) as int]),
            forall|j: int| 0 <= j < leading_ws(s@) ==> is_ws(#[trigger] s@[j]),
        decreases v.len() - i,
    {
        i = i + 1;
    }
    assert(i == leading_ws(s@));
    let ghost t = s@.skip(i as int);
    proof {
        lemma_trailing_ws_bound(t);
    }
    let mut j: usize = v.len();
    while j > i && is_ws_exec(v[j - 1])
        invariant
            v@ == s@,
            t == s@.skip(i as int),
            i <= j <= v@.len(),
            s@.len() - j <= trailing_ws(t),
            trailing_ws(t) <= t.len(),
            trailing_ws(t) < t.len() ==> !is_ws(t[t.len() - trailing_ws(t) - 1]),
        decreases j,
    {
        assert(s@[j - 1] == t[j - 1 - i]);
        j = j - 1;
    }
    proof {
        if j > i {
            assert(s@[j - 1] == t[j - 1 - i]);
        }
        assert(s@.len() - j == trailing_ws(t));
    }
    let r = s.substring_char(i, j);
    assert(r@ =~= trim_ws(s@));
    r
}

/// Whether two strings hold the same characters.
pub fn str_eq(a: &str, b: &str) -> (r: bool)
    ensures
        r == (a@ == b@),
{
    let va = chars_of(a);
    let vb = chars_of(b);
    if va.len() != vb.len() {
        return false;
    }
    let mut i: usize = 0;
    while i < va.len()
        invariant
            va@ == a@,
            vb@ == b@,
            va@.len() == vb@.len(),
            i <= va@.len(),
            forall|j: int| 0 <= j < i ==> va@[j] == vb@[j],
        decreases va.len() - i,
    {
        if va[i] != vb[i] {
            return false;
        }
        i = i + 1;
    }
    assert(a@ =~= b@);
    true
}

/// The character ranges `[start, end)` of the pieces of `v` between
/// occurrences of `sep`.
pub fn split_chars(v: &Vec<char>, sep: char) -> (r: Vec<(usize, usize)>)
    ensures
        r@.len() == split_on(v@, sep).len(),
        forall|k: int|
            0 <= k < r@.len() ==> {
                &&& (#[trigger] r@[k]).0 <= r@[k].1 <= v@.len()
                &&& v@.subrange(r@[k].0 as int, r@[k].1 as int) == split_on(v@, sep)[k]
            },
{
    let mut r: Vec<(usize, usize)> = Vec::new();
    let mut start: usize = 0;
    let mut i: usize = 0;
    assert(v@.take(0) =~= Seq::<char>::empty());
    assert(split_on(Seq::<char>::empty(), sep) =~= seq![Seq::<char>::empty()]);
    while i < v.len()
        invariant
            start <= i <= v@.len(),
            split_on(v@.take(i as int), sep).len() == r@.len() + 1,
            split_on(v@.take(i as int), sep).last() == v@.subrange(start as int, i as int),
            forall|k: int|
                0 <= k < r@.len() ==> {
                    &&& (#[trigger] r@[k]).0 <= r@[k].1 <= i
                    &&& v@.subrange(r@[k].0 as int, r@[k].1 as int) == split_on(
                        v@.take(i as int),
                        sep,
                    )[k]
                },
        decreases v.len() - i,
    {
        let c = v[i];
        proof {
            assert(v@.take(i + 1) =~= v@.take(i as int).push(c));
            lemma_split_on_snoc(v@.take(i as int), c, sep);
        }
        if c == sep {
            r.push((start, i));
            start = i + 1;
            assert(v@.subrange(start as int, i + 1) =~= Seq::<char>::empty());
        } else {
            assert(v@.subrange(start as int, i + 1) =~= v@.subrange(start as int, i as int).push(c));
        }
        i = i + 1;
    }
    r.push((start, i));
    assert(v@.take(i as int) =~= v@);
    r
}

} // verus!
