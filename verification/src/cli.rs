//! Parsing of the command line's `--size` and `--platform` values.
use vstd::prelude::*;

use crate::convert::Platform;
use crate::path::{chars_of, split_on};
use crate::text::{split_chars, trim, trim_ws};

verus! {

/// Why a decimal number was refused, as `u64::from_str` tells the cases
/// apart.
#[derive(Clone, Copy, Debug, PartialEq, Eq)]
pub enum NumberFault {
    /// Nothing to parse.
    Empty,
    /// A character that is not a decimal digit (a lone sign among them).
    InvalidDigit,
    /// The value does not fit in a `u64`.
    Overflow,
}

/// The message `u64::from_str`'s error displays for each fault.
pub open spec fn number_fault_text(f: NumberFault) -> Seq<char> {
    match f {
        NumberFault::Empty => "cannot parse integer from empty string"@,
        NumberFault::InvalidDigit => "invalid digit found in string"@,
        NumberFault::Overflow => "number too large to fit in target type"@,
    }
}

pub open spec fn is_digit(c: char) -> bool {
    '0' <= c <= '9'
}

pub open spec fn digit_value(c: char) -> int {
    c as int - '0' as int
}

/// The value of a run of decimal digits read left to right, or the first
/// fault met: a non-digit, or a value past `u64::MAX`.
pub open spec fn digits_value(ds: Seq<char>) -> Result<nat, NumberFault>
    decreases ds.len(),
{
    if ds.len() == 0 {
        Ok(0)
    } else {
        match digits_value(ds.drop_last()) {
            Err(f) => Err(f),
            Ok(v) => if !is_digit(ds.last()) {
                Err(NumberFault::InvalidDigit)
            } else if v * 10 + digit_value(ds.last()) > u64::MAX {
                Err(NumberFault::Overflow)
            } else {
                Ok((v * 10 + digit_value(ds.last())) as nat)
            },
        }
    }
}

/// `u64::from_str` on `s`: decimal digits after an optional `+`.
pub open spec fn decimal_spec(s: Seq<char>) -> Result<nat, NumberFault> {
    if s.len() == 0 {
        Err(NumberFault::Empty)
    } else if s == seq!['+'] || s == seq!['-'] {
        Err(NumberFault::InvalidDigit)
    } else if s[0] == '+' {
        digits_value(s.drop_first())
    } else {
        digits_value(s)
    }
}

proof fn lemma_digits_value_bound(ds: Seq<char>)
    ensures
        digits_value(ds) matches Ok(v) ==> v <= u64::MAX,
    decreases ds.len(),
{
    if ds.len() > 0 {
        lemma_digits_value_bound(ds.drop_last());
    }
}

/// The value of `digits`, or the first fault.
fn parse_digits(digits: &str) -> (r: core::result::Result<u64, NumberFault>)
    ensures
        match digits_value(digits@) {
            Ok(v) => r == Ok::<u64, NumberFault>(v as u64),
            Err(f) => r == Err::<u64, NumberFault>(f),
        },
{
    let v = chars_of(digits);
    let mut acc: u64 = 0;
    let mut i: usize = 0;
    assert(digits@.take(0) =~= Seq::<char>::empty());
    while i < v.len()
        invariant
            v@ == digits@,
            i <= v@.len(),
            digits_value(digits@.take(i as int)) == Ok::<nat, NumberFault>(acc as nat),
        decreases v.len() - i,
    {
        let c = v[i];
        proof {
            assert(digits@.take(i + 1).drop_last() =~= digits@.take(i as int));
            assert(digits@.take(i + 1).last() == c);
        }
        if c < '0' || c > '9' {
            proof {
                lemma_digits_prefix_err(digits@, i + 1, NumberFault::InvalidDigit);
            }
            return Err(NumberFault::InvalidDigit);
        }
        let d: u64 = (c as u64) - ('0' as u64);
        if acc > 1844674407370955161 || (acc == 1844674407370955161 && d > 5) {
            proof {
                assert(acc * 10 + digit_value(c) > u64::MAX);
                lemma_digits_prefix_err(digits@, i + 1, NumberFault::Overflow);
            }
            return Err(NumberFault::Overflow);
        }
        acc = acc * 10 + d;
        i = i + 1;
    }
    assert(digits@.take(v.len() as int) =~= digits@);
    Ok(acc)
}

/// Once a prefix of the digits is refused, the whole run is refused alike.
proof fn lemma_digits_prefix_err(ds: Seq<char>, n: int, f: NumberFault)
    requires
        0 <= n <= ds.len(),
        digits_value(ds.take(n)) == Err::<nat, NumberFault>(f),
    ensures
        digits_value(ds) == Err::<nat, NumberFault>(f),
    decreases ds.len() - n,
{
    if n < ds.len() {
        assert(ds.take(n + 1).drop_last() =~= ds.take(n));
        lemma_digits_prefix_err(ds, n + 1, f);
    } else {
        assert(ds.take(n) =~= ds);
    }
}

/// Parse a decimal `u64` as `u64::from_str` does.
pub fn parse_decimal(s: &str) -> (r: core::result::Result<u64, NumberFault>)
    ensures
        match decimal_spec(s@) {
            Ok(v) => r == Ok::<u64, NumberFault>(v as u64),
            Err(f) => r == Err::<u64, NumberFault>(f),
        },
{
    let n = s.unicode_len();
    if n == 0 {
        return Err(NumberFault::Empty);
    }
    let c0 = s.get_char(0);
    if n == 1 && (c0 == '+' || c0 == '-') {
        assert(s@ =~= seq![c0]);
        return Err(NumberFault::InvalidDigit);
    }
    assert(s@ != seq!['+'] && s@ != seq!['-']) by {
        if s@ == seq!['+'] || s@ == seq!['-'] {
            assert(s@.len() == 1);
        }
    }
    if c0 == '+' {
        let rest = s.substring_char(1, n);
        assert(rest@ =~= s@.drop_first());
        parse_digits(rest)
    } else {
        parse_digits(s)
    }
}

/// The text `u64::from_str`'s error shows for a fault.
pub fn number_fault_message(f: NumberFault) -> (m: String)
    ensures
        m@ == number_fault_text(f),
{
    match f {
        NumberFault::Empty => String::from_str("cannot parse integer from empty string"),
        NumberFault::InvalidDigit => String::from_str("invalid digit found in string"),
        NumberFault::Overflow => String::from_str("number too large to fit in target type"),
    }
}

/// The unit suffix of a size, and the number in front of it: `G`/`g` for
/// GiB, `M`/`m` for MiB, `K`/`k` for KiB, none for bytes.
pub open spec fn size_parts(t: Seq<char>) -> (Seq<char>, nat) {
    if t.len() > 0 && (t.last() == 'G' || t.last() == 'g') {
        (t.drop_last(), 1024 * 1024 * 1024)
    } else if t.len() > 0 && (t.last() == 'M' || t.last() == 'm') {
        (t.drop_last(), 1024 * 1024)
    } else if t.len() > 0 && (t.last() == 'K' || t.last() == 'k') {
        (t.drop_last(), 1024)
    } else {
        (t, 1)
    }
}

/// The size a `--size` value names, before it is checked to fit in a
/// `u64`: the number (as `u64::from_str` reads it) times its unit.
pub open spec fn size_spec(s: Seq<char>) -> Result<nat, NumberFault> {
    let (num, unit) = size_parts(trim_ws(s));
    match decimal_spec(num) {
        Ok(v) => Ok(v * unit),
        Err(f) => Err(f),
    }
}

/// The size fits in a `u64` (or the value is refused anyway).
pub open spec fn size_fits(s: Seq<char>) -> bool {
    size_spec(s) matches Ok(v) ==> v <= u64::MAX
}

/// Split a trimmed size into its number and unit.
fn split_size(t: &str) -> (r: (&str, u64))
    ensures
        r.0@ == size_parts(t@).0,
        r.1 == size_parts(t@).1,
{
    let n = t.unicode_len();
    if n > 0 {
        let c = t.get_char(n - 1);
        let num = t.substring_char(0, n - 1);
        assert(num@ =~= t@.drop_last());
        if c == 'G' || c == 'g' {
            return (num, 1024 * 1024 * 1024);
        } else if c == 'M' || c == 'm' {
            return (num, 1024 * 1024);
        } else if c == 'K' || c == 'k' {
            return (num, 1024);
        }
    }
    (t, 1)
}

/// Whether multiplying the parsed `--size` value by its unit would pass
/// `u64::MAX` (the command line treats that as a fatal overflow).
pub fn size_overflows(s: &str) -> (b: bool)
    ensures
        b == !size_fits(s@),
{
    let t = trim(s);
    let (num, unit) = split_size(t);
    match parse_decimal(num) {
        Ok(v) => {
            proof {
                lemma_digits_value_bound(num@);
                lemma_digits_value_bound(num@.drop_first());
                assert(unit > 0);
                assert((v > u64::MAX / unit) == (v * unit > u64::MAX)) by (nonlinear_arith)
                    requires
                        unit > 0,
                ;
            }
            v > u64::MAX / unit
        },
        Err(_) => false,
    }
}

/// Parse a `--size` value such as `512M`, `1G`, `128K` or `1024` into
/// bytes. The value is trimmed first; its number is read as
/// `u64::from_str` does, and a refused number is reported with that
/// parser's message.
pub fn parse_size(s: &str) -> (r: core::result::Result<u64, String>)
    requires
        size_fits(s@),
    ensures
        match size_spec(s@) {
            Ok(v) => r == Ok::<u64, String>(v as u64),
            Err(f) => (r matches Err(m) && m@ == number_fault_text(f)),
        },
{
    let t = trim(s);
    let (num, unit) = split_size(t);
    match parse_decimal(num) {
        Ok(v) => {
            assert(v * unit <= u64::MAX);
            Ok(v * unit)
        },
        Err(f) => Err(number_fault_message(f)),
    }
}

/// A value whose first and last characters are no whitespace is its own
/// trimming.
proof fn lemma_trim_untouched(t: Seq<char>)
    requires
        t.len() > 0,
        !crate::text::is_ws(t[0]),
        !crate::text::is_ws(t.last()),
    ensures
        trim_ws(t) == t,
{
    assert(crate::text::leading_ws(t) == 0);
    assert(t.skip(0) =~= t);
    assert(crate::text::trailing_ws(t) == 0);
    assert(t.take(t.len() as int) =~= t);
}

/// The size a number followed by a unit suffix names: its decimal value
/// times 1024^3 for `G` or `g`, 1024^2 for `M` or `m`, 1024 for `K` or
/// `k`; upper- and lowercase suffixes name the same size.
pub proof fn law_size_suffix_units(num: Seq<char>)
    requires
        num.len() > 0,
        !crate::text::is_ws(num[0]),
    ensures
        size_spec(num.push('G')) == size_spec(num.push('g')),
        size_spec(num.push('M')) == size_spec(num.push('m')),
        size_spec(num.push('K')) == size_spec(num.push('k')),
        size_spec(num.push('G')) == match decimal_spec(num) {
            Ok(v) => Ok::<nat, NumberFault>(v * 1073741824),
            Err(f) => Err(f),
        },
        size_spec(num.push('M')) == match decimal_spec(num) {
            Ok(v) => Ok::<nat, NumberFault>(v * 1048576),
            Err(f) => Err(f),
        },
        size_spec(num.push('K')) == match decimal_spec(num) {
            Ok(v) => Ok::<nat, NumberFault>(v * 1024),
            Err(f) => Err(f),
        },
{
    let cs = seq!['G', 'g', 'M', 'm', 'K', 'k'];
    assert forall|i: int| 0 <= i < 6 implies trim_ws(#[trigger] num.push(cs[i])) == num.push(cs[i]) && num.push(
        cs[i],
    ).drop_last() == num by {
        lemma_trim_untouched(num.push(cs[i]));
        assert(num.push(cs[i]).drop_last() =~= num);
    }
    assert(cs[0] == 'G' && cs[1] == 'g' && cs[2] == 'M' && cs[3] == 'm' && cs[4] == 'K' && cs[5] == 'k');
}

/// An `os/arch` value whose parts hold no `/` splits back into those parts,
/// so `parse_platform` gives the platform back.
pub proof fn law_platform_round_trip(os: Seq<char>, arch: Seq<char>)
    requires
        crate::path::free_of(os, '/'),
        crate::path::free_of(arch, '/'),
    ensures
        split_on(os + seq!['/'] + arch, '/') == seq![os, arch],
{
    let pieces = seq![os, arch];
    assert(crate::path::join_on(pieces, '/') =~= os + seq!['/'] + arch) by {
        assert(pieces.drop_last() =~= seq![os]);
        assert(crate::path::join_on(seq![os], '/') == os);
        assert(pieces.last() == arch);
    }
    crate::path::lemma_split_join(pieces, '/');
}

/// Parse a `--platform` value of the shape `os/arch`.
pub fn parse_platform(s: &str) -> (r: core::result::Result<Platform, String>)
    ensures
        split_on(s@, '/').len() == 2 ==> (r matches Ok(p) && p.os_view() == split_on(s@, '/')[0]
            && p.arch_view() == split_on(s@, '/')[1]),
        split_on(s@, '/').len() != 2 ==> (r matches Err(m) && m@ == "invalid platform format: "@
            + s@ + ", expected os/arch"@),
{
    let v = chars_of(s);
    let ranges = split_chars(&v, '/');
    if ranges.len() == 2 {
        let (a0, b0) = ranges[0];
        let (a1, b1) = ranges[1];
        let os = s.substring_char(a0, b0);
        let arch = s.substring_char(a1, b1);
        Ok(Platform::new(os, arch))
    } else {
        let mut m = String::from_str("invalid platform format: ");
        m.append(s);
        m.append(", expected os/arch");
        Err(m)
    }
}

} // verus!
