use vstd::prelude::*;
use vstd::string::StrSliceExecFns;
use vstd::string::StringExecFns;

verus! {

// ---------------------------------------------------------------------------
// Small gaps in the standard-library specifications.
// ---------------------------------------------------------------------------

/// Relies on String::push: appends exactly the given character.
pub assume_specification[ std::string::String::push ](s: &mut String, c: char)
    ensures
        final(s)@ == old(s)@.push(c),
;

/// Relies on char::from_u32: `Some` exactly for Unicode scalar values
/// (everything but surrogate code points and values past 0x10FFFF), and the
/// returned character carries the requested code point.
pub assume_specification[ char::from_u32 ](v: u32) -> (r: Option<char>)
    ensures
        ((0xD800 <= v && v < 0xE000) || 0x10FFFF < v) ==> r is None,
        !((0xD800 <= v && v < 0xE000) || 0x10FFFF < v) ==> r == Some(v as char),
;

// ---------------------------------------------------------------------------
// ASCII-case-insensitive comparison.
// ---------------------------------------------------------------------------

/// Code point of a character with ASCII upper case folded to lower case.
pub open spec fn lower_code(c: char) -> int {
    if 'A' <= c && c <= 'Z' {
        c as int + 32
    } else {
        c as int
    }
}

/// Character equality up to ASCII case.
pub open spec fn ci_eq_char(a: char, b: char) -> bool {
    lower_code(a) == lower_code(b)
}

/// Text equality up to ASCII case.
pub open spec fn ci_eq(a: Seq<char>, b: Seq<char>) -> bool {
    a.len() == b.len() && forall|i: int| 0 <= i < a.len() ==> ci_eq_char(a[i], b[i])
}

/// ASCII-case-insensitive equality is used for key paths, key names and value
/// names throughout, mirroring how the underlying store matches names.
pub fn char_ci_eq(a: char, b: char) -> (r: bool)
    ensures
        r == ci_eq_char(a, b),
{
    let x: u32 = a as u32;
    let y: u32 = b as u32;
    let xl: u32 = if 65 <= x && x <= 90 { x + 32 } else { x };
    let yl: u32 = if 65 <= y && y <= 90 { y + 32 } else { y };
    xl == yl
}

pub fn str_ci_eq(a: &str, b: &str) -> (r: bool)
    ensures
        r == ci_eq(a@, b@),
{
    let alen: usize = a.unicode_len();
    let blen: usize = b.unicode_len();
    if alen != blen {
        return false;
    }
    let mut i: usize = 0;
    while i < alen
        invariant
            alen == a@.len(),
            blen == b@.len(),
            alen == blen,
            i <= alen,
            forall|j: int| 0 <= j < i ==> ci_eq_char(a@[j], b@[j]),
        decreases alen - i,
    {
        if !char_ci_eq(a.get_char(i), b.get_char(i)) {
            return false;
        }
        i += 1;
    }
    true
}

// ---------------------------------------------------------------------------
// Prefix and suffix tests.
// ---------------------------------------------------------------------------

pub fn str_starts_with(s: &str, prefix: &str) -> (r: bool)
    ensures
        r == prefix@.is_prefix_of(s@),
{
    let slen: usize = s.unicode_len();
    let plen: usize = prefix.unicode_len();
    if plen > slen {
        assert(!prefix@.is_prefix_of(s@));
        return false;
    }
    let mut i: usize = 0;
    while i < plen
        invariant
            slen == s@.len(),
            plen == prefix@.len(),
            plen <= slen,
            i <= plen,
            forall|j: int| 0 <= j < i ==> prefix@[j] == s@[j],
        decreases plen - i,
    {
        if s.get_char(i) != prefix.get_char(i) {
            assert(prefix@[i as int] != s@.subrange(0, plen as int)[i as int]);
            return false;
        }
        i += 1;
    }
    assert(prefix@ =~= s@.subrange(0, plen as int));
    true
}

pub fn str_ends_with(s: &str, suffix: &str) -> (r: bool)
    ensures
        r == suffix@.is_suffix_of(s@),
{
    let slen: usize = s.unicode_len();
    let xlen: usize = suffix.unicode_len();
    if xlen > slen {
        assert(!suffix@.is_suffix_of(s@));
        return false;
    }
    let off: usize = slen - xlen;
    let mut i: usize = 0;
    while i < xlen
        invariant
            slen == s@.len(),
            xlen == suffix@.len(),
            xlen <= slen,
            off == slen - xlen,
            i <= xlen,
            forall|j: int| 0 <= j < i ==> suffix@[j] == s@[off + j],
        decreases xlen - i,
    {
        if s.get_char(off + i) != suffix.get_char(i) {
            assert(suffix@[i as int] != s@.subrange(off as int, slen as int)[i as int]);
            return false;
        }
        i += 1;
    }
    assert(suffix@ =~= s@.subrange(off as int, slen as int));
    true
}

/// Index of the first occurrence of a character, if any.
pub fn str_find_char(s: &str, c: char) -> (r: Option<usize>)
    ensures
        match r {
            Some(i) => i < s@.len() && s@[i as int] == c && forall|j: int| 0 <= j < i ==> s@[j] != c,
            None => forall|j: int| 0 <= j < s@.len() ==> s@[j] != c,
        },
{
    let n: usize = s.unicode_len();
    let mut i: usize = 0;
    while i < n
        invariant
            n == s@.len(),
            i <= n,
            forall|j: int| 0 <= j < i ==> s@[j] != c,
        decreases n - i,
    {
        if s.get_char(i) == c {
            return Some(i);
        }
        i += 1;
    }
    None
}

// ---------------------------------------------------------------------------
// In-place prefix/suffix removal on String.
// ---------------------------------------------------------------------------

pub trait StringExt {
    fn remove_prefix(&mut self, prefix: &str) -> bool;

    fn remove_suffix(&mut self, suffix: &str) -> bool;
}

impl StringExt for String {
    /// Strips `prefix` once from the front when present; reports whether it did.
    fn remove_prefix(&mut self, prefix: &str) -> (r: bool)
        ensures
            r == prefix@.is_prefix_of(old(self)@),
            r ==> final(self)@ == old(self)@.skip(prefix@.len() as int),
            !r ==> final(self)@ == old(self)@,
    {
        if str_starts_with(self.as_str(), prefix) {
            let slen: usize = self.as_str().unicode_len();
            let plen: usize = prefix.unicode_len();
            let rest = self.as_str().substring_char(plen, slen).to_owned();
            assert(rest@ =~= self@.skip(plen as int));
            *self = rest;
            true
        } else {
            false
        }
    }

    /// Strips `suffix` once from the back when present; reports whether it did.
    fn remove_suffix(&mut self, suffix: &str) -> (r: bool)
        ensures
            r == suffix@.is_suffix_of(old(self)@),
            r ==> final(self)@ == old(self)@.take(old(self)@.len() - suffix@.len()),
            !r ==> final(self)@ == old(self)@,
    {
        if str_ends_with(self.as_str(), suffix) {
            let slen: usize = self.as_str().unicode_len();
            let xlen: usize = suffix.unicode_len();
            let rest = self.as_str().substring_char(0, slen - xlen).to_owned();
            assert(rest@ =~= self@.take(self@.len() - suffix@.len()));
            *self = rest;
            true
        } else {
            false
        }
    }
}

// ---------------------------------------------------------------------------
// Hexadecimal parsing and formatting.
// ---------------------------------------------------------------------------

/// Value of one hexadecimal digit; 16 marks a non-digit.
pub open spec fn hex_val(c: char) -> int {
    if '0' <= c && c <= '9' {
        c as int - '0' as int
    } else if 'a' <= c && c <= 'f' {
        c as int - 'a' as int + 10
    } else if 'A' <= c && c <= 'F' {
        c as int - 'A' as int + 10
    } else {
        16
    }
}

pub open spec fn all_hex(s: Seq<char>) -> bool {
    forall|i: int| 0 <= i < s.len() ==> hex_val(s[i]) < 16
}

/// Numeric value of a big-endian string of hexadecimal digits.
pub open spec fn hex_num(s: Seq<char>) -> int
    decreases s.len(),
{
    if s.len() == 0 {
        0
    } else {
        hex_num(s.take(s.len() - 1)) * 16 + hex_val(s[s.len() - 1])
    }
}

/// The digits that carry the numeric value: an optional leading plus sign is
/// accepted, as the standard integer parser does.
pub open spec fn hex_digits_of(s: Seq<char>) -> Seq<char> {
    if s.len() > 0 && s[0] == '+' {
        s.skip(1)
    } else {
        s
    }
}

/// What parsing `s` as unsigned hexadecimal yields, bounded by `max`:
/// `Some` exactly for a non-empty digit run whose value fits.
pub open spec fn spec_parse_hex(s: Seq<char>, max: int) -> Option<int> {
    let d = hex_digits_of(s);
    if d.len() > 0 && all_hex(d) && hex_num(d) <= max {
        Some(hex_num(d))
    } else {
        None
    }
}

fn hex_val_exec(c: char) -> (r: u32)
    ensures
        r == hex_val(c),
        r <= 16,
{
    let v: u32 = c as u32;
    if 48 <= v && v <= 57 {
        v - 48
    } else if 97 <= v && v <= 102 {
        v - 97 + 10
    } else if 65 <= v && v <= 70 {
        v - 65 + 10
    } else {
        16
    }
}

/// Parses unsigned hexadecimal text with an upper bound, as
/// `from_str_radix` with radix 16 does for a type whose maximum is `max`.
pub fn parse_hex_bounded(s: &str, max: u32) -> (r: Option<u32>)
    ensures
        match r {
            Some(v) => spec_parse_hex(s@, max as int) == Some(v as int),
            None => spec_parse_hex(s@, max as int) is None,
        },
{
    let slen: usize = s.unicode_len();
    let mut start: usize = 0;
    if slen > 0 && s.get_char(0) == '+' {
        start = 1;
    }
    proof {
        if start == 1 {
            assert(hex_digits_of(s@) =~= s@.skip(1));
        } else {
            assert(hex_digits_of(s@) =~= s@);
        }
    }
    if slen == start {
        return None;
    }
    let ghost d = hex_digits_of(s@);
    let mut acc: u64 = 0;
    let mut over: bool = false;
    let mut i: usize = start;
    while i < slen
        invariant
            slen == s@.len(),
            start <= i <= slen,
            start <= 1,
            d == hex_digits_of(s@),
            d.len() == slen - start,
            forall|j: int| 0 <= j < d.len() ==> d[j] == s@[start + j],
            forall|j: int| 0 <= j < i - start ==> hex_val(d[j]) < 16,
            max <= 0xffff_ffff,
            !over ==> acc == hex_num(d.take(i - start)) && acc <= max,
            over ==> hex_num(d.take(i - start)) > max,
            hex_num(d.take(i - start)) >= 0,
        decreases slen - i,
    {
        let v = hex_val_exec(s.get_char(i));
        if v >= 16 {
            assert(hex_val(d[i - start]) >= 16);
            return None;
        }
        proof {
            assert(d.take(i - start + 1).take(i - start) =~= d.take(i - start));
            assert(d.take(i - start + 1)[i - start] == d[i - start]);
            lemma_hex_num_nonneg(d.take(i - start + 1));
        }
        if over {
            proof {
                vstd::arithmetic::mul::lemma_mul_inequality(
                    max + 1,
                    hex_num(d.take(i - start)),
                    16,
                );
            }
            assert(hex_num(d.take(i - start + 1)) > max);
        } else {
            let next: u64 = acc * 16 + (v as u64);
            if next > (max as u64) {
                over = true;
            } else {
                acc = next;
            }
        }
        i += 1;
    }
    proof {
        assert(d.take(i - start) =~= d);
    }
    if over {
        None
    } else {
        Some(acc as u32)
    }
}

pub proof fn lemma_hex_num_nonneg(s: Seq<char>)
    requires
        all_hex(s),
    ensures
        hex_num(s) >= 0,
    decreases s.len(),
{
    if s.len() > 0 {
        assert(all_hex(s.take(s.len() - 1)));
        lemma_hex_num_nonneg(s.take(s.len() - 1));
    }
}

/// The hexadecimal character for a digit value below 16, lower case.
pub open spec fn hex_char_of(d: int) -> char {
    if d < 10 {
        ('0' as int + d) as char
    } else {
        ('a' as int + d - 10) as char
    }
}

/// `n` hexadecimal digits of `v`, most significant first, lower case:
/// the shape of a fixed-width formatted number.
pub open spec fn hex_digits(v: int, n: nat) -> Seq<char>
    decreases n,
{
    if n == 0 {
        Seq::empty()
    } else {
        hex_digits(v / 16, (n - 1) as nat).push(hex_char_of(v % 16))
    }
}

fn hex_char_exec(d: u32) -> (c: char)
    requires
        d < 16,
    ensures
        c == hex_char_of(d as int),
{
    if d < 10 {
        char::from_u32(48 + d).unwrap()
    } else {
        char::from_u32(97 + d - 10).unwrap()
    }
}

/// Formats `v` as exactly `n` lower-case hexadecimal digits, zero padded,
/// most significant digit first.
pub fn format_hex(v: u32, n: usize) -> (r: String)
    ensures
        r@ == hex_digits(v as int, n as nat),
    decreases n,
{
    if n == 0 {
        String::new()
    } else {
        let mut s = format_hex(v / 16, n - 1);
        s.push(hex_char_exec(v % 16));
        s
    }
}

} // verus!
