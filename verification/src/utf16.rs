use vstd::prelude::*;
use vstd::slice::slice_index_get;
use vstd::string::StrSliceExecFns;

verus! {

// ---------------------------------------------------------------------------
// Raw bytes as 16-bit code units, two bytes per unit, low byte first.
// ---------------------------------------------------------------------------

/// The unit read from a low and a high byte.
pub open spec fn unit_of_bytes(lo: u8, hi: u8) -> u16 {
    (lo as int + 256 * (hi as int)) as u16
}

/// The units read from a byte buffer; a trailing odd byte carries no unit.
pub open spec fn units_of_bytes(b: Seq<u8>) -> Seq<u16> {
    Seq::new((b.len() / 2) as nat, |i: int| unit_of_bytes(b[2 * i], b[2 * i + 1]))
}

/// The byte buffer of a unit sequence, low byte first.
pub open spec fn bytes_of_units(u: Seq<u16>) -> Seq<u8> {
    Seq::new(
        (u.len() * 2) as nat,
        |i: int|
            if i % 2 == 0 {
                (u[i / 2] as int % 256) as u8
            } else {
                (u[i / 2] as int / 256) as u8
            },
    )
}

/// Reading bytes back as units recovers the unit sequence.
pub proof fn lemma_units_of_bytes_of_units(u: Seq<u16>)
    ensures
        units_of_bytes(bytes_of_units(u)) =~= u,
{
    let b = bytes_of_units(u);
    assert forall|i: int| 0 <= i < u.len() implies units_of_bytes(b)[i] == u[i] by {
        assert(b[2 * i] == (u[i] as int % 256) as u8);
        assert(b[2 * i + 1] == (u[i] as int / 256) as u8);
    }
}

pub fn bytes_to_units(b: &Vec<u8>) -> (r: Vec<u16>)
    ensures
        r@ == units_of_bytes(b@),
{
    let n: usize = b.len() / 2;
    let mut out: Vec<u16> = Vec::new();
    let mut i: usize = 0;
    while i < n
        invariant
            n == b@.len() / 2,
            n <= usize::MAX / 2,
            i <= n,
            out@ =~= units_of_bytes(b@).take(i as int),
        decreases n - i,
    {
        let lo: u16 = b[2 * i] as u16;
        let hi: u16 = b[2 * i + 1] as u16;
        out.push(lo + 256 * hi);
        assert(out@ =~= units_of_bytes(b@).take(i + 1));
        i += 1;
    }
    assert(units_of_bytes(b@).take(n as int) =~= units_of_bytes(b@));
    out
}

pub fn units_to_bytes(u: &Vec<u16>) -> (r: Vec<u8>)
    ensures
        r@ == bytes_of_units(u@),
{
    let n: usize = u.len();
    let mut out: Vec<u8> = Vec::new();
    let mut i: usize = 0;
    while i < n
        invariant
            n == u@.len(),
            i <= n,
            out@ =~= bytes_of_units(u@).take(2 * i),
        decreases n - i,
    {
        let x: u16 = u[i];
        out.push((x % 256) as u8);
        out.push((x / 256) as u8);
        assert(out@ =~= bytes_of_units(u@).take(2 * (i + 1)));
        i += 1;
    }
    assert(bytes_of_units(u@).take(2 * n) =~= bytes_of_units(u@));
    out
}

/// Reinterpretation of a byte buffer as its 16-bit code units.
pub trait AsU16Slice {
    fn as_u16_slice(&self) -> Vec<u16>;
}

impl AsU16Slice for Vec<u8> {
    /// The units of the buffer, two bytes each, low byte first; a trailing
    /// odd byte is dropped.
    fn as_u16_slice(&self) -> (r: Vec<u16>)
        ensures
            r@ == units_of_bytes(self@),
    {
        bytes_to_units(self)
    }
}

// ---------------------------------------------------------------------------
// A cursor that yields the 16-bit units of a byte buffer one at a time.
// ---------------------------------------------------------------------------

pub struct U16Iter {
    bytes: Vec<u8>,
    pos: usize,
}

impl U16Iter {
    /// The cursor never outruns its buffer and stays on a unit boundary.
    pub closed spec fn wf(&self) -> bool {
        self.pos <= self.bytes@.len() && self.pos % 2 == 0
    }

    /// The units not yet yielded.
    pub closed spec fn remaining(&self) -> Seq<u16> {
        units_of_bytes(self.bytes@.skip(self.pos as int))
    }

    pub fn new(bytes: Vec<u8>) -> (r: U16Iter)
        ensures
            r.wf(),
            r.remaining() == units_of_bytes(bytes@),
    {
        U16Iter::_new(bytes)
    }

    pub fn _new(bytes: Vec<u8>) -> (r: U16Iter)
        ensures
            r.wf(),
            r.remaining() == units_of_bytes(bytes@),
    {
        let r = U16Iter { bytes, pos: 0 };
        proof {
            assert(r.bytes@.skip(0) =~= r.bytes@);
        }
        r
    }

    /// The next unit, or `None` once fewer than two bytes are left.
    pub fn next(&mut self) -> (r: Option<u16>)
        requires
            old(self).wf(),
        ensures
            final(self).wf(),
            match r {
                Some(u) => {
                    &&& old(self).remaining().len() > 0
                    &&& u == old(self).remaining()[0]
                    &&& final(self).remaining() == old(self).remaining().skip(1)
                },
                None => {
                    &&& old(self).remaining().len() == 0
                    &&& *final(self) == *old(self)
                },
            },
    {
        let len: usize = self.bytes.len();
        if len >= 2 && self.pos <= len - 2 {
            let lo: u16 = self.bytes[self.pos] as u16;
            let hi: u16 = self.bytes[self.pos + 1] as u16;
            proof {
                let tail = self.bytes@.skip(self.pos as int);
                assert(tail[0] == self.bytes@[self.pos as int]);
                assert(tail[1] == self.bytes@[self.pos as int + 1]);
                assert(self.remaining()[0] == unit_of_bytes(tail[0], tail[1]));
                assert(self.bytes@.skip(self.pos + 2) =~= tail.skip(2));
                assert(units_of_bytes(tail.skip(2)) =~= units_of_bytes(tail).skip(1));
            }
            self.pos = self.pos + 2;
            Some(lo + 256 * hi)
        } else {
            None
        }
    }
}

// ---------------------------------------------------------------------------
// UTF-16: characters to code units and back.
// ---------------------------------------------------------------------------

pub open spec fn is_high_surrogate(u: u16) -> bool {
    0xD800 <= u <= 0xDBFF
}

pub open spec fn is_low_surrogate(u: u16) -> bool {
    0xDC00 <= u <= 0xDFFF
}

pub open spec fn is_surrogate(u: u16) -> bool {
    0xD800 <= u <= 0xDFFF
}

/// The scalar value carried by a surrogate pair.
pub open spec fn combine_surrogates(hi: u16, lo: u16) -> u32 {
    (0x10000 + (hi - 0xD800) * 0x400 + (lo - 0xDC00)) as u32
}

/// The UTF-16 encoding of one character: one unit inside the basic plane,
/// a surrogate pair above it.
pub open spec fn encode_char(c: char) -> Seq<u16> {
    if (c as u32) < 0x10000 {
        seq![(c as u32) as u16]
    } else {
        seq![
            (0xD800 + ((c as u32) - 0x10000) / 0x400) as u16,
            (0xDC00 + ((c as u32) - 0x10000) % 0x400) as u16,
        ]
    }
}

/// The UTF-16 encoding of a text, character encodings in order.
pub open spec fn encode_utf16(s: Seq<char>) -> Seq<u16>
    decreases s.len(),
{
    if s.len() == 0 {
        Seq::empty()
    } else {
        encode_char(s[0]) + encode_utf16(s.skip(1))
    }
}

/// Strict UTF-16 decoding: `None` on any unpaired surrogate.
pub open spec fn decode_utf16_strict(u: Seq<u16>) -> Option<Seq<char>>
    decreases u.len(),
{
    if u.len() == 0 {
        Some(Seq::empty())
    } else if !is_surrogate(u[0]) {
        match decode_utf16_strict(u.skip(1)) {
            Some(t) => Some(seq![(u[0] as u32) as char] + t),
            None => None,
        }
    } else if is_high_surrogate(u[0]) && u.len() >= 2 && is_low_surrogate(u[1]) {
        match decode_utf16_strict(u.skip(2)) {
            Some(t) => Some(seq![combine_surrogates(u[0], u[1]) as char] + t),
            None => None,
        }
    } else {
        None
    }
}

/// Lossy UTF-16 decoding: each unpaired surrogate becomes the replacement
/// character and decoding continues with the next unit.
pub open spec fn decode_utf16_lossy(u: Seq<u16>) -> Seq<char>
    decreases u.len(),
{
    if u.len() == 0 {
        Seq::empty()
    } else if !is_surrogate(u[0]) {
        seq![(u[0] as u32) as char] + decode_utf16_lossy(u.skip(1))
    } else if is_high_surrogate(u[0]) && u.len() >= 2 && is_low_surrogate(u[1]) {
        seq![combine_surrogates(u[0], u[1]) as char] + decode_utf16_lossy(u.skip(2))
    } else {
        seq!['\u{FFFD}'] + decode_utf16_lossy(u.skip(1))
    }
}

/// Index of the first occurrence of the unit `t`, or the length when there
/// is none.
pub open spec fn first_unit_at(u: Seq<u16>, t: u16) -> int
    decreases u.len(),
{
    if u.len() == 0 {
        0
    } else if u[0] == t {
        0
    } else {
        1 + first_unit_at(u.skip(1), t)
    }
}

pub proof fn lemma_first_unit(u: Seq<u16>, t: u16)
    ensures
        0 <= first_unit_at(u, t) <= u.len(),
        forall|j: int| 0 <= j < first_unit_at(u, t) ==> u[j] != t,
        first_unit_at(u, t) < u.len() ==> u[first_unit_at(u, t)] == t,
    decreases u.len(),
{
    if u.len() > 0 && u[0] != t {
        lemma_first_unit(u.skip(1), t);
        assert(forall|j: int| 0 <= j < first_unit_at(u.skip(1), t) ==> u.skip(1)[j] != t);
        assert(forall|j: int| 1 <= j < first_unit_at(u, t) ==> u[j] == u.skip(1)[j - 1]);
    }
}

/// The characterization is exact: any cut below which the unit does not
/// occur, and which sits on the unit or at the end, is its first index.
pub proof fn lemma_first_unit_is(u: Seq<u16>, t: u16, k: int)
    requires
        0 <= k <= u.len(),
        forall|j: int| 0 <= j < k ==> u[j] != t,
        k < u.len() ==> u[k] == t,
    ensures
        first_unit_at(u, t) == k,
    decreases u.len(),
{
    if u.len() == 0 {
    } else if u[0] == t {
        assert(k == 0);
    } else {
        assert(k >= 1);
        assert(forall|j: int| 0 <= j < k - 1 ==> u.skip(1)[j] == u[j + 1]);
        assert(k - 1 < u.skip(1).len() ==> u.skip(1)[k - 1] == u[k]);
        lemma_first_unit_is(u.skip(1), t, k - 1);
    }
}

/// Where a NUL-terminated text ends inside a buffer.
pub open spec fn first_nul(u: Seq<u16>) -> int {
    first_unit_at(u, 0)
}

pub proof fn lemma_first_nul(u: Seq<u16>)
    ensures
        0 <= first_nul(u) <= u.len(),
        forall|j: int| 0 <= j < first_nul(u) ==> u[j] != 0,
        first_nul(u) < u.len() ==> u[first_nul(u)] == 0,
{
    lemma_first_unit(u, 0);
}

pub proof fn lemma_first_nul_is(u: Seq<u16>, k: int)
    requires
        0 <= k <= u.len(),
        forall|j: int| 0 <= j < k ==> u[j] != 0,
        k < u.len() ==> u[k] == 0,
    ensures
        first_nul(u) == k,
{
    lemma_first_unit_is(u, 0, k);
}

/// Encoding distributes over concatenation.
pub proof fn lemma_encode_concat(a: Seq<char>, b: Seq<char>)
    ensures
        encode_utf16(a + b) == encode_utf16(a) + encode_utf16(b),
    decreases a.len(),
{
    if a.len() == 0 {
        assert(a + b =~= b);
        assert(encode_utf16(a) + encode_utf16(b) =~= encode_utf16(b));
    } else {
        assert((a + b)[0] == a[0]);
        assert((a + b).skip(1) =~= a.skip(1) + b);
        assert((a + b).len() != 0);
        lemma_encode_concat(a.skip(1), b);
        assert(encode_char(a[0]) + (encode_utf16(a.skip(1)) + encode_utf16(b)) =~= (encode_char(
            a[0],
        ) + encode_utf16(a.skip(1))) + encode_utf16(b));
    }
}

/// Encodes text to its UTF-16 units.
pub fn str_to_utf16(s: &str) -> (r: Vec<u16>)
    ensures
        r@ == encode_utf16(s@),
{
    let len: usize = s.unicode_len();
    let mut out: Vec<u16> = Vec::new();
    let mut i: usize = 0;
    while i < len
        invariant
            len == s@.len(),
            i <= len,
            out@ == encode_utf16(s@.take(i as int)),
        decreases len - i,
    {
        let c: char = s.get_char(i);
        let v: u32 = c as u32;
        proof {
            assert(s@.take(i + 1) =~= s@.take(i as int) + seq![s@[i as int]]);
            lemma_encode_concat(s@.take(i as int), seq![s@[i as int]]);
            let one = seq![s@[i as int]];
            assert(one.len() == 1 && one[0] == c);
            assert(one.skip(1) =~= Seq::<char>::empty());
            assert(encode_utf16(one) == encode_char(c) + encode_utf16(Seq::<char>::empty()));
            assert(encode_char(c) + Seq::<u16>::empty() =~= encode_char(c));
            assert(encode_utf16(one) =~= encode_char(c));
        }
        if v < 0x10000 {
            out.push(v as u16);
            assert(out@ =~= encode_utf16(s@.take(i as int)) + encode_char(c));
        } else {
            let x: u32 = v - 0x10000;
            assert(x / 0x400 < 0x400) by (nonlinear_arith)
                requires
                    x < 0x100000,
            ;
            out.push((0xD800 + x / 0x400) as u16);
            out.push((0xDC00 + x % 0x400) as u16);
            assert(out@ =~= encode_utf16(s@.take(i as int)) + encode_char(c));
        }
        i += 1;
    }
    proof {
        assert(s@.take(len as int) =~= s@);
    }
    out
}

/// Strict UTF-16 decoding of a unit slice to text.
pub fn utf16_to_string_strict(u: &[u16]) -> (r: Option<String>)
    ensures
        match r {
            Some(s) => decode_utf16_strict(u@) == Some(s@),
            None => decode_utf16_strict(u@) is None,
        },
{
    let len: usize = u.len();
    let mut out = String::new();
    let mut i: usize = 0;
    proof {
        assert(u@.skip(0) =~= u@);
        assert forall|t: Seq<char>|
            decode_utf16_strict(u@.skip(0)) == Some(t) implies decode_utf16_strict(u@) == Some(
            out@ + t,
        ) by {
            assert(out@ + t =~= t);
        }
    }
    while i < len
        invariant
            len == u@.len(),
            i <= len,
            forall|t: Seq<char>|
                decode_utf16_strict(u@.skip(i as int)) == Some(t) ==> decode_utf16_strict(u@)
                    == Some(out@ + t),
            decode_utf16_strict(u@.skip(i as int)) is None ==> decode_utf16_strict(u@) is None,
        decreases len - i,
    {
        let x: u16 = *slice_index_get(u, i);
        let ghost rest = u@.skip(i as int);
        proof {
            assert(rest[0] == u@[i as int]);
            assert(rest.skip(1) =~= u@.skip(i as int + 1));
        }
        if x < 0xD800 || x >= 0xE000 {
            let c = char::from_u32(x as u32).unwrap();
            let ghost out0 = out@;
            out.push(c);
            proof {
                assert(c == (x as u32) as char);
                assert forall|t: Seq<char>|
                    decode_utf16_strict(u@.skip(i as int + 1)) == Some(
                        t,
                    ) implies decode_utf16_strict(u@) == Some(out@ + t) by {
                    assert(decode_utf16_strict(rest) == Some(seq![c] + t));
                    assert(out0 + (seq![c] + t) =~= out@ + t);
                }
            }
            i += 1;
        } else if x <= 0xDBFF && i + 1 < len {
            let y: u16 = *slice_index_get(u, i + 1);
            if 0xDC00 <= y && y <= 0xDFFF {
                proof {
                    assert(rest.len() >= 2);
                    assert(rest[1] == u@[i as int + 1]);
                    assert(rest.skip(2) =~= u@.skip(i as int + 2));
                }
                let v: u32 = 0x10000 + ((x as u32) - 0xD800) * 0x400 + ((y as u32) - 0xDC00);
                let c = char::from_u32(v).unwrap();
                let ghost out0 = out@;
                out.push(c);
                proof {
                    assert(v == combine_surrogates(x, y));
                    assert(c == combine_surrogates(x, y) as char);
                    assert forall|t: Seq<char>|
                        decode_utf16_strict(u@.skip(i as int + 2)) == Some(
                            t,
                        ) implies decode_utf16_strict(u@) == Some(out@ + t) by {
                        assert(decode_utf16_strict(rest) == Some(seq![c] + t));
                        assert(out0 + (seq![c] + t) =~= out@ + t);
                    }
                }
                i += 2;
            } else {
                assert(decode_utf16_strict(rest) is None);
                return None;
            }
        } else {
            assert(decode_utf16_strict(rest) is None);
            return None;
        }
    }
    proof {
        assert(u@.skip(len as int) =~= Seq::<u16>::empty());
        assert(out@ + Seq::<char>::empty() =~= out@);
    }
    Some(out)
}

/// Lossy UTF-16 decoding of a unit slice to text.
pub fn utf16_to_string_lossy(u: &[u16]) -> (r: String)
    ensures
        r@ == decode_utf16_lossy(u@),
{
    let len: usize = u.len();
    let mut out = String::new();
    let mut i: usize = 0;
    proof {
        assert(u@.skip(0) =~= u@);
        assert(out@ + decode_utf16_lossy(u@) =~= decode_utf16_lossy(u@));
    }
    while i < len
        invariant
            len == u@.len(),
            i <= len,
            decode_utf16_lossy(u@) == out@ + decode_utf16_lossy(u@.skip(i as int)),
        decreases len - i,
    {
        let x: u16 = *slice_index_get(u, i);
        let ghost rest = u@.skip(i as int);
        proof {
            assert(rest[0] == u@[i as int]);
            assert(rest.skip(1) =~= u@.skip(i as int + 1));
        }
        if x < 0xD800 || x >= 0xE000 {
            let c = char::from_u32(x as u32).unwrap();
            let ghost out0 = out@;
            out.push(c);
            proof {
                assert(c == (x as u32) as char);
                assert(decode_utf16_lossy(rest) == seq![c] + decode_utf16_lossy(
                    u@.skip(i as int + 1),
                ));
                assert(out0 + (seq![c] + decode_utf16_lossy(u@.skip(i as int + 1))) =~= out@
                    + decode_utf16_lossy(u@.skip(i as int + 1)));
            }
            i += 1;
        } else {
            let mut paired: bool = false;
            if x <= 0xDBFF && i + 1 < len {
                let y: u16 = *slice_index_get(u, i + 1);
                if 0xDC00 <= y && y <= 0xDFFF {
                    proof {
                        assert(rest.len() >= 2);
                        assert(rest[1] == u@[i as int + 1]);
                        assert(rest.skip(2) =~= u@.skip(i as int + 2));
                    }
                    let v: u32 = 0x10000 + ((x as u32) - 0xD800) * 0x400 + ((y as u32) - 0xDC00);
                    let c = char::from_u32(v).unwrap();
                    let ghost out0 = out@;
                    out.push(c);
                    proof {
                        assert(v == combine_surrogates(x, y));
                        assert(c == combine_surrogates(x, y) as char);
                        assert(decode_utf16_lossy(rest) == seq![c] + decode_utf16_lossy(
                            u@.skip(i as int + 2),
                        ));
                        assert(out0 + (seq![c] + decode_utf16_lossy(u@.skip(i as int + 2)))
                            =~= out@ + decode_utf16_lossy(u@.skip(i as int + 2)));
                    }
                    i += 2;
                    paired = true;
                }
            }
            if !paired {
                let c = char::from_u32(0xFFFD).unwrap();
                let ghost out0 = out@;
                out.push(c);
                proof {
                    assert(c == '\u{FFFD}');
                    assert(decode_utf16_lossy(rest) == seq!['\u{FFFD}'] + decode_utf16_lossy(
                        u@.skip(i as int + 1),
                    ));
                    assert(out0 + (seq![c] + decode_utf16_lossy(u@.skip(i as int + 1))) =~= out@
                        + decode_utf16_lossy(u@.skip(i as int + 1)));
                }
                i += 1;
            }
        }
    }
    proof {
        assert(u@.skip(len as int) =~= Seq::<u16>::empty());
        assert(out@ + Seq::<char>::empty() =~= out@);
    }
    out
}

/// Strict decoding undoes encoding: UTF-16 is lossless for every text.
pub proof fn lemma_utf16_round_trip(s: Seq<char>)
    ensures
        decode_utf16_strict(encode_utf16(s)) == Some(s),
    decreases s.len(),
{
    if s.len() == 0 {
    } else {
        let c = s[0];
        lemma_utf16_round_trip(s.skip(1));
        let e = encode_utf16(s);
        let tail = encode_utf16(s.skip(1));
        vstd::utf8::char_is_scalar(c);
        vstd::utf8::char_u32_cast(c, c as u32);
        if (c as u32) < 0x10000 {
            let u0 = (c as u32) as u16;
            assert(u0 == c as u32);
            assert(!is_surrogate(u0));
            assert(e =~= seq![u0] + tail);
            assert(e[0] == u0);
            assert(e.skip(1) =~= tail);
            assert((u0 as u32) as char == c);
            assert(seq![c] + s.skip(1) =~= s);
        } else {
            let off = (c as u32) - 0x10000;
            assert(0 <= off < 0x100000);
            assert(0 <= off / 0x400 < 0x400) by (nonlinear_arith)
                requires
                    0 <= off < 0x100000,
            ;
            let hi = (0xD800 + off / 0x400) as u16;
            let lo = (0xDC00 + off % 0x400) as u16;
            assert(hi == 0xD800 + off / 0x400);
            assert(lo == 0xDC00 + off % 0x400);
            assert(is_high_surrogate(hi));
            assert(is_low_surrogate(lo));
            assert(e =~= seq![hi, lo] + tail);
            assert(e[0] == hi && e[1] == lo);
            assert(e.skip(2) =~= tail);
            vstd::arithmetic::div_mod::lemma_fundamental_div_mod(off, 0x400);
            assert(combine_surrogates(hi, lo) == c as u32);
            assert(combine_surrogates(hi, lo) as char == c);
            assert(seq![c] + s.skip(1) =~= s);
        }
    }
}

/// On units that decode strictly, lossy decoding reads the same text.
pub proof fn lemma_strict_implies_lossy(u: Seq<u16>, t: Seq<char>)
    requires
        decode_utf16_strict(u) == Some(t),
    ensures
        decode_utf16_lossy(u) == t,
    decreases u.len(),
{
    if u.len() == 0 {
    } else if !is_surrogate(u[0]) {
        let rest = decode_utf16_strict(u.skip(1));
        lemma_strict_implies_lossy(u.skip(1), rest.unwrap());
    } else {
        let rest = decode_utf16_strict(u.skip(2));
        lemma_strict_implies_lossy(u.skip(2), rest.unwrap());
    }
}

/// A text without the NUL character encodes without zero units.
pub proof fn lemma_encode_no_nul(s: Seq<char>)
    requires
        forall|i: int| 0 <= i < s.len() ==> s[i] != '\0',
    ensures
        forall|j: int| 0 <= j < encode_utf16(s).len() ==> encode_utf16(s)[j] != 0,
    decreases s.len(),
{
    if s.len() > 0 {
        let c = s[0];
        assert(s.skip(1).len() == s.len() - 1);
        assert(forall|i: int| 0 <= i < s.skip(1).len() ==> s.skip(1)[i] != '\0');
        lemma_encode_no_nul(s.skip(1));
        vstd::utf8::char_is_scalar(c);
        vstd::utf8::char_u32_cast(c, c as u32);
        vstd::utf8::char_u32_cast('\0', '\0' as u32);
        assert(c as u32 != 0) by {
            if c as u32 == 0 {
                assert((c as u32) as char == c);
                assert(('\0' as u32) as char == '\0');
                assert('\0' as u32 == 0);
            }
        }
        if (c as u32) < 0x10000 {
            assert(encode_char(c)[0] == c as u32);
        } else {
            assert(0 <= ((c as u32) - 0x10000) / 0x400 < 0x400) by (nonlinear_arith)
                requires
                    0 <= (c as u32) - 0x10000 < 0x100000,
            ;
            assert(encode_char(c)[0] >= 0xD800);
            assert(encode_char(c)[1] >= 0xDC00);
        }
        assert(forall|j: int|
            0 <= j < encode_utf16(s).len() ==> encode_utf16(s)[j] == if j
                < encode_char(c).len() {
                encode_char(c)[j]
            } else {
                encode_utf16(s.skip(1))[j - encode_char(c).len()]
            });
    }
}

/// Adapter from a byte buffer to its unit cursor.
pub trait IntoU16Iter {
    fn into_u16_iter(self) -> U16Iter;
}

impl IntoU16Iter for Vec<u8> {
    fn into_u16_iter(self) -> (r: U16Iter)
        ensures
            r.wf(),
            r.remaining() == units_of_bytes(self@),
    {
        U16Iter::new(self)
    }
}

} // verus!
