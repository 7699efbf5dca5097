use vstd::prelude::*;
use vstd::slice::slice_subrange;
use vstd::slice::slice_to_vec;
use crate::errors::RegistryError;
use crate::utf16::bytes_of_units;
use crate::utf16::bytes_to_units;
use crate::utf16::decode_utf16_lossy;
use crate::utf16::decode_utf16_strict;
use crate::utf16::encode_utf16;
use crate::utf16::first_nul;
use crate::utf16::lemma_first_nul;
use crate::utf16::lemma_first_nul_is;
use crate::utf16::str_to_utf16;
use crate::utf16::units_of_bytes;
use crate::utf16::units_to_bytes;
use crate::utf16::utf16_to_string_lossy;
use crate::utf16::utf16_to_string_strict;

verus! {

/// A read-only snapshot of one named value of a key, produced by a single
/// read: it is not live-bound to the key and later writes do not change it.
#[derive(Debug)]
pub struct RegistryValue<'a> {
    key: &'a crate::key::RegistryKey,
    name: Option<String>,
    value: RegistryValueData,
}

pub open spec fn opt_string_view(n: Option<String>) -> Option<Seq<char>> {
    match n {
        Some(s) => Some(s@),
        None => None,
    }
}

impl<'a> RegistryValue<'a> {
    pub closed spec fn spec_key(&self) -> crate::key::KeyView {
        self.key@
    }

    pub closed spec fn spec_name(&self) -> Option<Seq<char>> {
        opt_string_view(self.name)
    }

    pub closed spec fn spec_value(&self) -> ValueModel {
        self.value@
    }

    pub fn new(key: &'a crate::key::RegistryKey, name: Option<String>, value: RegistryValueData) -> (r:
        RegistryValue<'a>)
        ensures
            r.spec_key() == key@,
            r.spec_name() == opt_string_view(name),
            r.spec_value() == value@,
    {
        RegistryValue { key, name, value }
    }

    /// Decodes a raw payload and binds the result to its key and name.
    pub fn new_from_data(
        key: &'a crate::key::RegistryKey,
        name: Option<String>,
        type_code: u32,
        data: Vec<u8>,
    ) -> (r: Result<RegistryValue<'a>, RegistryError>)
        ensures
            match spec_from_data(type_code, data@) {
                Ok(m) => r is Ok && r.unwrap().spec_key() == key@ && r.unwrap().spec_name()
                    == opt_string_view(name) && r.unwrap().spec_value() == m,
                Err(e) => r matches Err(e2) && e2 == e,
            },
    {
        match RegistryValueData::from_data(type_code, data) {
            Ok(v) => Ok(RegistryValue::new(key, name, v)),
            Err(e) => Err(e),
        }
    }

    pub fn get_key(&self) -> (r: &'a crate::key::RegistryKey)
        ensures
            r@ == self.spec_key(),
    {
        self.key
    }

    pub fn get_name(&self) -> (r: Option<&str>)
        ensures
            match r {
                Some(s) => self.spec_name() == Some(s@),
                None => self.spec_name() is None,
            },
    {
        match &self.name {
            Some(s) => Some(s.as_str()),
            None => None,
        }
    }

    pub fn get_value(&self) -> (r: &RegistryValueData)
        ensures
            r@ == self.spec_value(),
    {
        &self.value
    }
}

// The native type tags of the store's typed values.
pub const REG_NONE: u32 = 0;

pub const REG_SZ: u32 = 1;

pub const REG_EXPAND_SZ: u32 = 2;

pub const REG_BINARY: u32 = 3;

pub const REG_DWORD_LITTLE_ENDIAN: u32 = 4;

pub const REG_DWORD_BIG_ENDIAN: u32 = 5;

pub const REG_MULTI_SZ: u32 = 7;

pub const REG_QWORD_LITTLE_ENDIAN: u32 = 11;

/// A typed value read from or written to the store.
///
/// `ExpandString` is text that still carries deferred environment-variable
/// references; it is stored under its own tag but represented as plain text
/// once read.
#[derive(Debug)]
pub enum RegistryValueData {
    Absent,
    Binary(Vec<u8>),
    Dword(u32),
    Qword(u64),
    String(String),
    MultiString(Vec<String>),
    ExpandString(String),
}

/// The mathematical shape of a typed value, used by every codec contract.
pub enum ValueModel {
    Absent,
    Binary(Seq<u8>),
    Dword(u32),
    Qword(u64),
    Text(Seq<char>),
    MultiText(Seq<Seq<char>>),
    ExpandText(Seq<char>),
}

impl View for RegistryValueData {
    type V = ValueModel;

    open spec fn view(&self) -> ValueModel {
        match self {
            RegistryValueData::Absent => ValueModel::Absent,
            RegistryValueData::Binary(d) => ValueModel::Binary(d@),
            RegistryValueData::Dword(x) => ValueModel::Dword(*x),
            RegistryValueData::Qword(x) => ValueModel::Qword(*x),
            RegistryValueData::String(s) => ValueModel::Text(s@),
            RegistryValueData::MultiString(ss) => ValueModel::MultiText(ss.deep_view()),
            RegistryValueData::ExpandString(s) => ValueModel::ExpandText(s@),
        }
    }
}

// ---------------------------------------------------------------------------
// Fixed-width integers as little- and big-endian bytes.
// ---------------------------------------------------------------------------

pub open spec fn le4(x: u32) -> Seq<u8> {
    seq![
        (x % 256) as u8,
        ((x / 256) % 256) as u8,
        ((x / 0x10000) % 256) as u8,
        ((x / 0x1000000) % 256) as u8,
    ]
}

pub open spec fn le4_val(d: Seq<u8>) -> u32 {
    (d[0] + d[1] * 256 + d[2] * 0x10000 + d[3] * 0x1000000) as u32
}

pub open spec fn be4_val(d: Seq<u8>) -> u32 {
    (d[3] + d[2] * 256 + d[1] * 0x10000 + d[0] * 0x1000000) as u32
}

pub open spec fn le8(x: u64) -> Seq<u8> {
    seq![
        (x % 256) as u8,
        ((x / 0x100) % 256) as u8,
        ((x / 0x10000) % 256) as u8,
        ((x / 0x1000000) % 256) as u8,
        ((x / 0x100000000) % 256) as u8,
        ((x / 0x10000000000) % 256) as u8,
        ((x / 0x1000000000000) % 256) as u8,
        ((x / 0x100000000000000) % 256) as u8,
    ]
}

pub open spec fn le8_val(d: Seq<u8>) -> u64 {
    (d[0] + d[1] * 0x100 + d[2] * 0x10000 + d[3] * 0x1000000 + d[4] * 0x100000000 + d[5]
        * 0x10000000000 + d[6] * 0x1000000000000 + d[7] * 0x100000000000000) as u64
}

// ---------------------------------------------------------------------------
// Text payload layouts.
// ---------------------------------------------------------------------------

/// The unit layout of a string list: each text NUL-terminated, in order;
/// the final end-of-list terminator is appended by the encoder.
pub open spec fn multi_sz_units(ss: Seq<Seq<char>>) -> Seq<u16>
    decreases ss.len(),
{
    if ss.len() == 0 {
        Seq::empty()
    } else {
        encode_utf16(ss[0]).push(0) + multi_sz_units(ss.skip(1))
    }
}

/// Splits a unit buffer at zero units into its texts, decoding each leniently.
/// Scanning stops at the end of the buffer, and the final empty terminator is
/// not itself a text.
pub open spec fn split_multi_sz(u: Seq<u16>) -> Seq<Seq<char>>
    decreases u.len(),
    via split_multi_sz_decreases
{
    if u.len() == 0 {
        Seq::empty()
    } else if u.len() == 1 && u[0] == 0 {
        Seq::empty()
    } else {
        let k = first_nul(u);
        if k >= u.len() {
            seq![decode_utf16_lossy(u)]
        } else {
            seq![decode_utf16_lossy(u.take(k))] + split_multi_sz(u.skip(k + 1))
        }
    }
}

#[via_fn]
proof fn split_multi_sz_decreases(u: Seq<u16>) {
    lemma_first_nul(u);
}

// ---------------------------------------------------------------------------
// The codec's contracts.
// ---------------------------------------------------------------------------

/// What encoding a typed value yields: its native tag and exact raw bytes.
/// Integers are fixed little-endian; each text gains a NUL terminator; a
/// string list gains one more terminator marking the end of the list.
pub open spec fn spec_to_raw(m: ValueModel) -> (u32, Seq<u8>) {
    match m {
        ValueModel::Absent => (REG_NONE, Seq::empty()),
        ValueModel::Binary(d) => (REG_BINARY, d),
        ValueModel::Dword(x) => (REG_DWORD_LITTLE_ENDIAN, le4(x)),
        ValueModel::Qword(x) => (REG_QWORD_LITTLE_ENDIAN, le8(x)),
        ValueModel::Text(s) => (REG_SZ, bytes_of_units(encode_utf16(s).push(0))),
        ValueModel::MultiText(ss) => (REG_MULTI_SZ, bytes_of_units(multi_sz_units(ss).push(0))),
        ValueModel::ExpandText(s) => (REG_EXPAND_SZ, bytes_of_units(encode_utf16(s).push(0))),
    }
}

/// What decoding a tag and raw bytes yields. Fixed-width integers demand the
/// exact length; plain text is cut at its first NUL and decoded strictly;
/// expandable text is decoded leniently and whole; an unknown tag, a wrong
/// length or ill-formed text fail as malformed, carrying the tag.
pub open spec fn spec_from_data(tag: u32, d: Seq<u8>) -> Result<ValueModel, RegistryError> {
    if tag == REG_NONE {
        Ok(ValueModel::Absent)
    } else if tag == REG_BINARY {
        Ok(ValueModel::Binary(d))
    } else if tag == REG_DWORD_LITTLE_ENDIAN {
        if d.len() == 4 {
            Ok(ValueModel::Dword(le4_val(d)))
        } else {
            Err(RegistryError::MalformedValue(tag))
        }
    } else if tag == REG_DWORD_BIG_ENDIAN {
        if d.len() == 4 {
            Ok(ValueModel::Dword(be4_val(d)))
        } else {
            Err(RegistryError::MalformedValue(tag))
        }
    } else if tag == REG_QWORD_LITTLE_ENDIAN {
        if d.len() == 8 {
            Ok(ValueModel::Qword(le8_val(d)))
        } else {
            Err(RegistryError::MalformedValue(tag))
        }
    } else if tag == REG_SZ {
        let u = units_of_bytes(d);
        match decode_utf16_strict(u.take(first_nul(u))) {
            Some(s) => Ok(ValueModel::Text(s)),
            None => Err(RegistryError::MalformedValue(tag)),
        }
    } else if tag == REG_MULTI_SZ {
        Ok(ValueModel::MultiText(split_multi_sz(units_of_bytes(d))))
    } else if tag == REG_EXPAND_SZ {
        Ok(ValueModel::ExpandText(decode_utf16_lossy(units_of_bytes(d))))
    } else {
        Err(RegistryError::MalformedValue(tag))
    }
}

impl RegistryValueData {
    /// Decodes a raw payload read from the store.
    pub fn from_data(type_code: u32, data: Vec<u8>) -> (r: Result<
        RegistryValueData,
        RegistryError,
    >)
        ensures
            match spec_from_data(type_code, data@) {
                Ok(m) => r is Ok && r.unwrap()@ == m,
                Err(e) => r == Err::<RegistryValueData, RegistryError>(e),
            },
    {
        if type_code == REG_NONE {
            Ok(RegistryValueData::Absent)
        } else if type_code == REG_BINARY {
            Ok(RegistryValueData::Binary(data))
        } else if type_code == REG_DWORD_LITTLE_ENDIAN {
            if data.len() != 4 {
                return Err(RegistryError::MalformedValue(type_code));
            }
            let x: u32 = (data[0] as u32) + (data[1] as u32) * 256 + (data[2] as u32) * 0x10000
                + (data[3] as u32) * 0x1000000;
            Ok(RegistryValueData::Dword(x))
        } else if type_code == REG_DWORD_BIG_ENDIAN {
            if data.len() != 4 {
                return Err(RegistryError::MalformedValue(type_code));
            }
            let x: u32 = (data[3] as u32) + (data[2] as u32) * 256 + (data[1] as u32) * 0x10000
                + (data[0] as u32) * 0x1000000;
            Ok(RegistryValueData::Dword(x))
        } else if type_code == REG_QWORD_LITTLE_ENDIAN {
            if data.len() != 8 {
                return Err(RegistryError::MalformedValue(type_code));
            }
            let x: u64 = (data[0] as u64) + (data[1] as u64) * 0x100 + (data[2] as u64) * 0x10000
                + (data[3] as u64) * 0x1000000 + (data[4] as u64) * 0x100000000 + (data[5] as u64)
                * 0x10000000000 + (data[6] as u64) * 0x1000000000000 + (data[7] as u64)
                * 0x100000000000000;
            Ok(RegistryValueData::Qword(x))
        } else if type_code == REG_SZ {
            let units = bytes_to_units(&data);
            let n: usize = units.len();
            let mut k: usize = 0;
            while k < n && units[k] != 0
                invariant
                    n == units@.len(),
                    k <= n,
                    forall|j: int| 0 <= j < k ==> units@[j] != 0,
                decreases n - k,
            {
                k += 1;
            }
            proof {
                lemma_first_nul_is(units@, k as int);
            }
            let seg = slice_subrange(units.as_slice(), 0, k);
            proof {
                assert(seg@ =~= units@.take(k as int));
            }
            match utf16_to_string_strict(seg) {
                Some(s) => Ok(RegistryValueData::String(s)),
                None => Err(RegistryError::MalformedValue(type_code)),
            }
        } else if type_code == REG_MULTI_SZ {
            let units = bytes_to_units(&data);
            let n: usize = units.len();
            let mut out: Vec<String> = Vec::new();
            let mut i: usize = 0;
            proof {
                assert(units@.skip(0) =~= units@);
                assert(out.deep_view() + split_multi_sz(units@) =~= split_multi_sz(units@));
            }
            while i < n
                invariant
                    n == units@.len(),
                    i <= n,
                    split_multi_sz(units@) == out.deep_view() + split_multi_sz(
                        units@.skip(i as int),
                    ),
                decreases n - i,
            {
                let ghost rest = units@.skip(i as int);
                if n - i == 1 && units[i] == 0 {
                    proof {
                        assert(rest.len() == 1 && rest[0] == 0);
                        assert(split_multi_sz(rest) =~= Seq::<Seq<char>>::empty());
                        assert(units@.skip(n as int).len() == 0);
                        assert(out.deep_view() + split_multi_sz(units@.skip(n as int))
                            =~= out.deep_view() + split_multi_sz(rest));
                    }
                    i = n;
                } else {
                    let mut j: usize = i;
                    while j < n && units[j] != 0
                        invariant
                            n == units@.len(),
                            i <= j <= n,
                            forall|t: int| i <= t < j ==> units@[t] != 0,
                        decreases n - j,
                    {
                        j += 1;
                    }
                    proof {
                        assert(forall|t: int| 0 <= t < j - i ==> rest[t] == units@[i + t]);
                        lemma_first_nul_is(rest, j - i);
                    }
                    let seg = slice_subrange(units.as_slice(), i, j);
                    let s = utf16_to_string_lossy(seg);
                    let ghost out0 = out.deep_view();
                    out.push(s);
                    proof {
                        assert(out.deep_view() =~= out0.push(s@));
                        assert(seg@ =~= rest.take(j - i));
                    }
                    if j == n {
                        proof {
                            assert(rest.take(j - i) =~= rest);
                            assert(split_multi_sz(rest) =~= seq![s@]);
                            assert(units@.skip(n as int).len() == 0);
                            assert(split_multi_sz(units@.skip(n as int))
                                =~= Seq::<Seq<char>>::empty());
                            assert(out0 + (seq![s@] + Seq::<Seq<char>>::empty()) =~= out.deep_view()
                                + Seq::<Seq<char>>::empty());
                            assert(out0 + split_multi_sz(rest) =~= out.deep_view()
                                + split_multi_sz(units@.skip(n as int)));
                        }
                        i = n;
                    } else {
                        proof {
                            assert(!(rest.len() == 1 && rest[0] == 0));
                            assert(split_multi_sz(rest) == seq![decode_utf16_lossy(
                                rest.take(j - i),
                            )] + split_multi_sz(rest.skip(j - i + 1)));
                            assert(rest.skip(j - i + 1) =~= units@.skip(j + 1));
                            assert(out0 + (seq![s@] + split_multi_sz(units@.skip(j + 1)))
                                =~= out.deep_view() + split_multi_sz(units@.skip(j + 1)));
                        }
                        i = j + 1;
                    }
                }
            }
            proof {
                assert(units@.skip(i as int).len() == 0);
                assert(split_multi_sz(units@.skip(i as int)) =~= Seq::<Seq<char>>::empty());
                assert(out.deep_view() + Seq::<Seq<char>>::empty() =~= out.deep_view());
            }
            Ok(RegistryValueData::MultiString(out))
        } else if type_code == REG_EXPAND_SZ {
            let units = bytes_to_units(&data);
            let s = utf16_to_string_lossy(units.as_slice());
            Ok(RegistryValueData::ExpandString(s))
        } else {
            Err(RegistryError::MalformedValue(type_code))
        }
    }

    /// Encodes this value to its native tag and exact raw bytes.
    pub fn to_raw(&self) -> (r: (u32, Vec<u8>))
        ensures
            (r.0, r.1@) == spec_to_raw(self@),
    {
        match self {
            RegistryValueData::Absent => (REG_NONE, Vec::new()),
            RegistryValueData::Binary(d) => (REG_BINARY, slice_to_vec(d.as_slice())),
            RegistryValueData::Dword(x) => {
                let v: u32 = *x;
                let mut out: Vec<u8> = Vec::new();
                out.push((v % 256) as u8);
                out.push(((v / 256) % 256) as u8);
                out.push(((v / 0x10000) % 256) as u8);
                out.push(((v / 0x1000000) % 256) as u8);
                assert(out@ =~= le4(v));
                (REG_DWORD_LITTLE_ENDIAN, out)
            },
            RegistryValueData::Qword(x) => {
                let v: u64 = *x;
                let mut out: Vec<u8> = Vec::new();
                out.push((v % 256) as u8);
                out.push(((v / 0x100) % 256) as u8);
                out.push(((v / 0x10000) % 256) as u8);
                out.push(((v / 0x1000000) % 256) as u8);
                out.push(((v / 0x100000000) % 256) as u8);
                out.push(((v / 0x10000000000) % 256) as u8);
                out.push(((v / 0x1000000000000) % 256) as u8);
                out.push(((v / 0x100000000000000) % 256) as u8);
                assert(out@ =~= le8(v));
                (REG_QWORD_LITTLE_ENDIAN, out)
            },
            RegistryValueData::String(s) => {
                let mut units = str_to_utf16(s.as_str());
                units.push(0);
                (REG_SZ, units_to_bytes(&units))
            },
            RegistryValueData::MultiString(ss) => {
                let n: usize = ss.len();
                let mut units: Vec<u16> = Vec::new();
                let mut i: usize = 0;
                proof {
                    assert(ss.deep_view().take(0) =~= Seq::<Seq<char>>::empty());
                }
                while i < n
                    invariant
                        n == ss@.len(),
                        i <= n,
                        units@ == multi_sz_units(ss.deep_view().take(i as int)),
                    decreases n - i,
                {
                    let mut enc = str_to_utf16(ss[i].as_str());
                    enc.push(0);
                    units.append(&mut enc);
                    proof {
                        let dv = ss.deep_view();
                        assert(dv[i as int] == ss@[i as int]@);
                        lemma_multi_sz_units_concat(dv.take(i as int), seq![dv[i as int]]);
                        assert(dv.take(i as int) + seq![dv[i as int]] =~= dv.take(i + 1));
                        assert(seq![dv[i as int]].skip(1) =~= Seq::<Seq<char>>::empty());
                        assert(multi_sz_units(seq![dv[i as int]]) == encode_utf16(
                            dv[i as int],
                        ).push(0) + multi_sz_units(Seq::<Seq<char>>::empty()));
                        assert(encode_utf16(dv[i as int]).push(0) + Seq::<u16>::empty()
                            =~= encode_utf16(dv[i as int]).push(0));
                    }
                    i += 1;
                }
                proof {
                    assert(ss.deep_view().take(n as int) =~= ss.deep_view());
                }
                units.push(0);
                (REG_MULTI_SZ, units_to_bytes(&units))
            },
            RegistryValueData::ExpandString(s) => {
                let mut units = str_to_utf16(s.as_str());
                units.push(0);
                (REG_EXPAND_SZ, units_to_bytes(&units))
            },
        }
    }
}

// ---------------------------------------------------------------------------
// The codec round trip.
// ---------------------------------------------------------------------------

/// The values the codec reproduces exactly: everything but expandable text
/// (whose lenient whole-buffer decode keeps the terminator) and texts with an
/// embedded NUL (which the store's layout cannot carry).
pub open spec fn round_trippable(m: ValueModel) -> bool {
    match m {
        ValueModel::Text(s) => !s.contains('\0'),
        ValueModel::MultiText(ss) => forall|i: int| 0 <= i < ss.len() ==> !ss[i].contains('\0'),
        ValueModel::ExpandText(_) => false,
        _ => true,
    }
}

/// Splitting undoes the string-list layout for NUL-free texts.
pub proof fn lemma_split_multi_round_trip(ss: Seq<Seq<char>>)
    requires
        forall|i: int| 0 <= i < ss.len() ==> !ss[i].contains('\0'),
    ensures
        split_multi_sz(multi_sz_units(ss).push(0)) == ss,
    decreases ss.len(),
{
    if ss.len() == 0 {
        assert(multi_sz_units(ss).push(0) =~= seq![0u16]);
        assert(split_multi_sz(seq![0u16]) =~= Seq::<Seq<char>>::empty());
        assert(ss =~= Seq::<Seq<char>>::empty());
    } else {
        let s0 = ss[0];
        let rest = ss.skip(1);
        assert(forall|i: int| 0 <= i < rest.len() ==> rest[i] == ss[i + 1]);
        lemma_split_multi_round_trip(rest);
        let enc = encode_utf16(s0);
        let l = enc.len() as int;
        let u = multi_sz_units(ss).push(0);
        assert(multi_sz_units(ss) == enc.push(0) + multi_sz_units(rest));
        assert(u =~= enc + (seq![0u16] + multi_sz_units(rest).push(0)));
        assert(forall|i: int| 0 <= i < s0.len() ==> s0[i] != '\0') by {
            assert(forall|i: int| 0 <= i < s0.len() ==> s0.contains(s0[i]));
        }
        crate::utf16::lemma_encode_no_nul(s0);
        assert(forall|j: int| 0 <= j < l ==> u[j] == enc[j] && u[j] != 0);
        assert(u[l] == 0);
        lemma_first_nul_is(u, l);
        assert(u.len() > l);
        assert(!(u.len() == 1 && u[0] == 0)) by {
            if u.len() == 1 {
                assert(l == 0);
                assert(u[0] == 0);
                assert(multi_sz_units(rest).push(0).len() == 0);
            }
        }
        assert(split_multi_sz(u) == seq![decode_utf16_lossy(u.take(l))] + split_multi_sz(
            u.skip(l + 1),
        ));
        assert(u.take(l) =~= enc);
        crate::utf16::lemma_utf16_round_trip(s0);
        crate::utf16::lemma_strict_implies_lossy(enc, s0);
        assert(u.skip(l + 1) =~= multi_sz_units(rest).push(0));
        assert(seq![s0] + rest =~= ss);
    }
}

/// Decoding undoes encoding: for integers, binary data, plain text without
/// NUL and string lists of NUL-free texts, `from_data` applied to `to_raw`'s
/// tag and bytes yields the value again.
pub proof fn lemma_codec_round_trip(m: ValueModel)
    requires
        round_trippable(m),
    ensures
        spec_from_data(spec_to_raw(m).0, spec_to_raw(m).1) == Ok::<ValueModel, RegistryError>(m),
{
    match m {
        ValueModel::Absent => {
        },
        ValueModel::Binary(_) => {
        },
        ValueModel::Dword(x) => {
            let d = le4(x);
            assert(d.len() == 4);
            assert(x % 256 + ((x / 256) % 256) * 256 + ((x / 0x10000) % 256) * 0x10000 + ((x
                / 0x1000000) % 256) * 0x1000000 == x) by (bit_vector);
            assert(le4_val(d) == x);
        },
        ValueModel::Qword(x) => {
            let d = le8(x);
            assert(d.len() == 8);
            assert(x % 256 + ((x / 0x100) % 256) * 0x100 + ((x / 0x10000) % 256) * 0x10000 + ((x
                / 0x1000000) % 256) * 0x1000000 + ((x / 0x100000000) % 256) * 0x100000000 + ((x
                / 0x10000000000) % 256) * 0x10000000000 + ((x / 0x1000000000000) % 256)
                * 0x1000000000000 + ((x / 0x100000000000000) % 256) * 0x100000000000000 == x)
                by (bit_vector);
            assert(le8_val(d) == x);
        },
        ValueModel::Text(s) => {
            let enc = encode_utf16(s);
            let l = enc.len() as int;
            let withnul = enc.push(0);
            crate::utf16::lemma_units_of_bytes_of_units(withnul);
            let u = units_of_bytes(bytes_of_units(withnul));
            assert(u == withnul);
            assert(forall|i: int| 0 <= i < s.len() ==> s[i] != '\0') by {
                assert(forall|i: int| 0 <= i < s.len() ==> s.contains(s[i]));
            }
            crate::utf16::lemma_encode_no_nul(s);
            assert(forall|j: int| 0 <= j < l ==> u[j] == enc[j] && u[j] != 0);
            assert(u[l] == 0);
            lemma_first_nul_is(u, l);
            assert(u.take(l) =~= enc);
            crate::utf16::lemma_utf16_round_trip(s);
        },
        ValueModel::MultiText(ss) => {
            let withnul = multi_sz_units(ss).push(0);
            crate::utf16::lemma_units_of_bytes_of_units(withnul);
            assert(units_of_bytes(bytes_of_units(withnul)) == withnul);
            lemma_split_multi_round_trip(ss);
        },
        ValueModel::ExpandText(_) => {
        },
    }
}

/// The string-list layout distributes over concatenation.
pub proof fn lemma_multi_sz_units_concat(a: Seq<Seq<char>>, b: Seq<Seq<char>>)
    ensures
        multi_sz_units(a + b) == multi_sz_units(a) + multi_sz_units(b),
    decreases a.len(),
{
    if a.len() == 0 {
        assert(a + b =~= b);
        assert(multi_sz_units(a) + multi_sz_units(b) =~= multi_sz_units(b));
    } else {
        assert((a + b)[0] == a[0]);
        assert((a + b).skip(1) =~= a.skip(1) + b);
        assert((a + b).len() != 0);
        lemma_multi_sz_units_concat(a.skip(1), b);
        assert(encode_utf16(a[0]).push(0) + (multi_sz_units(a.skip(1)) + multi_sz_units(b))
            =~= (encode_utf16(a[0]).push(0) + multi_sz_units(a.skip(1))) + multi_sz_units(b));
    }
}

} // verus!
