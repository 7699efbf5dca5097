use vstd::prelude::*;
use vstd::slice::slice_subrange;
use crate::strutil::StringExt;
use crate::utf16::bytes_to_units;
use crate::utf16::decode_utf16_strict;
use crate::utf16::first_unit_at;
use crate::utf16::lemma_first_unit_is;
use crate::utf16::units_of_bytes;
use crate::utf16::utf16_to_string_strict;

verus! {

/// Reading a line failed: its 16-bit units were not well-formed UTF-16.
#[derive(Clone, Copy, Debug, PartialEq, Eq, Structural)]
pub struct Utf16LineError;

/// The units of the first line of a buffer, its newline unit included;
/// the whole buffer when no newline is left.
pub open spec fn line_units(u: Seq<u16>) -> Seq<u16> {
    let k = first_unit_at(u, 0x0A);
    if k >= u.len() {
        u
    } else {
        u.take(k + 1)
    }
}

/// What stripping a decoded line leaves: a leading byte-order mark goes,
/// then a trailing newline, then a trailing carriage return.
pub open spec fn strip_line(t: Seq<char>) -> Seq<char> {
    let a = if t.len() > 0 && t[0] == '\u{feff}' {
        t.skip(1)
    } else {
        t
    };
    let b = if a.len() > 0 && a.last() == '\n' {
        a.drop_last()
    } else {
        a
    };
    if b.len() > 0 && b.last() == '\r' {
        b.drop_last()
    } else {
        b
    }
}

/// Reads a byte buffer as UTF-16 text lines, lazily: two bytes per unit,
/// a line ends at a newline unit, and each yielded line is stripped of a
/// leading byte-order mark and its line ending.
pub struct Utf16Lines {
    units: Vec<u16>,
    pos: usize,
}

impl Utf16Lines {
    /// The units not yet read.
    pub closed spec fn remaining(&self) -> Seq<u16> {
        self.units@.skip(self.pos as int)
    }

    pub closed spec fn wf(&self) -> bool {
        self.pos <= self.units@.len()
    }

    pub fn new(bytes: Vec<u8>) -> (r: Utf16Lines)
        ensures
            r.wf(),
            r.remaining() == units_of_bytes(bytes@),
    {
        let units = bytes_to_units(&bytes);
        let r = Utf16Lines { units, pos: 0 };
        proof {
            assert(r.units@.skip(0) =~= r.units@);
        }
        r
    }

    /// The next line, or `None` at the end of the buffer. An ill-formed
    /// line is reported as an error and reading continues after it.
    pub fn next(&mut self) -> (r: Option<Result<String, Utf16LineError>>)
        requires
            old(self).wf(),
        ensures
            final(self).wf(),
            ({
                let rem = old(self).remaining();
                if rem.len() == 0 {
                    r is None && final(self).remaining() == rem
                } else {
                    let lu = line_units(rem);
                    &&& final(self).remaining() == rem.skip(lu.len() as int)
                    &&& match r {
                        Some(res) => match res {
                            Ok(s) => decode_utf16_strict(lu) is Some && s@ == strip_line(
                                decode_utf16_strict(lu).unwrap(),
                            ),
                            Err(_) => decode_utf16_strict(lu) is None,
                        },
                        None => false,
                    }
                }
            }),
    {
        let n: usize = self.units.len();
        if self.pos >= n {
            return None;
        }
        let ghost rem = self.remaining();
        let p0: usize = self.pos;
        let mut j: usize = p0;
        while j < n && self.units[j] != 0x0A
            invariant
                n == self.units@.len(),
                p0 <= j <= n,
                forall|t: int| p0 <= t < j ==> self.units@[t] != 0x0A,
            decreases n - j,
        {
            j += 1;
        }
        let endi: usize = if j < n {
            j + 1
        } else {
            n
        };
        proof {
            assert(forall|t: int| 0 <= t < j - p0 ==> rem[t] == self.units@[p0 + t]);
            lemma_first_unit_is(rem, 0x0A, j - p0);
            assert(line_units(rem) =~= self.units@.subrange(p0 as int, endi as int));
        }
        let seg = slice_subrange(self.units.as_slice(), p0, endi);
        self.pos = endi;
        proof {
            assert(self.units@.skip(endi as int) =~= rem.skip(line_units(rem).len() as int));
        }
        match utf16_to_string_strict(seg) {
            None => Some(Err(Utf16LineError)),
            Some(mut s) => {
                let ghost t = decode_utf16_strict(line_units(rem)).unwrap();
                proof {
                    reveal_strlit("\u{feff}");
                    reveal_strlit("\n");
                    reveal_strlit("\r");
                    assert("\u{feff}"@ =~= seq!['\u{feff}']);
                    assert("\n"@ =~= seq!['\n']);
                    assert("\r"@ =~= seq!['\r']);
                }
                proof {
                    if t.len() > 0 && t[0] == '\u{feff}' {
                        assert("\u{feff}"@ =~= t.subrange(0, 1));
                        assert("\u{feff}"@.is_prefix_of(t));
                    } else {
                        if "\u{feff}"@.is_prefix_of(t) {
                            assert(t.subrange(0, 1)[0] == t[0]);
                            assert(false);
                        }
                    }
                }
                s.remove_prefix("\u{feff}");
                let ghost a = if t.len() > 0 && t[0] == '\u{feff}' {
                    t.skip(1)
                } else {
                    t
                };
                proof {
                    assert(s@ =~= a);
                    if a.len() > 0 && a.last() == '\n' {
                        assert("\n"@ =~= a.subrange(a.len() - 1, a.len() as int));
                        assert("\n"@.is_suffix_of(a));
                    } else {
                        if "\n"@.is_suffix_of(a) {
                            assert(a.subrange(a.len() - 1, a.len() as int)[0] == a.last());
                            assert(false);
                        }
                    }
                }
                s.remove_suffix("\n");
                let ghost b = if a.len() > 0 && a.last() == '\n' {
                    a.drop_last()
                } else {
                    a
                };
                proof {
                    assert(s@ =~= b);
                    if b.len() > 0 && b.last() == '\r' {
                        assert("\r"@ =~= b.subrange(b.len() - 1, b.len() as int));
                        assert("\r"@.is_suffix_of(b));
                    } else {
                        if "\r"@.is_suffix_of(b) {
                            assert(b.subrange(b.len() - 1, b.len() as int)[0] == b.last());
                            assert(false);
                        }
                    }
                }
                s.remove_suffix("\r");
                proof {
                    assert(s@ =~= strip_line(t));
                }
                Some(Ok(s))
            },
        }
    }
}

} // verus!
