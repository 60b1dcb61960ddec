//! Character encodings: how a byte string splits into code points.

use vstd::prelude::*;
use super::error::{Error, ErrorKind};

verus! {

/// A character encoding of pattern and haystack bytes.
#[allow(non_camel_case_types)]
#[derive(Clone, Copy, Debug, PartialEq, Eq, Structural)]
pub enum Encoding {
    ASCII,
    UTF8,
    UTF16_BE,
    UTF16_LE,
    UTF32_BE,
    UTF32_LE,
    ISO_8859_1,
}

/// Length of a UTF-8 sequence announced by its lead byte.
pub open spec fn utf8_lead_len(b: u8) -> Option<nat> {
    if b < 0x80 {
        Some(1)
    } else if 0xC2 <= b && b <= 0xDF {
        Some(2)
    } else if 0xE0 <= b && b <= 0xEF {
        Some(3)
    } else if 0xF0 <= b && b <= 0xF4 {
        Some(4)
    } else {
        None
    }
}

pub open spec fn is_cont(b: u8) -> bool {
    b & 0xC0 == 0x80
}

/// How many continuation bytes to step back over from `q`, having already
/// stepped over `k`: stop at `start`, at a byte that is no continuation
/// byte, or after three in all.
pub open spec fn utf8_back(hay: Seq<u8>, start: int, q: int, k: int) -> int
    decreases 3 - k,
{
    if q > start && k < 3 && is_cont(hay[q]) {
        1 + utf8_back(hay, start, q - 1, k + 1)
    } else {
        0
    }
}

/// A UTF-16 code unit from two bytes in the given order.
pub open spec fn unit16(hi: u8, lo: u8) -> u32 {
    ((hi as u32) << 8u32) | (lo as u32)
}

/// A UTF-32 code unit from four bytes, most significant first.
pub open spec fn unit32(b0: u8, b1: u8, b2: u8, b3: u8) -> u32 {
    ((b0 as u32) << 24u32) | ((b1 as u32) << 16u32) | ((b2 as u32) << 8u32) | (b3 as u32)
}

pub open spec fn utf8_decode(s: Seq<u8>, n: nat) -> Option<u32> {
    if n == 1 {
        Some(s[0] as u32)
    } else if n == 2 {
        if is_cont(s[1]) {
            Some((((s[0] & 0x1F) as u32) << 6u32) | ((s[1] & 0x3F) as u32))
        } else {
            None
        }
    } else if n == 3 {
        let cp = (((s[0] & 0x0F) as u32) << 12u32) | (((s[1] & 0x3F) as u32) << 6u32) | ((s[2]
            & 0x3F) as u32);
        if is_cont(s[1]) && is_cont(s[2]) && cp >= 0x800 {
            Some(cp)
        } else {
            None
        }
    } else {
        let cp = (((s[0] & 0x07) as u32) << 18u32) | (((s[1] & 0x3F) as u32) << 12u32) | (((s[2]
            & 0x3F) as u32) << 6u32) | ((s[3] & 0x3F) as u32);
        if is_cont(s[1]) && is_cont(s[2]) && is_cont(s[3]) && cp >= 0x10000 {
            Some(cp)
        } else {
            None
        }
    }
}

/// Combine a UTF-16 unit pair; a lone or misordered surrogate is invalid.
pub open spec fn utf16_decode(u0: u32, u1: u32, n: nat) -> Option<u32> {
    if n == 2 {
        if 0xDC00 <= u0 && u0 <= 0xDFFF {
            None
        } else {
            Some(u0)
        }
    } else if 0xDC00 <= u1 && u1 <= 0xDFFF {
        Some((0x10000 + (((u0 - 0xD800) as u32) << 10u32) + ((u1 - 0xDC00) as u32)) as u32)
    } else {
        None
    }
}

impl Encoding {
    /// Unicode encodings: their code points are Unicode scalar values.
    pub open spec fn unicode(self) -> bool {
        self == Encoding::UTF8 || self == Encoding::UTF16_BE || self == Encoding::UTF16_LE
            || self == Encoding::UTF32_BE || self == Encoding::UTF32_LE
    }

    /// Bytes in the shortest character.
    pub open spec fn min_len_spec(self) -> nat {
        match self {
            Encoding::UTF16_BE | Encoding::UTF16_LE => 2,
            Encoding::UTF32_BE | Encoding::UTF32_LE => 4,
            _ => 1,
        }
    }

    /// Bytes in the longest character.
    pub open spec fn max_len_spec(self) -> nat {
        match self {
            Encoding::ASCII | Encoding::ISO_8859_1 => 1,
            _ => 4,
        }
    }

    /// A byte below 0x80 is always the whole character it starts.
    pub open spec fn ascii_transparent_spec(self) -> bool {
        self == Encoding::ASCII || self == Encoding::UTF8 || self == Encoding::ISO_8859_1
    }

    /// Length in bytes of the character `s` starts with, or `None` when `s`
    /// does not start with a well-formed one.
    pub open spec fn char_len(self, s: Seq<u8>) -> Option<nat> {
        if s.len() == 0 {
            None
        } else {
            match self {
                Encoding::ASCII | Encoding::ISO_8859_1 => Some(1),
                Encoding::UTF8 => utf8_lead_len(s[0]),
                Encoding::UTF16_BE => if s.len() < 2 {
                    None
                } else if 0xD8 <= s[0] && s[0] <= 0xDB {
                    Some(4)
                } else {
                    Some(2)
                },
                Encoding::UTF16_LE => if s.len() < 2 {
                    None
                } else if 0xD8 <= s[1] && s[1] <= 0xDB {
                    Some(4)
                } else {
                    Some(2)
                },
                Encoding::UTF32_BE | Encoding::UTF32_LE => if s.len() < 4 {
                    None
                } else {
                    Some(4)
                },
            }
        }
    }

    /// The code point of the `n`-byte character at the start of `s`.
    pub open spec fn decode_spec(self, s: Seq<u8>, n: nat) -> Option<u32> {
        if self.char_len(s) != Some(n) || n > s.len() {
            None
        } else {
            match self {
                Encoding::ASCII | Encoding::ISO_8859_1 => Some(s[0] as u32),
                Encoding::UTF8 => utf8_decode(s, n),
                Encoding::UTF16_BE => utf16_decode(
                    unit16(s[0], s[1]),
                    if n == 4 { unit16(s[2], s[3]) } else { 0 },
                    n,
                ),
                Encoding::UTF16_LE => utf16_decode(
                    unit16(s[1], s[0]),
                    if n == 4 { unit16(s[3], s[2]) } else { 0 },
                    n,
                ),
                Encoding::UTF32_BE => {
                    let u = unit32(s[0], s[1], s[2], s[3]);
                    if u <= 0x10FFFF { Some(u) } else { None }
                },
                Encoding::UTF32_LE => {
                    let u = unit32(s[3], s[2], s[1], s[0]);
                    if u <= 0x10FFFF { Some(u) } else { None }
                },
            }
        }
    }

    pub fn is_unicode(self) -> (r: bool)
        ensures
            r == self.unicode(),
    {
        match self {
            Encoding::UTF8 | Encoding::UTF16_BE | Encoding::UTF16_LE | Encoding::UTF32_BE
            | Encoding::UTF32_LE => true,
            _ => false,
        }
    }

    pub fn min_len(self) -> (r: usize)
        ensures
            r == self.min_len_spec(),
    {
        match self {
            Encoding::UTF16_BE | Encoding::UTF16_LE => 2,
            Encoding::UTF32_BE | Encoding::UTF32_LE => 4,
            _ => 1,
        }
    }

    pub fn max_len(self) -> (r: usize)
        ensures
            r == self.max_len_spec(),
    {
        match self {
            Encoding::ASCII | Encoding::ISO_8859_1 => 1,
            _ => 4,
        }
    }

    pub fn ascii_transparent(self) -> (r: bool)
        ensures
            r == self.ascii_transparent_spec(),
    {
        match self {
            Encoding::ASCII | Encoding::UTF8 | Encoding::ISO_8859_1 => true,
            _ => false,
        }
    }

    /// The encoding's conventional name.
    pub fn name(self) -> (r: &'static str)
        ensures
            r@ == (match self {
                Encoding::ASCII => "US-ASCII"@,
                Encoding::UTF8 => "UTF-8"@,
                Encoding::UTF16_BE => "UTF-16BE"@,
                Encoding::UTF16_LE => "UTF-16LE"@,
                Encoding::UTF32_BE => "UTF-32BE"@,
                Encoding::UTF32_LE => "UTF-32LE"@,
                Encoding::ISO_8859_1 => "ISO-8859-1"@,
            }),
    {
        match self {
            Encoding::ASCII => "US-ASCII",
            Encoding::UTF8 => "UTF-8",
            Encoding::UTF16_BE => "UTF-16BE",
            Encoding::UTF16_LE => "UTF-16LE",
            Encoding::UTF32_BE => "UTF-32BE",
            Encoding::UTF32_LE => "UTF-32LE",
            Encoding::ISO_8859_1 => "ISO-8859-1",
        }
    }

    /// Length of the character at the start of `s`; an invalid or truncated
    /// character is an `InvalidEncoding` error.
    pub fn mbc_len(self, s: &[u8]) -> (r: Result<usize, Error>)
        ensures
            r matches Ok(n) ==> self.char_len(s@) == Some(n as nat),
            r is Err ==> self.char_len(s@) is None && r->Err_0.kind == ErrorKind::InvalidEncoding,
    {
        if s.len() == 0 {
            return Err(Error::kind_msg(ErrorKind::InvalidEncoding, "empty input"));
        }
        let b = s[0];
        match self {
            Encoding::ASCII | Encoding::ISO_8859_1 => Ok(1),
            Encoding::UTF8 => {
                if b < 0x80 {
                    Ok(1)
                } else if 0xC2 <= b && b <= 0xDF {
                    Ok(2)
                } else if 0xE0 <= b && b <= 0xEF {
                    Ok(3)
                } else if 0xF0 <= b && b <= 0xF4 {
                    Ok(4)
                } else {
                    Err(Error::kind_msg(ErrorKind::InvalidEncoding, "invalid UTF-8 lead byte"))
                }
            },
            Encoding::UTF16_BE | Encoding::UTF16_LE => {
                if s.len() < 2 {
                    return Err(Error::kind_msg(ErrorKind::InvalidEncoding, "truncated UTF-16"));
                }
                let hi = if self == Encoding::UTF16_BE { s[0] } else { s[1] };
                if 0xD8 <= hi && hi <= 0xDB {
                    Ok(4)
                } else {
                    Ok(2)
                }
            },
            Encoding::UTF32_BE | Encoding::UTF32_LE => {
                if s.len() < 4 {
                    Err(Error::kind_msg(ErrorKind::InvalidEncoding, "truncated UTF-32"))
                } else {
                    Ok(4)
                }
            },
        }
    }

    /// Decode the character at the start of `s`, given its length `n`.
    pub fn decode_len(self, s: &[u8], n: usize) -> (r: Result<u32, Error>)
        ensures
            r matches Ok(c) ==> self.decode_spec(s@, n as nat) == Some(c),
            r is Err ==> self.decode_spec(s@, n as nat) is None && r->Err_0.kind
                == ErrorKind::InvalidEncoding,
    {
        let len = match self.mbc_len(s) {
            Ok(len) => len,
            Err(e) => return Err(e),
        };
        if len != n || n > s.len() {
            return Err(Error::kind_msg(ErrorKind::InvalidEncoding, "bad character length"));
        }
        match self {
            Encoding::ASCII | Encoding::ISO_8859_1 => Ok(s[0] as u32),
            Encoding::UTF8 => {
                if n == 1 {
                    Ok(s[0] as u32)
                } else if n == 2 {
                    if s[1] & 0xC0 == 0x80 {
                        Ok((((s[0] & 0x1F) as u32) << 6u32) | ((s[1] & 0x3F) as u32))
                    } else {
                        Err(Error::kind_msg(ErrorKind::InvalidEncoding, "invalid UTF-8"))
                    }
                } else if n == 3 {
                    let cp = (((s[0] & 0x0F) as u32) << 12u32) | (((s[1] & 0x3F) as u32) << 6u32)
                        | ((s[2] & 0x3F) as u32);
                    // An overlong form is no character.
                    if s[1] & 0xC0 == 0x80 && s[2] & 0xC0 == 0x80 && cp >= 0x800 {
                        Ok(cp)
                    } else {
                        Err(Error::kind_msg(ErrorKind::InvalidEncoding, "invalid UTF-8"))
                    }
                } else {
                    let cp = (((s[0] & 0x07) as u32) << 18u32) | (((s[1] & 0x3F) as u32) << 12u32)
                        | (((s[2] & 0x3F) as u32) << 6u32) | ((s[3] & 0x3F) as u32);
                    if s[1] & 0xC0 == 0x80 && s[2] & 0xC0 == 0x80 && s[3] & 0xC0 == 0x80 && cp
                        >= 0x10000 {
                        Ok(cp)
                    } else {
                        Err(Error::kind_msg(ErrorKind::InvalidEncoding, "invalid UTF-8"))
                    }
                }
            },
            Encoding::UTF16_BE | Encoding::UTF16_LE => {
                let be = self == Encoding::UTF16_BE;
                let h0 = if be { s[0] } else { s[1] };
                let l0 = if be { s[1] } else { s[0] };
                let u0 = ((h0 as u32) << 8u32) | (l0 as u32);
                if n == 2 {
                    if 0xDC00 <= u0 && u0 <= 0xDFFF {
                        Err(Error::kind_msg(ErrorKind::InvalidEncoding, "lone low surrogate"))
                    } else {
                        Ok(u0)
                    }
                } else {
                    let h1 = if be { s[2] } else { s[3] };
                    let l1 = if be { s[3] } else { s[2] };
                    let u1 = ((h1 as u32) << 8u32) | (l1 as u32);
                    assert(0xD8 <= h0 && h0 <= 0xDB ==> 0xD800 <= (((h0 as u32) << 8u32) | (l0 as u32))
                        && (((h0 as u32) << 8u32) | (l0 as u32)) <= 0xDBFF) by (bit_vector);
                    if 0xDC00 <= u1 && u1 <= 0xDFFF {
                        let a = u0 - 0xD800;
                        let b = u1 - 0xDC00;
                        assert(a < 0x400 ==> (a << 10u32) < 0x100000) by (bit_vector);
                        Ok(0x10000 + (a << 10u32) + b)
                    } else {
                        Err(Error::kind_msg(ErrorKind::InvalidEncoding, "unpaired surrogate"))
                    }
                }
            },
            Encoding::UTF32_BE | Encoding::UTF32_LE => {
                let u = if self == Encoding::UTF32_BE {
                    ((s[0] as u32) << 24u32) | ((s[1] as u32) << 16u32) | ((s[2] as u32) << 8u32) | (
                    s[3] as u32)
                } else {
                    ((s[3] as u32) << 24u32) | ((s[2] as u32) << 16u32) | ((s[1] as u32) << 8u32) | (
                    s[0] as u32)
                };
                if u <= 0x10FFFF {
                    Ok(u)
                } else {
                    Err(Error::kind_msg(ErrorKind::InvalidEncoding, "code point out of range"))
                }
            },
        }
    }

    /// Length and code point of the character at the start of `s`.
    pub fn mbc_to_code(self, s: &[u8]) -> (r: Result<u32, Error>)
        ensures
            r matches Ok(c) ==> exists|n: nat| self.char_len(s@) == Some(n) && self.decode_spec(s@, n)
                == Some(c),
            r is Err ==> r->Err_0.kind == ErrorKind::InvalidEncoding,
    {
        let n = match self.mbc_len(s) {
            Ok(n) => n,
            Err(e) => return Err(e),
        };
        self.decode_len(s, n)
    }

    /// Where the character ending at `pos` starts, reading back no further
    /// than `start`: one unit back, or for UTF-8 over up to three
    /// continuation bytes, or for UTF-16 over a surrogate pair.
    pub open spec fn prev_start_spec(self, hay: Seq<u8>, start: int, pos: int) -> Option<int> {
        if pos < start + self.min_len_spec() {
            None
        } else {
            match self {
                Encoding::UTF8 => Some(pos - 1 - utf8_back(hay, start, pos - 1, 0)),
                Encoding::UTF16_BE | Encoding::UTF16_LE => {
                    let q = pos - 2;
                    let hi = if self == Encoding::UTF16_BE { hay[q] } else { hay[q + 1] };
                    let hi2 = if self == Encoding::UTF16_BE { hay[q - 2] } else { hay[q - 1] };
                    if q >= start + 2 && 0xDC <= hi <= 0xDF && 0xD8 <= hi2 <= 0xDB {
                        Some(q - 2)
                    } else {
                        Some(q)
                    }
                },
                _ => Some(pos - self.min_len_spec()),
            }
        }
    }

    /// Start of the character that ends at `pos`, never before `start`.
    pub fn prev_char_start(self, hay: &[u8], start: usize, pos: usize) -> (r: Option<usize>)
        requires
            pos <= hay@.len(),
        ensures
            r matches Some(q) ==> start <= q < pos,
            match r {
                Some(q) => self.prev_start_spec(hay@, start as int, pos as int) == Some(q as int),
                None => self.prev_start_spec(hay@, start as int, pos as int) is None,
            },
    {
        let w = self.min_len();
        if pos < start || pos - start < w {
            return None;
        }
        match self {
            Encoding::ASCII | Encoding::ISO_8859_1 => Some(pos - 1),
            Encoding::UTF8 => {
                let mut q = pos - 1;
                let mut k: usize = 0;
                while q > start && k < 3 && hay[q] & 0xC0 == 0x80
                    invariant
                        start <= q < pos,
                        pos <= hay@.len(),
                        k <= 3,
                        q == pos - 1 - k,
                        utf8_back(hay@, start as int, pos - 1, 0) == k + utf8_back(
                            hay@,
                            start as int,
                            q as int,
                            k as int,
                        ),
                    decreases q,
                {
                    q = q - 1;
                    k = k + 1;
                }
                Some(q)
            },
            Encoding::UTF16_BE | Encoding::UTF16_LE => {
                let q = pos - 2;
                if q >= start + 2 {
                    let hi = if self == Encoding::UTF16_BE { hay[q] } else { hay[q + 1] };
                    if 0xDC <= hi && hi <= 0xDF {
                        let hi2 = if self == Encoding::UTF16_BE { hay[q - 2] } else { hay[q - 1] };
                        if 0xD8 <= hi2 && hi2 <= 0xDB {
                            return Some(q - 2);
                        }
                    }
                }
                Some(q)
            },
            Encoding::UTF32_BE | Encoding::UTF32_LE => Some(pos - 4),
        }
    }
}

} // verus!
