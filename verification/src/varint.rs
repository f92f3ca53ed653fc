//! The variable-length integer that prefixes every count and length.
//!
//! A value up to `0xFC` is one byte. A larger one is a marker byte (`0xFD`,
//! `0xFE` or `0xFF`) followed by the value in two, four or eight bytes, least
//! significant first. Only the shortest form of a value is accepted.

use vstd::prelude::*;
use crate::bytes::{
    le_bytes, le_value, lemma_le_bytes_len, lemma_le_bytes_of_value, lemma_le_value_bound,
    lemma_le_value_of_bytes, lemma_pow256_values, read_le, splice, write_le,
};
use crate::error::Error;

verus! {

/// How many bytes the encoding of `value` takes: 1, 3, 5 or 9.
pub open spec fn varint_len(value: u64) -> nat {
    if value <= 0xFC {
        1
    } else if value <= 0xFFFF {
        3
    } else if value <= 0xFFFF_FFFF {
        5
    } else {
        9
    }
}

/// How many bytes follow a first byte `tag`: 0, 2, 4 or 8.
pub open spec fn tail_width(tag: u8) -> nat {
    if tag == 0xFF {
        8
    } else if tag == 0xFE {
        4
    } else if tag == 0xFD {
        2
    } else {
        0
    }
}

/// The encoding of `value`.
pub open spec fn varint_bytes(value: u64) -> Seq<u8> {
    if value <= 0xFC {
        seq![value as u8]
    } else if value <= 0xFFFF {
        seq![0xFDu8] + le_bytes(value as nat, 2)
    } else if value <= 0xFFFF_FFFF {
        seq![0xFEu8] + le_bytes(value as nat, 4)
    } else {
        seq![0xFFu8] + le_bytes(value as nat, 8)
    }
}

/// What reading one integer from the start of `bytes` gives. On success the
/// integer took `varint_len` of its value bytes.
pub open spec fn varint_parse(bytes: Seq<u8>) -> Result<u64, Error> {
    if bytes.len() == 0 {
        Err(Error::UnexpectedEof)
    } else {
        let width = tail_width(bytes[0]);
        if width == 0 {
            Ok(bytes[0] as u64)
        } else if bytes.len() < 1 + width {
            Err(Error::UnexpectedEof)
        } else {
            let value = le_value(bytes.subrange(1, (1 + width) as int)) as u64;
            if varint_len(value) != 1 + width {
                Err(Error::NonMinimalVarInt)
            } else {
                Ok(value)
            }
        }
    }
}

/// The encoding of a value has the length that the value calls for.
pub proof fn lemma_varint_bytes_len(value: u64)
    ensures
        varint_bytes(value).len() == varint_len(value),
        1 <= varint_len(value) <= 9,
{
    lemma_le_bytes_len(value as nat, 2);
    lemma_le_bytes_len(value as nat, 4);
    lemma_le_bytes_len(value as nat, 8);
}

/// An encoded integer is read back, whatever follows it.
pub proof fn lemma_parse_of_varint_bytes(value: u64, rest: Seq<u8>)
    ensures
        varint_parse(varint_bytes(value) + rest) == Ok::<u64, Error>(value),
{
    lemma_varint_bytes_len(value);
    lemma_pow256_values();
    let bytes = varint_bytes(value) + rest;
    if value > 0xFC {
        let width = (varint_len(value) - 1) as nat;
        assert(bytes.subrange(1, (1 + width) as int) =~= le_bytes(value as nat, width));
        lemma_le_value_of_bytes(value as nat, width);
    }
}

/// Whatever is read was written in the one accepted form.
pub proof fn lemma_parse_is_canonical(bytes: Seq<u8>)
    requires
        varint_parse(bytes) is Ok,
    ensures
        varint_len(varint_parse(bytes).unwrap()) <= bytes.len(),
        bytes.take(varint_len(varint_parse(bytes).unwrap()) as int) == varint_bytes(
            varint_parse(bytes).unwrap(),
        ),
{
    let width = tail_width(bytes[0]);
    lemma_pow256_values();
    if width > 0 {
        let tail = bytes.subrange(1, (1 + width) as int);
        lemma_le_value_bound(tail);
        lemma_le_bytes_of_value(tail);
    }
}

/// Appends the `width` low bytes of `value`, least significant first.
pub(crate) fn push_le(w: &mut Vec<u8>, value: u64, width: usize)
    requires
        width <= 8,
    ensures
        final(w)@ == old(w)@ + le_bytes(value as nat, width as nat),
    decreases width,
{
    if width > 0 {
        w.push((value % 256) as u8);
        push_le(w, value / 256, width - 1);
    }
}

/// A variable-length integer.
#[derive(Clone, Copy, Debug, PartialEq, Eq)]
pub struct VarInt(pub u64);

impl VarInt {
    /// The number of bytes that the encoding takes.
    pub fn len(&self) -> (n: usize)
        ensures
            n == varint_len(self.0),
    {
        if self.0 <= 0xFC {
            1
        } else if self.0 <= 0xFFFF {
            3
        } else if self.0 <= 0xFFFF_FFFF {
            5
        } else {
            9
        }
    }

    /// How many bytes follow a first byte `tag`: 0, 2, 4 or 8.
    pub fn tail_len(tag: u8) -> (n: usize)
        ensures
            n == tail_width(tag),
    {
        if tag == 0xFF {
            8
        } else if tag == 0xFE {
            4
        } else if tag == 0xFD {
            2
        } else {
            0
        }
    }

    /// Appends the encoding to `w` and returns the number of bytes written.
    pub fn consensus_encode(&self, w: &mut Vec<u8>) -> (written: usize)
        ensures
            final(w)@ == old(w)@ + varint_bytes(self.0),
            written == varint_len(self.0),
    {
        let n: usize = self.len();
        if n == 1 {
            w.push(self.0 as u8);
        } else {
            let tag: u8 = if n == 3 {
                0xFD
            } else if n == 5 {
                0xFE
            } else {
                0xFF
            };
            w.push(tag);
            push_le(w, self.0, n - 1);
        }
        n
    }

    /// Writes the encoding over `buf` from position `pos` on.
    pub fn encode_at(&self, buf: &mut Vec<u8>, pos: usize)
        requires
            pos + varint_len(self.0) <= old(buf).len(),
        ensures
            final(buf)@ == splice(old(buf)@, pos as int, varint_bytes(self.0)),
    {
        let n: usize = self.len();
        if n == 1 {
            buf[pos] = self.0 as u8;
        } else {
            let tag: u8 = if n == 3 {
                0xFD
            } else if n == 5 {
                0xFE
            } else {
                0xFF
            };
            buf[pos] = tag;
            write_le(buf, pos + 1, self.0, n - 1);
            proof {
                lemma_le_bytes_len(self.0 as nat, (n - 1) as nat);
            }
        }
    }

    /// Reads one integer from the start of `bytes`.
    pub fn consensus_decode(bytes: &[u8]) -> (r: Result<VarInt, Error>)
        ensures
            match varint_parse(bytes@) {
                Ok(value) => r matches Ok(v) && v.0 == value,
                Err(e) => r matches Err(x) && x == e,
            },
    {
        if bytes.len() == 0 {
            return Err(Error::UnexpectedEof);
        }
        let tag: u8 = bytes[0];
        let width: usize = VarInt::tail_len(tag);
        if width == 0 {
            return Ok(VarInt(tag as u64));
        }
        if bytes.len() - 1 < width {
            return Err(Error::UnexpectedEof);
        }
        let value: u64 = read_le(bytes, 1, width);
        if VarInt(value).len() != 1 + width {
            Err(Error::NonMinimalVarInt)
        } else {
            Ok(VarInt(value))
        }
    }
}

} // verus!
