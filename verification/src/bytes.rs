//! Little-endian numbers inside byte strings, and overwriting part of a buffer.

use vstd::prelude::*;

verus! {

/// 256 to the power `k`.
pub open spec fn pow256(k: nat) -> nat
    decreases k,
{
    if k == 0 {
        1
    } else {
        256 * pow256((k - 1) as nat)
    }
}

/// The `width` low bytes of `value`, least significant first.
pub open spec fn le_bytes(value: nat, width: nat) -> Seq<u8>
    decreases width,
{
    if width == 0 {
        Seq::empty()
    } else {
        seq![(value % 256) as u8] + le_bytes(value / 256, (width - 1) as nat)
    }
}

/// The number that `bytes` spells, least significant byte first.
pub open spec fn le_value(bytes: Seq<u8>) -> nat
    decreases bytes.len(),
{
    if bytes.len() == 0 {
        0
    } else {
        bytes[0] as nat + 256 * le_value(bytes.drop_first())
    }
}

/// `buf` with `patch` written over it from position `pos` on.
pub open spec fn splice(buf: Seq<u8>, pos: int, patch: Seq<u8>) -> Seq<u8> {
    buf.subrange(0, pos) + patch + buf.subrange(pos + patch.len(), buf.len() as int)
}

/// The powers of 256 up to the eighth.
pub proof fn lemma_pow256_values()
    ensures
        pow256(0) == 1,
        pow256(1) == 0x100,
        pow256(2) == 0x1_0000,
        pow256(3) == 0x100_0000,
        pow256(4) == 0x1_0000_0000,
        pow256(5) == 0x100_0000_0000,
        pow256(6) == 0x1_0000_0000_0000,
        pow256(7) == 0x100_0000_0000_0000,
        pow256(8) == 0x1_0000_0000_0000_0000,
{
    reveal_with_fuel(pow256, 10);
}

/// A number written in `width` bytes takes `width` bytes.
pub proof fn lemma_le_bytes_len(value: nat, width: nat)
    ensures
        le_bytes(value, width).len() == width,
    decreases width,
{
    if width > 0 {
        lemma_le_bytes_len(value / 256, (width - 1) as nat);
    }
}

/// What `n` bytes spell is below 256 to the power `n`.
pub proof fn lemma_le_value_bound(bytes: Seq<u8>)
    ensures
        le_value(bytes) < pow256(bytes.len()),
    decreases bytes.len(),
{
    if bytes.len() > 0 {
        lemma_le_value_bound(bytes.drop_first());
    }
}

/// Reading back what was written gives the number, if it fits the width.
pub proof fn lemma_le_value_of_bytes(value: nat, width: nat)
    requires
        value < pow256(width),
    ensures
        le_value(le_bytes(value, width)) == value,
    decreases width,
{
    if width > 0 {
        let rest = le_bytes(value / 256, (width - 1) as nat);
        lemma_le_bytes_len(value / 256, (width - 1) as nat);
        assert(le_bytes(value, width).drop_first() =~= rest);
        lemma_le_value_of_bytes(value / 256, (width - 1) as nat);
    }
}

/// Writing the number that a byte string spells gives the byte string back.
pub proof fn lemma_le_bytes_of_value(bytes: Seq<u8>)
    ensures
        le_bytes(le_value(bytes), bytes.len()) == bytes,
    decreases bytes.len(),
{
    if bytes.len() > 0 {
        lemma_le_bytes_of_value(bytes.drop_first());
    }
}

/// Reads `width` bytes at `pos` as one number, least significant byte first.
pub fn read_le(bytes: &[u8], pos: usize, width: usize) -> (value: u64)
    requires
        width <= 8,
        pos + width <= bytes.len(),
    ensures
        value == le_value(bytes@.subrange(pos as int, pos + width)),
        value < pow256(width as nat),
    decreases width,
{
    if width == 0 {
        0
    } else {
        let low: u8 = bytes[pos];
        let high: u64 = read_le(bytes, pos + 1, width - 1);
        proof {
            lemma_pow256_values();
            let whole = bytes@.subrange(pos as int, pos + width);
            assert(whole.drop_first() =~= bytes@.subrange(pos + 1, pos + width));
            assert(pow256((width - 1) as nat) <= pow256(7)) by {
                reveal_with_fuel(pow256, 10);
            }
        }
        low as u64 + 256 * high
    }
}

/// Writes the `width` low bytes of `value` at `pos`, least significant first.
pub fn write_le(buf: &mut Vec<u8>, pos: usize, value: u64, width: usize)
    requires
        width <= 8,
        pos + width <= old(buf).len(),
    ensures
        final(buf)@ == splice(old(buf)@, pos as int, le_bytes(value as nat, width as nat)),
    decreases width,
{
    if width > 0 {
        let low: u8 = (value % 256) as u8;
        buf[pos] = low;
        write_le(buf, pos + 1, value / 256, width - 1);
        proof {
            lemma_le_bytes_len((value / 256) as nat, (width - 1) as nat);
            lemma_le_bytes_len(value as nat, width as nat);
        }
    }
}

/// Copies `src` over `buf` from position `pos` on.
pub fn write_bytes(buf: &mut Vec<u8>, pos: usize, src: &[u8])
    requires
        pos + src.len() <= old(buf).len(),
    ensures
        final(buf)@ == splice(old(buf)@, pos as int, src@),
{
    let mut i: usize = 0;
    while i < src.len()
        invariant
            i <= src.len(),
            pos + src.len() <= buf.len(),
            buf.len() == old(buf).len(),
            buf@ == splice(old(buf)@, pos as int, src@.take(i as int)),
        decreases src.len() - i,
    {
        let b: u8 = src[i];
        buf[pos + i] = b;
        i += 1;
    }
}

/// Moves everything from position `start` on `k` places to the right. The
/// last `k` bytes are lost, and the `k` bytes from `start` on stay as they are.
pub fn shift_right(buf: &mut Vec<u8>, start: usize, k: usize)
    requires
        start + k <= old(buf).len(),
    ensures
        final(buf)@.len() == old(buf)@.len(),
        forall|i: int| 0 <= i < start + k ==> final(buf)@[i] == old(buf)@[i],
        forall|i: int| start + k <= i < old(buf)@.len() ==> final(buf)@[i] == old(buf)@[i - k],
{
    let mut j: usize = buf.len();
    while j > start + k
        invariant
            start + k <= j <= buf.len(),
            buf.len() == old(buf).len(),
            forall|i: int| 0 <= i < j ==> buf@[i] == old(buf)@[i],
            forall|i: int| j <= i < buf@.len() ==> buf@[i] == old(buf)@[i - k],
        decreases j,
    {
        j -= 1;
        let b: u8 = buf[j - k];
        buf[j] = b;
    }
}

} // verus!
