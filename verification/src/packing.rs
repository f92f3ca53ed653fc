//! Reading and writing packed buffers: slots, entries, and the check that a
//! buffer is packed.

use vstd::prelude::*;
use vstd::slice::slice_subrange;
use crate::bytes::{
    le_bytes, lemma_le_bytes_len, lemma_le_bytes_of_value, lemma_le_value_bound,
    lemma_pow256_values, read_le, shift_right, splice, write_bytes, write_le,
};
use crate::error::Error;
use crate::layout::{
    element_at, entry, fits, fits_with, index_table, is_packed, lemma_fits_bounds,
    lemma_fits_with, lemma_index_table_len, lemma_offset_monotonic, lemma_offset_step,
    lemma_prefix, lemma_push, lemma_read_packed, offset, packed, payload, slot, unpacked,
};
use crate::varint::{
    lemma_parse_is_canonical, lemma_varint_bytes_len, varint_len, varint_parse, VarInt,
};

verus! {

/// The view of an optional byte string.
pub open spec fn bytes_of(r: Option<&[u8]>) -> Option<Seq<u8>> {
    match r {
        Some(s) => Some(s@),
        None => None,
    }
}

/// The offset in slot `index` of the index region that begins at
/// `start_of_indices`, if the buffer holds that slot.
pub open spec fn slot_at(content: Seq<u8>, start_of_indices: int, index: int) -> Option<usize> {
    if start_of_indices + 4 * index + 4 <= content.len() {
        Some(slot(content, start_of_indices, index) as usize)
    } else {
        None
    }
}

/// The byte strings that a list of vectors holds.
pub open spec fn byte_strings(v: Seq<Vec<u8>>) -> Seq<Seq<u8>> {
    v.map_values(|e: Vec<u8>| e@)
}

/// Writes `value` into slot `index` of the index region that begins at
/// `start_of_indices`.
pub fn encode_cursor(bytes: &mut Vec<u8>, start_of_indices: usize, index: usize, value: usize)
    requires
        start_of_indices + 4 * index + 4 <= old(bytes).len(),
        value <= u32::MAX,
    ensures
        final(bytes)@ == splice(
            old(bytes)@,
            start_of_indices + 4 * index,
            le_bytes(value as nat, 4),
        ),
{
    let start: usize = start_of_indices + index * 4;
    write_le(bytes, start, value as u64, 4);
}

/// Reads slot `index` of the index region that begins at `start_of_indices`.
/// Absent where the buffer ends before the end of that slot.
pub fn decode_cursor(bytes: &[u8], start_of_indices: usize, index: usize) -> (r: Option<usize>)
    ensures
        r == slot_at(bytes@, start_of_indices as int, index as int),
{
    let total: usize = bytes.len();
    let scaled: usize = match index.checked_mul(4) {
        Some(v) => v,
        None => { return None; },
    };
    let start: usize = match start_of_indices.checked_add(scaled) {
        Some(v) => v,
        None => { return None; },
    };
    let end: usize = match start.checked_add(4) {
        Some(v) => v,
        None => { return None; },
    };
    if end > total {
        None
    } else {
        let value: u64 = read_le(bytes, start, 4);
        proof {
            lemma_pow256_values();
        }
        Some(value as usize)
    }
}

/// Reads the element whose length prefix begins at `pos`. Absent where no
/// length prefix can be read there, or where the buffer ends before the
/// element does.
pub fn read_element(content: &[u8], pos: usize) -> (r: Option<&[u8]>)
    ensures
        bytes_of(r) == element_at(content@, pos as int),
{
    if pos > content.len() {
        return None;
    }
    let tail = slice_subrange(content, pos, content.len());
    match VarInt::consensus_decode(tail) {
        Err(_) => None,
        Ok(varint) => {
            proof {
                lemma_parse_is_canonical(tail@);
            }
            let start: usize = pos + varint.len();
            if varint.0 > (content.len() - start) as u64 {
                None
            } else {
                Some(slice_subrange(content, start, start + varint.0 as usize))
            }
        },
    }
}

/// Writes the entry of `element` over the buffer from position `pos` on, and
/// returns the position behind it.
pub(crate) fn write_entry(content: &mut Vec<u8>, pos: usize, element: &[u8]) -> (next: usize)
    requires
        pos + entry(element@).len() <= old(content).len(),
    ensures
        next == pos + entry(element@).len(),
        final(content)@ == splice(old(content)@, pos as int, entry(element@)),
{
    proof {
        lemma_varint_bytes_len(element@.len() as u64);
    }
    let el_len_varint = VarInt(element.len() as u64);
    el_len_varint.encode_at(content, pos);
    let start: usize = pos + el_len_varint.len();
    write_bytes(content, start, element);
    start + element.len()
}

/// What a buffer holds once slot `i` and the entry at `cursor` are written:
/// the payload written so far grows by the entry, and the index region by
/// the slot.
pub(crate) proof fn lemma_recorded(
    before: Seq<u8>,
    now: Seq<u8>,
    indices_start: int,
    i: int,
    cursor: int,
    written: Seq<u8>,
    slot_bytes: Seq<u8>,
)
    requires
        0 <= i,
        0 <= cursor,
        cursor + written.len() <= indices_start,
        indices_start + 4 * (i + 1) <= before.len(),
        slot_bytes.len() == 4,
        now == splice(splice(before, indices_start + 4 * i, slot_bytes), cursor, written),
    ensures
        now.len() == before.len(),
        now.subrange(0, cursor + written.len()) == before.subrange(0, cursor) + written,
        now.subrange(indices_start, indices_start + 4 * (i + 1)) == before.subrange(
            indices_start,
            indices_start + 4 * i,
        ) + slot_bytes,
{
    assert(now.subrange(indices_start, indices_start + 4 * (i + 1)) =~= before.subrange(
        indices_start,
        indices_start + 4 * i,
    ) + slot_bytes);
}

/// Puts the entry of `element` between the payload region, which ends at
/// `indices_start`, and the index region, and gives the index region one more
/// slot, which holds `indices_start`. Returns the size of the entry.
///
/// The buffer grows by the entry and the slot. The index region moves to the
/// right by the size of the entry, and the entry is written into the gap.
pub(crate) fn insert_entry(content: &mut Vec<u8>, indices_start: usize, element: &[u8]) -> (added: usize)
    requires
        indices_start <= old(content).len(),
        indices_start <= u32::MAX,
        (old(content).len() - indices_start) % 4 == 0,
        old(content).len() + entry(element@).len() + 4 <= usize::MAX,
    ensures
        added == entry(element@).len(),
        final(content)@ == old(content)@.subrange(0, indices_start as int) + entry(element@) + old(
            content,
        )@.skip(indices_start as int) + le_bytes(indices_start as nat, 4),
{
    proof {
        lemma_varint_bytes_len(element@.len() as u64);
        lemma_le_bytes_len(indices_start as nat, 4);
    }
    let element_len_varint = VarInt(element.len() as u64);
    let current_content_len: usize = content.len();
    let new_item_total_len: usize = element_len_varint.len() + element.len();
    content.resize(current_content_len + new_item_total_len + 4, 0);
    shift_right(content, indices_start, new_item_total_len);
    let new_start: usize = indices_start + new_item_total_len;
    let slots: usize = (current_content_len - indices_start) / 4;
    encode_cursor(content, new_start, slots, indices_start);
    write_entry(content, indices_start, element);
    new_item_total_len
}

/// A packed buffer with an entry put between its regions and a slot behind
/// them is the packed buffer of the stack with that element appended.
pub(crate) proof fn lemma_pushed(
    elements: Seq<Seq<u8>>,
    e: Seq<u8>,
    before: Seq<u8>,
    now: Seq<u8>,
)
    requires
        before == packed(elements),
        fits_with(elements, e.len()),
        now == before.subrange(0, payload(elements).len() as int) + entry(e) + before.skip(
            payload(elements).len() as int,
        ) + le_bytes(payload(elements).len(), 4),
    ensures
        fits(elements.push(e)),
        now == packed(elements.push(e)),
        payload(elements.push(e)).len() == payload(elements).len() + entry(e).len(),
{
    lemma_fits_with(elements, e);
    lemma_push(elements, e);
}

/// Whether the elements of `list` can be packed: whether
/// [`Witness::from_vec`] may be called on it.
pub fn list_fits(list: &Vec<Vec<u8>>) -> (ok: bool)
    ensures
        ok == fits(byte_strings(list@)),
{
    let ghost elements = byte_strings(list@);
    let count: usize = list.len();
    let mut total: usize = 0;
    let mut i: usize = 0;
    while i < count
        invariant
            i <= count == list.len(),
            elements == byte_strings(list@),
            total == offset(elements, i as int),
            i > 0 ==> offset(elements, i - 1) <= u32::MAX,
        decreases count - i,
    {
        proof {
            lemma_offset_step(elements, i as int);
            lemma_varint_bytes_len(elements[i as int].len() as u64);
            lemma_offset_monotonic(elements, i as int, count - 1);
            lemma_prefix(elements, i + 1);
        }
        if total > u32::MAX as usize {
            return false;
        }
        let el_len: usize = list[i].len();
        let with_element: usize = match total.checked_add(el_len) {
            Some(v) => v,
            None => { return false; },
        };
        total = match with_element.checked_add(VarInt(el_len as u64).len()) {
            Some(v) => v,
            None => { return false; },
        };
        i += 1;
    }
    proof {
        assert(elements.take(count as int) == elements);
        if count > 0 {
            assert(elements.drop_last() == elements.take(count - 1));
        }
    }
    match count.checked_mul(4) {
        Some(index_size) => total.checked_add(index_size).is_some(),
        None => false,
    }
}

/// One step of checking a buffer: where the slot of element `i` points at
/// `cursor`, a length prefix is read there and the element ends inside the
/// payload region, what was found to be packed so far grows by element `i`.
proof fn lemma_checked_step(
    content: Seq<u8>,
    count: nat,
    indices_start: int,
    i: int,
    cursor: int,
    size: u64,
)
    requires
        0 <= i < count,
        0 <= cursor,
        indices_start + 4 * count == content.len(),
        slot(content, indices_start, i) == cursor,
        varint_parse(content.skip(cursor)) == Ok::<u64, Error>(size),
        cursor + varint_len(size) + size <= indices_start,
        content.subrange(0, cursor) == payload(unpacked(content, count, indices_start).take(i)),
        content.subrange(indices_start, indices_start + 4 * i) == index_table(
            unpacked(content, count, indices_start).take(i),
        ),
    ensures
        cursor <= u32::MAX,
        content.subrange(0, cursor + varint_len(size) + size) == payload(
            unpacked(content, count, indices_start).take(i + 1),
        ),
        content.subrange(indices_start, indices_start + 4 * (i + 1)) == index_table(
            unpacked(content, count, indices_start).take(i + 1),
        ),
{
    let elements = unpacked(content, count, indices_start);
    let start = cursor + varint_len(size);
    let e = content.subrange(start, start + size);
    let slot_bytes = content.subrange(indices_start + 4 * i, indices_start + 4 * i + 4);
    assert(elements[i] == e);
    lemma_offset_step(elements, i);
    lemma_parse_is_canonical(content.skip(cursor));
    assert(content.subrange(cursor, start) == content.skip(cursor).take(varint_len(size) as int));
    assert(content.subrange(0, start + size) == content.subrange(0, cursor) + entry(e));
    lemma_le_value_bound(slot_bytes);
    lemma_le_bytes_of_value(slot_bytes);
    lemma_pow256_values();
    assert(content.subrange(indices_start, indices_start + 4 * (i + 1)) == content.subrange(
        indices_start,
        indices_start + 4 * i,
    ) + slot_bytes);
}

/// What holds of element `i` in a buffer that is packed: its slot holds its
/// offset, a length prefix is read there, and the element ends inside the
/// payload region.
proof fn lemma_packed_step(content: Seq<u8>, count: nat, indices_start: int, i: int)
    requires
        is_packed(content, count, indices_start),
        0 <= i < count,
    ensures
        ({
            let elements = unpacked(content, count, indices_start);
            let at = offset(elements, i) as int;
            let size = elements[i].len() as u64;
            &&& content.len() == indices_start + 4 * count
            &&& slot(content, indices_start, i) == at
            &&& varint_parse(content.skip(at)) == Ok::<u64, Error>(size)
            &&& at + varint_len(size) + size == offset(elements, i + 1)
            &&& offset(elements, i + 1) <= indices_start
        }),
{
    let elements = unpacked(content, count, indices_start);
    lemma_read_packed(elements, i);
    lemma_fits_bounds(elements, i);
}

/// Whether `content` is the packed form of a stack of `witness_elements`
/// elements whose index region begins at `indices_start`.
///
/// The slots are followed in order: each must point at the end of the entry
/// before it, a length prefix must be read there, and the last entry must end
/// where the index region begins.
pub fn check_packed(content: &[u8], witness_elements: usize, indices_start: usize) -> (ok: bool)
    ensures
        ok == is_packed(content@, witness_elements as nat, indices_start as int),
{
    let ghost elements = unpacked(content@, witness_elements as nat, indices_start as int);
    proof {
        lemma_index_table_len(elements);
    }
    let index_size: usize = match witness_elements.checked_mul(4) {
        Some(v) => v,
        None => { return false; },
    };
    if indices_start > content.len() || content.len() - indices_start != index_size {
        return false;
    }
    let mut cursor: usize = 0;
    let mut i: usize = 0;
    assert(content@.subrange(indices_start as int, indices_start as int) =~= index_table(
        elements.take(0),
    ));
    while i < witness_elements
        invariant
            i <= witness_elements,
            cursor <= indices_start,
            indices_start + 4 * witness_elements == content.len(),
            elements == unpacked(content@, witness_elements as nat, indices_start as int),
            content@.subrange(0, cursor as int) == payload(elements.take(i as int)),
            content@.subrange(indices_start as int, indices_start + 4 * i) == index_table(
                elements.take(i as int),
            ),
            i > 0 ==> offset(elements, i - 1) <= u32::MAX,
        decreases witness_elements - i,
    {
        proof {
            lemma_le_value_bound(
                content@.subrange(indices_start + 4 * i, indices_start + 4 * i + 4),
            );
            lemma_pow256_values();
            if is_packed(content@, witness_elements as nat, indices_start as int) {
                lemma_packed_step(
                    content@,
                    witness_elements as nat,
                    indices_start as int,
                    i as int,
                );
            }
        }
        let pos: usize = match decode_cursor(content, indices_start, i) {
            Some(pos) => pos,
            None => { return false; },
        };
        if pos != cursor {
            return false;
        }
        let tail = slice_subrange(content, cursor, content.len());
        assert(tail@ == content@.skip(cursor as int));
        let varint = match VarInt::consensus_decode(tail) {
            Ok(v) => v,
            Err(_) => { return false; },
        };
        if varint.0 > (indices_start - cursor) as u64 {
            return false;
        }
        let size: usize = varint.0 as usize;
        let prefix: usize = varint.len();
        if prefix > indices_start - cursor - size {
            return false;
        }
        proof {
            lemma_checked_step(
                content@,
                witness_elements as nat,
                indices_start as int,
                i as int,
                cursor as int,
                varint.0,
            );
        }
        cursor += prefix + size;
        i += 1;
    }
    proof {
        assert(elements.take(i as int) == elements);
        if cursor == indices_start {
            assert(content@ == packed(elements));
            if witness_elements > 0 {
                assert(elements.drop_last() == elements.take(witness_elements - 1));
            }
        }
    }
    cursor == indices_start
}

} // verus!
