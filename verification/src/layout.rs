//! The packed layout of a witness stack, as a function of its elements.
//!
//! The buffer holds two regions. The payload region is every element in
//! stack order, each behind its length prefix. The index region follows it
//! and holds, for every element, the position of its length prefix in four
//! bytes, least significant first.

use vstd::prelude::*;
use crate::bytes::{
    le_bytes, le_value, lemma_le_bytes_len, lemma_le_value_of_bytes, lemma_pow256_values, pow256,
};
use crate::error::Error;
use crate::varint::{
    lemma_parse_of_varint_bytes, lemma_varint_bytes_len, varint_bytes, varint_len, varint_parse,
};

verus! {

/// One element as the payload region holds it: length prefix, then bytes.
pub open spec fn entry(element: Seq<u8>) -> Seq<u8> {
    varint_bytes(element.len() as u64) + element
}

/// The payload region of a stack.
pub open spec fn payload(elements: Seq<Seq<u8>>) -> Seq<u8>
    decreases elements.len(),
{
    if elements.len() == 0 {
        Seq::empty()
    } else {
        payload(elements.drop_last()) + entry(elements.last())
    }
}

/// Where the entry of element `i` begins: the size of what stands before it.
pub open spec fn offset(elements: Seq<Seq<u8>>, i: int) -> nat {
    payload(elements.take(i)).len()
}

/// The index region of a stack.
pub open spec fn index_table(elements: Seq<Seq<u8>>) -> Seq<u8>
    decreases elements.len(),
{
    if elements.len() == 0 {
        Seq::empty()
    } else {
        index_table(elements.drop_last()) + le_bytes(payload(elements.drop_last()).len(), 4)
    }
}

/// The whole buffer of a stack.
pub open spec fn packed(elements: Seq<Seq<u8>>) -> Seq<u8> {
    payload(elements) + index_table(elements)
}

/// Whether a stack can be packed: every offset fits in four bytes, and the
/// size of the buffer in a `usize`.
pub open spec fn fits(elements: Seq<Seq<u8>>) -> bool {
    &&& elements.len() > 0 ==> payload(elements.drop_last()).len() <= u32::MAX
    &&& payload(elements).len() + 4 * elements.len() <= usize::MAX
}

/// Whether a stack still fits once an element of `len` bytes is appended.
pub open spec fn fits_with(elements: Seq<Seq<u8>>, len: nat) -> bool {
    &&& payload(elements).len() <= u32::MAX
    &&& payload(elements).len() + varint_len(len as u64) + len + 4 * (elements.len() + 1)
        <= usize::MAX
}

/// The offset that slot `i` of the index region holds.
pub open spec fn slot(content: Seq<u8>, indices_start: int, i: int) -> nat {
    le_value(content.subrange(indices_start + 4 * i, indices_start + 4 * i + 4))
}

/// The element whose length prefix begins at `pos`, if a length prefix can
/// be read there and the buffer holds as many bytes behind it as it says.
pub open spec fn element_at(content: Seq<u8>, pos: int) -> Option<Seq<u8>> {
    if pos < 0 || pos > content.len() {
        None
    } else {
        match varint_parse(content.skip(pos)) {
            Ok(n) => {
                let start = pos + varint_len(n);
                if start + n <= content.len() {
                    Some(content.subrange(start, start + n))
                } else {
                    None
                }
            },
            Err(_) => None,
        }
    }
}

/// Element `i` as a buffer yields it: the slot is followed to its entry.
pub open spec fn element(content: Seq<u8>, indices_start: int, i: int) -> Seq<u8> {
    match element_at(content, slot(content, indices_start, i) as int) {
        Some(e) => e,
        None => Seq::empty(),
    }
}

/// The stack that a buffer yields when read as `count` elements with the
/// index region at `indices_start`.
pub open spec fn unpacked(content: Seq<u8>, count: nat, indices_start: int) -> Seq<Seq<u8>> {
    Seq::new(count, |i: int| element(content, indices_start, i))
}

/// Where the entry of element `i` ends, as a buffer yields it.
pub open spec fn entry_end(content: Seq<u8>, indices_start: int, i: int) -> nat {
    slot(content, indices_start, i) + entry(element(content, indices_start, i)).len()
}

/// Whether a buffer, a count and a boundary are the packed form of a stack.
pub open spec fn is_packed(content: Seq<u8>, count: nat, indices_start: int) -> bool {
    let elements = unpacked(content, count, indices_start);
    &&& fits(elements)
    &&& content == packed(elements)
    &&& indices_start == payload(elements).len()
}

/// Appending an element appends its entry to the payload, and to the index
/// table the slot that holds where the entry begins.
pub proof fn lemma_push(elements: Seq<Seq<u8>>, e: Seq<u8>)
    ensures
        payload(elements.push(e)) == payload(elements) + entry(e),
        index_table(elements.push(e)) == index_table(elements) + le_bytes(
            payload(elements).len(),
            4,
        ),
{
    assert(elements.push(e).drop_last() =~= elements);
}

/// The payload of a stack of one element is the entry of that element.
pub proof fn lemma_payload_single(e: Seq<u8>)
    ensures
        payload(seq![e]) == entry(e),
{
    lemma_push(Seq::empty(), e);
}

/// The payload of two runs of elements is the payload of the first, then
/// that of the second.
pub proof fn lemma_payload_concat(a: Seq<Seq<u8>>, b: Seq<Seq<u8>>)
    ensures
        payload(a + b) == payload(a) + payload(b),
    decreases b.len(),
{
    if b.len() == 0 {
        assert(a + b == a);
    } else {
        lemma_payload_concat(a, b.drop_last());
        assert((a + b).drop_last() == a + b.drop_last());
    }
}

/// A stack with one more element fits where there was room for the element.
pub proof fn lemma_fits_with(elements: Seq<Seq<u8>>, e: Seq<u8>)
    ensures
        fits(elements.push(e)) == fits_with(elements, e.len()),
{
    lemma_push(elements, e);
    lemma_varint_bytes_len(e.len() as u64);
    assert(elements.push(e).drop_last() =~= elements);
}

/// The index table has four bytes for each element.
pub proof fn lemma_index_table_len(elements: Seq<Seq<u8>>)
    ensures
        index_table(elements).len() == 4 * elements.len(),
    decreases elements.len(),
{
    if elements.len() > 0 {
        lemma_index_table_len(elements.drop_last());
        lemma_le_bytes_len(payload(elements.drop_last()).len(), 4);
    }
}

/// The entry of element `i` follows what stands before it.
pub proof fn lemma_offset_step(elements: Seq<Seq<u8>>, i: int)
    requires
        0 <= i < elements.len(),
    ensures
        payload(elements.take(i + 1)) == payload(elements.take(i)) + entry(elements[i]),
        offset(elements, i + 1) == offset(elements, i) + entry(elements[i]).len(),
        index_table(elements.take(i + 1)) == index_table(elements.take(i)) + le_bytes(
            offset(elements, i),
            4,
        ),
{
    assert(elements.take(i + 1) =~= elements.take(i).push(elements[i]));
    lemma_push(elements.take(i), elements[i]);
}

/// The payload of the first `i` elements opens the payload of all, and
/// likewise the index table.
pub proof fn lemma_prefix(elements: Seq<Seq<u8>>, i: int)
    requires
        0 <= i <= elements.len(),
    ensures
        offset(elements, i) <= payload(elements).len(),
        payload(elements).take(offset(elements, i) as int) == payload(elements.take(i)),
        index_table(elements).take(4 * i) == index_table(elements.take(i)),
    decreases elements.len(),
{
    lemma_index_table_len(elements);
    if i == elements.len() {
        assert(elements.take(i) =~= elements);
    } else {
        let front = elements.drop_last();
        lemma_prefix(front, i);
        lemma_index_table_len(front);
        assert(front.take(i) =~= elements.take(i));
    }
}

/// Offsets grow with the position.
pub proof fn lemma_offset_monotonic(elements: Seq<Seq<u8>>, i: int, j: int)
    requires
        0 <= i <= j <= elements.len(),
    ensures
        offset(elements, i) <= offset(elements, j),
{
    lemma_prefix(elements.take(j), i);
    assert(elements.take(j).take(i) =~= elements.take(i));
}

/// In a stack that fits, every offset fits in four bytes, every length in
/// eight, and the entries lie inside the payload.
pub proof fn lemma_fits_bounds(elements: Seq<Seq<u8>>, i: int)
    requires
        fits(elements),
        0 <= i < elements.len(),
    ensures
        offset(elements, i) <= u32::MAX,
        entry(elements[i]).len() == varint_len(elements[i].len() as u64) + elements[i].len(),
        elements[i].len() <= usize::MAX,
        offset(elements, i) + entry(elements[i]).len() == offset(elements, i + 1),
        offset(elements, i + 1) <= payload(elements).len(),
{
    lemma_offset_monotonic(elements, i, elements.len() - 1);
    lemma_offset_step(elements, i);
    lemma_prefix(elements, i + 1);
    lemma_varint_bytes_len(elements[i].len() as u64);
}

/// The payload holds the entry of element `i` at its offset.
pub proof fn lemma_entry_in_payload(elements: Seq<Seq<u8>>, i: int)
    requires
        0 <= i < elements.len(),
    ensures
        offset(elements, i + 1) <= payload(elements).len(),
        payload(elements).subrange(offset(elements, i) as int, offset(elements, i + 1) as int)
            == entry(elements[i]),
{
    lemma_prefix(elements, i + 1);
    lemma_offset_step(elements, i);
    let upto = payload(elements).take(offset(elements, i + 1) as int);
    assert(upto.subrange(offset(elements, i) as int, offset(elements, i + 1) as int) =~= entry(
        elements[i],
    ));
}

/// The index table holds the offset of element `i` in slot `i`.
pub proof fn lemma_slot_in_index_table(elements: Seq<Seq<u8>>, i: int)
    requires
        0 <= i < elements.len(),
    ensures
        index_table(elements).len() == 4 * elements.len(),
        index_table(elements).subrange(4 * i, 4 * i + 4) == le_bytes(offset(elements, i), 4),
{
    lemma_index_table_len(elements);
    lemma_prefix(elements, i + 1);
    lemma_offset_step(elements, i);
    lemma_index_table_len(elements.take(i));
    lemma_le_bytes_len(offset(elements, i), 4);
    let upto = index_table(elements).take(4 * (i + 1));
    assert(upto.subrange(4 * i, 4 * i + 4) =~= le_bytes(offset(elements, i), 4));
}

/// Reading slot `i` of a packed buffer gives the offset of element `i`.
pub proof fn lemma_slot_of_packed(elements: Seq<Seq<u8>>, i: int)
    requires
        fits(elements),
        0 <= i < elements.len(),
    ensures
        packed(elements).len() == payload(elements).len() + 4 * elements.len(),
        slot(packed(elements), payload(elements).len() as int, i) == offset(elements, i),
{
    let content = packed(elements);
    let start = payload(elements).len() as int;
    lemma_slot_in_index_table(elements, i);
    lemma_fits_bounds(elements, i);
    assert(content.subrange(start + 4 * i, start + 4 * i + 4) =~= index_table(elements).subrange(
        4 * i,
        4 * i + 4,
    ));
    assert(offset(elements, i) < pow256(4)) by {
        lemma_pow256_values();
    }
    lemma_le_value_of_bytes(offset(elements, i), 4);
}

/// A buffer that holds an entry at `pos` yields its element there.
pub proof fn lemma_element_at_entry(content: Seq<u8>, pos: int, e: Seq<u8>)
    requires
        0 <= pos,
        pos + entry(e).len() <= content.len(),
        content.subrange(pos, pos + entry(e).len()) == entry(e),
        e.len() <= u64::MAX,
    ensures
        varint_parse(content.skip(pos)) == Ok::<u64, Error>(e.len() as u64),
        element_at(content, pos) == Some(e),
{
    let n = e.len() as u64;
    let next = pos + entry(e).len();
    let rest = content.skip(next);
    lemma_varint_bytes_len(n);
    assert(content.skip(pos) =~= varint_bytes(n) + (e + rest));
    lemma_parse_of_varint_bytes(n, e + rest);
    assert(entry(e).skip(varint_len(n) as int) =~= e);
}

/// Reading element `i` of a packed buffer gives element `i`.
pub proof fn lemma_read_packed(elements: Seq<Seq<u8>>, i: int)
    requires
        fits(elements),
        0 <= i < elements.len(),
    ensures
        packed(elements).len() == payload(elements).len() + 4 * elements.len(),
        slot(packed(elements), payload(elements).len() as int, i) == offset(elements, i),
        varint_parse(packed(elements).skip(offset(elements, i) as int)) == Ok::<u64, Error>(
            elements[i].len() as u64,
        ),
        element_at(packed(elements), offset(elements, i) as int) == Some(elements[i]),
        element(packed(elements), payload(elements).len() as int, i) == elements[i],
{
    let content = packed(elements);
    let pos = offset(elements, i) as int;
    let next = offset(elements, i + 1) as int;
    lemma_slot_of_packed(elements, i);
    lemma_fits_bounds(elements, i);
    lemma_entry_in_payload(elements, i);
    assert(content.subrange(pos, next) =~= payload(elements).subrange(pos, next));
    lemma_element_at_entry(content, pos, elements[i]);
}

/// Unpacking what was packed gives the elements back, in a buffer that is
/// packed.
pub proof fn lemma_unpack_packed(elements: Seq<Seq<u8>>)
    requires
        fits(elements),
    ensures
        unpacked(packed(elements), elements.len(), payload(elements).len() as int) == elements,
        is_packed(packed(elements), elements.len(), payload(elements).len() as int),
{
    let got = unpacked(packed(elements), elements.len(), payload(elements).len() as int);
    assert forall|i: int| 0 <= i < elements.len() implies got[i] == elements[i] by {
        lemma_read_packed(elements, i);
    }
}

/// What holds of every packed buffer. The index region has four bytes for
/// each element and ends the buffer. Every entry lies inside the payload
/// region. The offsets grow with the position. The entries fill the payload
/// region without a gap: the first begins at zero, each of the others where
/// the one before it ends, and the last ends where the index region begins.
/// An empty stack has an empty buffer.
pub proof fn lemma_packed_invariants(content: Seq<u8>, count: nat, indices_start: int)
    requires
        is_packed(content, count, indices_start),
    ensures
        0 <= indices_start <= content.len(),
        content.len() - indices_start == 4 * count,
        forall|i: int|
            0 <= i < count ==> #[trigger] entry_end(content, indices_start, i) <= indices_start,
        forall|i: int, j: int|
            0 <= i < j < count ==> #[trigger] slot(content, indices_start, i) < #[trigger] slot(
                content,
                indices_start,
                j,
            ),
        count > 0 ==> slot(content, indices_start, 0) == 0,
        forall|i: int|
            0 <= i < count - 1 ==> #[trigger] entry_end(content, indices_start, i) == slot(
                content,
                indices_start,
                i + 1,
            ),
        count > 0 ==> entry_end(content, indices_start, count - 1) == indices_start,
        count == 0 ==> indices_start == 0 && content.len() == 0,
{
    let elements = unpacked(content, count, indices_start);
    lemma_index_table_len(elements);
    assert forall|i: int| 0 <= i < count implies {
        &&& slot(content, indices_start, i) == offset(elements, i)
        &&& #[trigger] entry_end(content, indices_start, i) == offset(elements, i + 1)
        &&& offset(elements, i) < offset(elements, i + 1) <= indices_start
    } by {
        lemma_read_packed(elements, i);
        lemma_fits_bounds(elements, i);
    }
    assert forall|i: int, j: int| 0 <= i < j < count implies #[trigger] slot(
        content,
        indices_start,
        i,
    ) < #[trigger] slot(content, indices_start, j) by {
        assert(entry_end(content, indices_start, i) == offset(elements, i + 1));
        assert(entry_end(content, indices_start, j) == offset(elements, j + 1));
        lemma_offset_monotonic(elements, i + 1, j);
    }
    assert forall|i: int| 0 <= i < count - 1 implies #[trigger] entry_end(
        content,
        indices_start,
        i,
    ) == slot(content, indices_start, i + 1) by {
        assert(entry_end(content, indices_start, i + 1) == offset(elements, i + 2));
    }
    if count > 0 {
        assert(entry_end(content, indices_start, 0) == offset(elements, 1));
    }
}

} // verus!
