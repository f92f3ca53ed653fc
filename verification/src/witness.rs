//! The witness stack and the operations on it.

use vstd::prelude::*;
use vstd::slice::{slice_subrange, slice_to_vec};
use crate::bytes::{le_bytes, lemma_le_bytes_len};
use crate::layout::{
    element_at, entry, fits, fits_with, index_table, is_packed, lemma_fits_bounds,
    lemma_index_table_len, lemma_offset_step, lemma_read_packed, lemma_unpack_packed, offset,
    packed, payload, unpacked,
};
use crate::packing::{
    byte_strings, bytes_of, check_packed, decode_cursor, encode_cursor, insert_entry,
    lemma_pushed, lemma_recorded, read_element, write_entry,
};
use crate::varint::{lemma_varint_bytes_len, VarInt};

verus! {

/// The element that BIP341 executes as the script of a script-path spend:
/// the second from the end, or the third where the stack has at least two
/// elements and the last one begins with `0x50`, which makes it an annex.
pub open spec fn tapscript(elements: Seq<Seq<u8>>) -> Option<Seq<u8>> {
    let len = elements.len();
    if len == 0 {
        None
    } else {
        let last = elements.last();
        let from_end: int = if len >= 2 && last.len() > 0 && last[0] == 0x50 {
            3
        } else {
            2
        };
        if len >= from_end {
            Some(elements[len - from_end])
        } else {
            None
        }
    }
}

/// A witness stack: the byte strings that authorise the spending of a
/// segregated-witness input, in order.
///
/// The stack is kept in one buffer, laid out as [`packed`](crate::layout::packed)
/// says, so that an element is found through the index region without
/// reading the elements before it.
#[derive(PartialEq, Eq, PartialOrd, Ord, Debug, Hash)]
pub struct Witness {
    /// The payload region, then the index region.
    content: Vec<u8>,
    /// The number of elements.
    witness_elements: usize,
    /// Where the index region begins.
    indices_start: usize,
}

impl View for Witness {
    type V = Seq<Seq<u8>>;

    /// The elements, in stack order.
    closed spec fn view(&self) -> Seq<Seq<u8>> {
        unpacked(self.content@, self.witness_elements as nat, self.indices_start as int)
    }
}

impl Clone for Witness {
    /// A copy with a buffer of its own.
    fn clone(&self) -> (w: Witness)
        ensures
            w@ == self@,
            w.wf() == self.wf(),
            w.buffer() == self.buffer(),
    {
        let content = self.content.clone();
        Witness {
            content,
            witness_elements: self.witness_elements,
            indices_start: self.indices_start,
        }
    }
}

impl std::ops::Index<usize> for Witness {
    type Output = [u8];

    /// The element at position `index`, which must be below the number of
    /// elements.
    fn index(&self, index: usize) -> (r: &[u8])
        ensures
            r@ == self@[index as int],
    {
        match self.nth(index) {
            Some(element) => element,
            None => vstd::pervasive::unreached(),
        }
    }
}

impl vstd::std_specs::core::IndexSpecImpl<usize> for Witness {
    /// Indexing asks for a position below the number of elements.
    open spec fn index_req(&self, index: &usize) -> bool {
        self.wf() && *index < self@.len()
    }
}

impl Default for Witness {
    /// An empty stack.
    fn default() -> (w: Witness)
        ensures
            w.wf(),
            w@ == Seq::<Seq<u8>>::empty(),
    {
        Witness::new()
    }
}

impl Witness {
    /// Whether the buffer is the packed form of the elements. Every
    /// constructor establishes this and every operation keeps it.
    pub closed spec fn wf(&self) -> bool {
        is_packed(self.content@, self.witness_elements as nat, self.indices_start as int)
    }

    /// The buffer.
    pub closed spec fn buffer(&self) -> Seq<u8> {
        self.content@
    }

    /// Element `index`, if there is one.
    pub open spec fn spec_nth(&self, index: int) -> Option<Seq<u8>> {
        if 0 <= index < self@.len() {
            Some(self@[index])
        } else {
            None
        }
    }

    /// The last element, if there is one.
    pub open spec fn spec_last(&self) -> Option<Seq<u8>> {
        self.spec_nth(self@.len() - 1)
    }

    /// The element before the last, if there are two.
    pub open spec fn spec_second_to_last(&self) -> Option<Seq<u8>> {
        self.spec_nth(self@.len() - 2)
    }

    /// The buffer of a well-formed stack is the packed form of its elements,
    /// and the elements are what the buffer yields.
    pub proof fn lemma_buffer(&self)
        requires
            self.wf(),
        ensures
            fits(self@),
            self.buffer() == packed(self@),
            self@ == unpacked(self.buffer(), self@.len(), payload(self@).len() as int),
    {
    }

    /// The stack whose packed form is `content`.
    pub(crate) fn from_packed(content: Vec<u8>, witness_elements: usize, indices_start: usize) -> (w:
        Witness)
        requires
            is_packed(content@, witness_elements as nat, indices_start as int),
        ensures
            w.wf(),
            w@ == unpacked(content@, witness_elements as nat, indices_start as int),
            w.buffer() == content@,
    {
        Witness { content, witness_elements, indices_start }
    }

    /// The stack that is kept in `content` as `witness_elements` elements
    /// with the index region at `indices_start`; nothing where that is not
    /// the packed form of any stack.
    pub fn from_raw_parts(content: Vec<u8>, witness_elements: usize, indices_start: usize) -> (r:
        Option<Witness>)
        ensures
            r is Some == is_packed(content@, witness_elements as nat, indices_start as int),
            r matches Some(w) ==> w.wf() && w.buffer() == content@ && w@ == unpacked(
                content@,
                witness_elements as nat,
                indices_start as int,
            ),
    {
        if check_packed(content.as_slice(), witness_elements, indices_start) {
            Some(Witness::from_packed(content, witness_elements, indices_start))
        } else {
            None
        }
    }

    /// The payload region.
    pub(crate) fn payload_region(&self) -> (r: &[u8])
        requires
            self.wf(),
        ensures
            r@ == payload(self@),
    {
        let r = slice_subrange(self.content.as_slice(), 0, self.indices_start);
        r
    }

    /// An empty stack.
    pub fn new() -> (w: Witness)
        ensures
            w.wf(),
            w@ == Seq::<Seq<u8>>::empty(),
    {
        Witness { content: Vec::new(), witness_elements: 0, indices_start: 0 }
    }

    /// The elements, each in a vector of its own.
    pub fn to_vec(&self) -> (v: Vec<Vec<u8>>)
        requires
            self.wf(),
        ensures
            byte_strings(v@) == self@,
    {
        let mut v: Vec<Vec<u8>> = Vec::new();
        let mut iter = self.iter();
        loop
            invariant
                iter.wf(),
                byte_strings(v@) + iter@ == self@,
            ensures
                byte_strings(v@) == self@,
            decreases iter@.len(),
        {
            let ghost rest = iter@;
            let ghost done = byte_strings(v@);
            match iter.next() {
                None => {
                    assert(done + rest == done);
                    break ;
                },
                Some(s) => {
                    v.push(slice_to_vec(s));
                    assert(byte_strings(v@) == done.push(rest[0]));
                    assert(byte_strings(v@) + iter@ == done + rest);
                },
            }
        }
        v
    }

    /// A walk over the elements, from the first one on.
    pub fn iter(&self) -> (it: Iter<'_>)
        requires
            self.wf(),
        ensures
            it.wf(),
            it@ == self@,
    {
        let it = Iter {
            inner: self.content.as_slice(),
            indices_start: self.indices_start,
            current_index: 0,
        };
        proof {
            lemma_index_table_len(self@);
        }
        it
    }

    /// Whether the stack holds no element.
    pub fn is_empty(&self) -> (r: bool)
        requires
            self.wf(),
        ensures
            r == (self@.len() == 0),
    {
        self.witness_elements == 0
    }

    /// The number of elements.
    pub fn len(&self) -> (r: usize)
        requires
            self.wf(),
        ensures
            r == self@.len(),
    {
        self.witness_elements
    }

    /// Removes every element.
    pub fn clear(&mut self)
        ensures
            final(self).wf(),
            final(self)@ == Seq::<Seq<u8>>::empty(),
    {
        self.content.clear();
        self.witness_elements = 0;
        self.indices_start = 0;
    }

    /// Builds the stack that holds the elements of `vec`, in their order. The
    /// buffer is allocated once, at its final size.
    pub fn from_vec(vec: Vec<Vec<u8>>) -> (w: Witness)
        requires
            fits(byte_strings(vec@)),
        ensures
            w.wf(),
            w@ == byte_strings(vec@),
            w.buffer() == packed(byte_strings(vec@)),
    {
        let ghost elements = byte_strings(vec@);
        let witness_elements: usize = vec.len();
        let index_size: usize = witness_elements * 4;
        let mut content_size: usize = 0;
        let mut i: usize = 0;
        while i < witness_elements
            invariant
                i <= witness_elements == vec.len(),
                elements == byte_strings(vec@),
                fits(elements),
                content_size == offset(elements, i as int),
            decreases witness_elements - i,
        {
            proof {
                lemma_fits_bounds(elements, i as int);
            }
            let el_len: usize = vec[i].len();
            content_size += el_len + VarInt(el_len as u64).len();
            i += 1;
        }
        assert(elements.take(i as int) =~= elements);
        let mut content: Vec<u8> = Vec::new();
        content.resize(content_size + index_size, 0);
        let mut cursor: usize = 0;
        let mut i: usize = 0;
        while i < witness_elements
            invariant
                i <= witness_elements == vec.len(),
                elements == byte_strings(vec@),
                fits(elements),
                content_size == payload(elements).len(),
                content.len() == content_size + 4 * witness_elements,
                cursor == offset(elements, i as int),
                content@.subrange(0, cursor as int) == payload(elements.take(i as int)),
                content@.subrange(content_size as int, content_size + 4 * i) == index_table(
                    elements.take(i as int),
                ),
            decreases witness_elements - i,
        {
            let ghost before = content@;
            proof {
                lemma_fits_bounds(elements, i as int);
                lemma_offset_step(elements, i as int);
                lemma_le_bytes_len(cursor as nat, 4);
            }
            encode_cursor(&mut content, content_size, i, cursor);
            let next: usize = write_entry(&mut content, cursor, vec[i].as_slice());
            proof {
                lemma_recorded(
                    before,
                    content@,
                    content_size as int,
                    i as int,
                    cursor as int,
                    entry(elements[i as int]),
                    le_bytes(cursor as nat, 4),
                );
            }
            cursor = next;
            i += 1;
        }
        proof {
            assert(content@ =~= packed(elements));
            lemma_unpack_packed(elements);
        }
        Witness { content, witness_elements, indices_start: content_size }
    }

    /// Whether the stack can take one more element of `len` bytes: whether
    /// [`Witness::push`] may be called with such an element.
    pub fn has_room_for(&self, len: usize) -> (ok: bool)
        requires
            self.wf(),
        ensures
            ok == fits_with(self@, len as nat),
    {
        let prefix: usize = VarInt(len as u64).len();
        let ok: bool = if self.indices_start > u32::MAX as usize {
            false
        } else {
            match len.checked_add(prefix + 4) {
                Some(added) => self.content.len().checked_add(added).is_some(),
                None => false,
            }
        };
        proof {
            lemma_index_table_len(self@);
            lemma_varint_bytes_len(len as u64);
        }
        ok
    }

    /// Appends `new_element` as the last element. The index region moves to
    /// the right to make room for the new entry.
    pub fn push(&mut self, new_element: &[u8])
        requires
            old(self).wf(),
            fits_with(old(self)@, new_element@.len()),
        ensures
            final(self).wf(),
            final(self)@ == old(self)@.push(new_element@),
            final(self)@.len() == old(self)@.len() + 1,
            final(self).spec_last() == Some(new_element@),
            final(self).spec_second_to_last() == old(self).spec_last(),
    {
        let ghost elements = self@;
        let ghost before = self.content@;
        proof {
            lemma_index_table_len(elements);
            lemma_varint_bytes_len(new_element@.len() as u64);
        }
        let previous_content_end: usize = self.indices_start;
        let witness_elements: usize = self.witness_elements + 1;
        let added: usize = insert_entry(&mut self.content, previous_content_end, new_element);
        self.witness_elements = witness_elements;
        self.indices_start = previous_content_end + added;
        proof {
            lemma_pushed(elements, new_element@, before, self.content@);
            lemma_unpack_packed(elements.push(new_element@));
        }
    }

    /// The element whose length prefix begins at `index` in the buffer.
    fn element_at(&self, index: usize) -> (r: Option<&[u8]>)
        ensures
            bytes_of(r) == element_at(self.content@, index as int),
    {
        read_element(self.content.as_slice(), index)
    }

    /// The element at position `index`; absent where `index` is not below
    /// the number of elements.
    pub fn nth(&self, index: usize) -> (r: Option<&[u8]>)
        requires
            self.wf(),
        ensures
            bytes_of(r) == self.spec_nth(index as int),
            index >= self@.len() ==> r is None,
    {
        proof {
            if index < self.witness_elements {
                lemma_read_packed(self@, index as int);
            } else {
                lemma_index_table_len(self@);
            }
        }
        match decode_cursor(self.content.as_slice(), self.indices_start, index) {
            None => None,
            Some(pos) => self.element_at(pos),
        }
    }

    /// The last element; absent on an empty stack.
    pub fn last(&self) -> (r: Option<&[u8]>)
        requires
            self.wf(),
        ensures
            bytes_of(r) == self.spec_last(),
            self@.len() == 0 ==> r is None,
    {
        if self.witness_elements == 0 {
            None
        } else {
            self.nth(self.witness_elements - 1)
        }
    }

    /// The element before the last; absent on a stack of fewer than two.
    pub fn second_to_last(&self) -> (r: Option<&[u8]>)
        requires
            self.wf(),
        ensures
            bytes_of(r) == self.spec_second_to_last(),
            self@.len() <= 1 ==> r is None,
    {
        if self.witness_elements <= 1 {
            None
        } else {
            self.nth(self.witness_elements - 2)
        }
    }

    /// The tapscript of the stack by the rule of BIP341, which sets an annex
    /// aside. That an element is returned does not make the stack a valid
    /// script-path spend.
    pub fn get_tapscript(&self) -> (r: Option<&[u8]>)
        requires
            self.wf(),
        ensures
            bytes_of(r) == tapscript(self@),
    {
        let len: usize = self.len();
        match self.last() {
            None => None,
            Some(last_elem) => {
                let script_pos_from_last: usize = if len >= 2 && last_elem.len() > 0
                    && last_elem[0] == 0x50 {
                    3
                } else {
                    2
                };
                if len >= script_pos_from_last {
                    self.nth(len - script_pos_from_last)
                } else {
                    None
                }
            },
        }
    }
}

/// A walk over the elements of a stack, from the first to the last.
pub struct Iter<'a> {
    /// The buffer of the stack.
    inner: &'a [u8],
    /// Where its index region begins.
    indices_start: usize,
    /// The position of the element that comes next.
    current_index: usize,
}

impl<'a> View for Iter<'a> {
    type V = Seq<Seq<u8>>;

    /// The elements that are still to come, in order.
    closed spec fn view(&self) -> Seq<Seq<u8>> {
        unpacked(self.inner@, self.slots(), self.indices_start as int).skip(
            self.current_index as int,
        )
    }
}

impl<'a> Iter<'a> {
    /// The number of slots in the index region.
    closed spec fn slots(&self) -> nat {
        ((self.inner@.len() - self.indices_start) / 4) as nat
    }

    /// Whether the walk stands inside a packed buffer.
    pub closed spec fn wf(&self) -> bool {
        &&& self.indices_start <= self.inner@.len()
        &&& is_packed(self.inner@, self.slots(), self.indices_start as int)
        &&& self.current_index <= self.slots()
    }

    /// The next element, or nothing once every element has been given out.
    pub fn next(&mut self) -> (r: Option<&'a [u8]>)
        requires
            old(self).wf(),
        ensures
            final(self).wf(),
            old(self)@.len() == 0 ==> r is None && final(self)@ == old(self)@,
            old(self)@.len() > 0 ==> bytes_of(r) == Some(old(self)@[0]) && final(self)@ == old(
                self,
            )@.drop_first(),
    {
        let ghost elements = unpacked(self.inner@, self.slots(), self.indices_start as int);
        proof {
            lemma_index_table_len(elements);
            if self.current_index < self.slots() {
                lemma_read_packed(elements, self.current_index as int);
            }
        }
        let index: usize = match decode_cursor(self.inner, self.indices_start, self.current_index) {
            Some(index) => index,
            None => { return None; },
        };
        let slice = match read_element(self.inner, index) {
            Some(slice) => slice,
            None => { return None; },
        };
        self.current_index += 1;
        Some(slice)
    }

    /// The number of elements that are still to come, as both bounds.
    pub fn size_hint(&self) -> (r: (usize, Option<usize>))
        requires
            self.wf(),
        ensures
            r.0 == self@.len(),
            r.1 == Some(r.0),
    {
        let total_count: usize = (self.inner.len() - self.indices_start) / 4;
        let remaining: usize = total_count - self.current_index;
        (remaining, Some(remaining))
    }

    /// The number of elements that are still to come.
    pub fn len(&self) -> (r: usize)
        requires
            self.wf(),
        ensures
            r == self@.len(),
    {
        self.size_hint().0
    }
}

} // verus!
