//! The wire form of a witness stack: the number of elements as a
//! variable-length integer, then every element behind its length prefix. The
//! index region is never part of it.

use vstd::prelude::*;
use vstd::slice::slice_subrange;
use crate::bytes::{splice, write_bytes};
use crate::error::{Error, MAX_VEC_SIZE};
use crate::layout::{
    entry, fits, index_table, lemma_element_at_entry, lemma_fits_bounds, lemma_fits_with,
    lemma_payload_concat, lemma_payload_single, lemma_push, lemma_unpack_packed, offset, packed,
    payload,
};
use crate::varint::{
    lemma_parse_is_canonical, lemma_parse_of_varint_bytes, lemma_varint_bytes_len, push_le,
    varint_bytes, varint_len, varint_parse, VarInt,
};
use crate::witness::Witness;

verus! {

/// The result of reading a run of elements: the elements, and the position
/// behind the last of them.
pub type Parsed = Result<(Seq<Seq<u8>>, int), Error>;

/// The wire form of a stack.
pub open spec fn wire_encoding(elements: Seq<Seq<u8>>) -> Seq<u8> {
    varint_bytes(elements.len() as u64) + payload(elements)
}

/// The size that the payload region reaches with one more element of
/// `element_size` bytes behind `cursor` bytes, or the refusal of a size above
/// [`MAX_VEC_SIZE`]. A size that no `usize` holds is reported as `usize::MAX`.
pub open spec fn required_len(cursor: int, element_size: u64) -> Result<usize, Error> {
    let required = cursor + varint_len(element_size) + element_size;
    if required > usize::MAX {
        Err(Error::OversizedVectorAllocation { requested: usize::MAX, max: MAX_VEC_SIZE })
    } else if required > MAX_VEC_SIZE {
        Err(Error::OversizedVectorAllocation { requested: required as usize, max: MAX_VEC_SIZE })
    } else {
        Ok(required as usize)
    }
}

/// What reading `remaining` elements from position `pos` of `bytes` gives,
/// when the elements read before them take `cursor` bytes of payload.
///
/// For each element the length prefix is read first, then the size is
/// checked, and only then are the bytes of the element asked for.
pub open spec fn parse_elements(bytes: Seq<u8>, pos: int, remaining: nat, cursor: int) -> Parsed
    decreases remaining,
{
    if remaining == 0 {
        Ok((Seq::empty(), pos))
    } else {
        match varint_parse(bytes.skip(pos)) {
            Err(e) => Err(e),
            Ok(size) => match required_len(cursor, size) {
                Err(e) => Err(e),
                Ok(required) => {
                    let start = pos + varint_len(size);
                    if start + size > bytes.len() {
                        Err(Error::UnexpectedEof)
                    } else {
                        match parse_elements(
                            bytes,
                            start + size,
                            (remaining - 1) as nat,
                            required as int,
                        ) {
                            Err(e) => Err(e),
                            Ok((rest, end)) => Ok(
                                (seq![bytes.subrange(start, start + size)] + rest, end),
                            ),
                        }
                    }
                },
            },
        }
    }
}

/// What reading one stack from the start of `bytes` gives.
pub open spec fn parse_wire(bytes: Seq<u8>) -> Parsed {
    match varint_parse(bytes) {
        Err(e) => Err(e),
        Ok(count) => parse_elements(bytes, varint_len(count) as int, count as nat, 0),
    }
}

/// A result of reading, with elements that were read earlier put in front.
pub open spec fn after(front: Seq<Seq<u8>>, parsed: Parsed) -> Parsed {
    match parsed {
        Err(e) => Err(e),
        Ok((rest, end)) => Ok((front + rest, end)),
    }
}

/// How far `len` is from exceeding `required`.
pub open spec fn shortfall(len: nat, required: nat) -> nat {
    if len > required {
        0
    } else {
        (required + 1 - len) as nat
    }
}

/// The length to which a buffer of `len` bytes grows so as to hold more than
/// `required` bytes: `len`, or at least 1, doubled until it is enough.
pub open spec fn grown_len(len: nat, required: nat) -> nat
    decreases shortfall(len, required),
{
    if len > required {
        len
    } else if len == 0 {
        grown_len(1, required)
    } else {
        grown_len(2 * len, required)
    }
}

/// Checks the size that the payload region reaches with one more element.
pub fn checked_required_len(cursor: usize, element_size: u64) -> (r: Result<usize, Error>)
    ensures
        r == required_len(cursor as int, element_size),
{
    let overflow = Error::OversizedVectorAllocation { requested: usize::MAX, max: MAX_VEC_SIZE };
    let prefix: usize = VarInt(element_size).len();
    let with_element: u64 = match (cursor as u64).checked_add(element_size) {
        Some(v) => v,
        None => { return Err(overflow); },
    };
    let total: u64 = match with_element.checked_add(prefix as u64) {
        Some(v) => v,
        None => { return Err(overflow); },
    };
    if total > usize::MAX as u64 {
        Err(overflow)
    } else if total > MAX_VEC_SIZE as u64 {
        Err(Error::OversizedVectorAllocation { requested: total as usize, max: MAX_VEC_SIZE })
    } else {
        Ok(total as usize)
    }
}

/// Makes `vec` longer than `required_len`, if it is not: its length, or 1
/// where it is empty, is doubled until it is. The new bytes are zero.
pub fn resize_if_needed(vec: &mut Vec<u8>, required_len: usize)
    requires
        2 * required_len <= usize::MAX,
    ensures
        final(vec)@.len() == grown_len(old(vec)@.len(), required_len as nat),
        final(vec)@.len() > required_len,
        final(vec)@.len() >= old(vec)@.len(),
        final(vec)@.take(old(vec)@.len() as int) == old(vec)@,
        forall|i: int| old(vec)@.len() <= i < final(vec)@.len() ==> final(vec)@[i] == 0,
{
    if required_len >= vec.len() {
        let mut new_len: usize = if vec.len() > 1 {
            vec.len()
        } else {
            1
        };
        while new_len <= required_len
            invariant
                1 <= new_len,
                new_len >= vec.len(),
                2 * required_len <= usize::MAX,
                grown_len(new_len as nat, required_len as nat) == grown_len(
                    old(vec)@.len(),
                    required_len as nat,
                ),
                vec@ == old(vec)@,
            decreases shortfall(new_len as nat, required_len as nat),
        {
            new_len *= 2;
        }
        vec.resize(new_len, 0);
    }
}

/// Putting no element in front of a result leaves it as it is.
pub proof fn lemma_after_nothing(parsed: Parsed)
    ensures
        after(Seq::empty(), parsed) == parsed,
{
    match parsed {
        Err(_) => {},
        Ok((rest, end)) => {
            assert(Seq::<Seq<u8>>::empty() + rest =~= rest);
        },
    }
}

/// Putting an element in front of a result, and elements in front of that,
/// is putting the elements with that element behind them in front of it.
pub proof fn lemma_after_step(front: Seq<Seq<u8>>, e: Seq<u8>, parsed: Parsed)
    ensures
        after(front, after(seq![e], parsed)) == after(front.push(e), parsed),
{
    match parsed {
        Err(_) => {},
        Ok((rest, end)) => {
            assert(front + (seq![e] + rest) =~= front.push(e) + rest);
        },
    }
}

/// Where an element can be read at `pos`, reading `remaining` elements from
/// there comes to that element, then the others from behind it.
pub proof fn lemma_parse_step(bytes: Seq<u8>, pos: int, remaining: nat, cursor: int)
    requires
        remaining > 0,
        varint_parse(bytes.skip(pos)) is Ok,
        required_len(cursor, varint_parse(bytes.skip(pos)).unwrap()) is Ok,
        pos + varint_len(varint_parse(bytes.skip(pos)).unwrap()) + varint_parse(
            bytes.skip(pos),
        ).unwrap() <= bytes.len(),
    ensures
        ({
            let size = varint_parse(bytes.skip(pos)).unwrap();
            let start = pos + varint_len(size);
            parse_elements(bytes, pos, remaining, cursor) == after(
                seq![bytes.subrange(start, start + size)],
                parse_elements(
                    bytes,
                    start + size,
                    (remaining - 1) as nat,
                    required_len(cursor, size).unwrap() as int,
                ),
            )
        }),
{
}

/// What the working buffer holds once an entry is written behind the
/// payload: the payload, then the entry.
proof fn lemma_entry_written(
    before: Seq<u8>,
    resized: Seq<u8>,
    now: Seq<u8>,
    cursor: int,
    prefix: Seq<u8>,
    body: Seq<u8>,
)
    requires
        0 <= cursor <= before.len() <= resized.len(),
        resized.take(before.len() as int) == before,
        cursor + prefix.len() + body.len() <= resized.len(),
        now == splice(splice(resized, cursor, prefix), cursor + prefix.len(), body),
    ensures
        now.len() == resized.len(),
        now.take(cursor + prefix.len() + body.len()) == before.take(cursor) + (prefix + body),
{
}

impl Witness {
    /// Reads one stack from the start of `bytes`, and says how many bytes it
    /// took. Fails where a length prefix is cut short or not in its shortest
    /// form, where the sizes read so far and the size that an element declares
    /// add up to more than [`MAX_VEC_SIZE`], and where `bytes` ends before an
    /// element does. Nothing is returned of a stack that fails part-way.
    pub fn consensus_decode(bytes: &[u8]) -> (r: Result<(Witness, usize), Error>)
        ensures
            match parse_wire(bytes@) {
                Ok((elements, end)) => r matches Ok((w, used)) && w.wf() && w@ == elements && used
                    == end,
                Err(e) => r matches Err(x) && x == e,
            },
    {
        let count_varint = match VarInt::consensus_decode(bytes) {
            Ok(v) => v,
            Err(e) => { return Err(e); },
        };
        proof {
            lemma_parse_is_canonical(bytes@);
        }
        let witness_elements: u64 = count_varint.0;
        let first: usize = count_varint.len();
        if witness_elements == 0 {
            return Ok((Witness::new(), first));
        }
        let mut pos: usize = first;
        let mut cursor: usize = 0;
        let mut content: Vec<u8> = Vec::new();
        content.resize(128, 0);
        // Every element takes at least one byte of the input and of the
        // payload, so no more slots are needed than there are bytes left, or
        // than a payload may have.
        let mut expected: usize = bytes.len() - first;
        if expected > MAX_VEC_SIZE {
            expected = MAX_VEC_SIZE;
        }
        if expected as u64 > witness_elements {
            expected = witness_elements as usize;
        }
        let mut indices: Vec<u8> = Vec::with_capacity(expected * 4);
        let ghost mut elements: Seq<Seq<u8>> = Seq::empty();
        let mut i: u64 = 0;
        proof {
            lemma_after_nothing(
                parse_elements(bytes@, pos as int, witness_elements as nat, 0),
            );
        }
        while i < witness_elements
            invariant
                i <= witness_elements,
                pos <= bytes.len(),
                elements.len() == i,
                i <= cursor <= MAX_VEC_SIZE,
                cursor == payload(elements).len(),
                cursor <= content.len(),
                content@.take(cursor as int) == payload(elements),
                indices@ == index_table(elements),
                fits(elements),
                after(
                    elements,
                    parse_elements(
                        bytes@,
                        pos as int,
                        (witness_elements - i) as nat,
                        cursor as int,
                    ),
                ) == parse_wire(bytes@),
            decreases witness_elements - i,
        {
            let tail = slice_subrange(bytes, pos, bytes.len());
            let element_size_varint = match VarInt::consensus_decode(tail) {
                Ok(v) => v,
                Err(e) => { return Err(e); },
            };
            proof {
                lemma_parse_is_canonical(tail@);
            }
            let element_size_varint_len: usize = element_size_varint.len();
            let required_len: usize = match checked_required_len(cursor, element_size_varint.0) {
                Ok(v) => v,
                Err(e) => { return Err(e); },
            };
            let element_size: usize = element_size_varint.0 as usize;
            let start: usize = pos + element_size_varint_len;
            if element_size > bytes.len() - start {
                return Err(Error::UnexpectedEof);
            }
            let source = slice_subrange(bytes, start, start + element_size);
            let ghost before = content@;
            proof {
                lemma_parse_step(
                    bytes@,
                    pos as int,
                    (witness_elements - i) as nat,
                    cursor as int,
                );
                lemma_after_step(
                    elements,
                    source@,
                    parse_elements(
                        bytes@,
                        start + element_size,
                        (witness_elements - i - 1) as nat,
                        required_len as int,
                    ),
                );
                lemma_fits_with(elements, source@);
                lemma_push(elements, source@);
                lemma_varint_bytes_len(element_size_varint.0);
            }
            push_le(&mut indices, cursor as u64, 4);
            resize_if_needed(&mut content, required_len);
            let ghost resized = content@;
            element_size_varint.encode_at(&mut content, cursor);
            write_bytes(&mut content, cursor + element_size_varint_len, source);
            proof {
                lemma_entry_written(
                    before,
                    resized,
                    content@,
                    cursor as int,
                    varint_bytes(element_size_varint.0),
                    source@,
                );
                elements = elements.push(source@);
            }
            cursor = required_len;
            pos = start + element_size;
            i += 1;
        }
        content.truncate(cursor);
        content.append(&mut indices);
        proof {
            lemma_unpack_packed(elements);
        }
        Ok((Witness::from_packed(content, witness_elements as usize, cursor), pos))
    }

    /// Appends the wire form of the stack to `w` and returns the number of
    /// bytes written.
    pub fn consensus_encode(&self, w: &mut Vec<u8>) -> (written: usize)
        requires
            self.wf(),
        ensures
            final(w)@ == old(w)@ + wire_encoding(self@),
            written == wire_encoding(self@).len(),
    {
        proof {
            self.lemma_buffer();
            lemma_varint_bytes_len(self@.len() as u64);
        }
        let len = VarInt(self.len() as u64);
        let prefix: usize = len.consensus_encode(w);
        let region = self.payload_region();
        w.extend_from_slice(region);
        region.len() + prefix
    }

    /// The number of bytes that the wire form of the stack takes.
    pub fn serialized_len(&self) -> (r: usize)
        requires
            self.wf(),
        ensures
            r == wire_encoding(self@).len(),
    {
        let ghost elements = self@;
        let ghost mut k: int = 0;
        let mut total: usize = 0;
        let mut iter = self.iter();
        proof {
            self.lemma_buffer();
        }
        loop
            invariant
                iter.wf(),
                fits(elements),
                0 <= k <= elements.len(),
                iter@ == elements.skip(k),
                total == offset(elements, k),
            ensures
                total == payload(elements).len(),
            decreases iter@.len(),
        {
            match iter.next() {
                None => {
                    assert(elements.take(k) =~= elements);
                    break ;
                },
                Some(el) => {
                    proof {
                        lemma_fits_bounds(elements, k);
                    }
                    total += VarInt(el.len() as u64).len() + el.len();
                    proof {
                        k = k + 1;
                    }
                },
            }
        }
        proof {
            lemma_varint_bytes_len(elements.len() as u64);
        }
        total + VarInt(self.len() as u64).len()
    }
}

/// The wire form of `witness`.
pub fn serialize(witness: &Witness) -> (bytes: Vec<u8>)
    requires
        witness.wf(),
    ensures
        bytes@ == wire_encoding(witness@),
{
    let mut bytes: Vec<u8> = Vec::new();
    let _ = witness.consensus_encode(&mut bytes);
    bytes
}

/// The stack whose wire form is all of `data`. Fails as reading does, and
/// with [`Error::ParseFailed`] where bytes are left behind the stack.
pub fn deserialize(data: &[u8]) -> (r: Result<Witness, Error>)
    ensures
        match parse_wire(data@) {
            Ok((elements, end)) => if end == data@.len() {
                r matches Ok(w) && w.wf() && w@ == elements
            } else {
                r matches Err(x) && x == Error::ParseFailed
            },
            Err(e) => r matches Err(x) && x == e,
        },
{
    match Witness::consensus_decode(data) {
        Err(e) => Err(e),
        Ok((witness, used)) => {
            if used == data.len() {
                Ok(witness)
            } else {
                Err(Error::ParseFailed)
            }
        },
    }
}

/// What is read as a run of elements stands in the input as their payload,
/// and stays within the permitted size.
pub proof fn lemma_parsed_is_payload(bytes: Seq<u8>, pos: int, remaining: nat, cursor: int)
    requires
        0 <= pos <= bytes.len(),
        0 <= cursor <= MAX_VEC_SIZE,
        parse_elements(bytes, pos, remaining, cursor) is Ok,
    ensures
        ({
            let (elements, end) = parse_elements(bytes, pos, remaining, cursor).unwrap();
            &&& elements.len() == remaining
            &&& pos <= end <= bytes.len()
            &&& bytes.subrange(pos, end) == payload(elements)
            &&& cursor + payload(elements).len() <= MAX_VEC_SIZE
        }),
    decreases remaining,
{
    if remaining > 0 {
        let size = varint_parse(bytes.skip(pos)).unwrap();
        let required = required_len(cursor, size).unwrap();
        let start = pos + varint_len(size);
        let next = start + size;
        let e = bytes.subrange(start, next);
        let (rest, end) = parse_elements(
            bytes,
            next,
            (remaining - 1) as nat,
            required as int,
        ).unwrap();
        lemma_parse_is_canonical(bytes.skip(pos));
        lemma_varint_bytes_len(size);
        lemma_parsed_is_payload(bytes, next, (remaining - 1) as nat, required as int);
        lemma_payload_concat(seq![e], rest);
        lemma_payload_single(e);
        assert(bytes.subrange(pos, start) == varint_bytes(size));
        assert(bytes.subrange(pos, end) == entry(e) + payload(rest));
    }
}

/// A stack that is read from its wire form is written back as the same
/// bytes: encoding undoes decoding.
pub proof fn lemma_wire_round_trip(bytes: Seq<u8>)
    requires
        parse_wire(bytes) is Ok,
    ensures
        ({
            let (elements, end) = parse_wire(bytes).unwrap();
            &&& 0 <= end <= bytes.len()
            &&& wire_encoding(elements) == bytes.take(end)
            &&& payload(elements).len() <= MAX_VEC_SIZE
        }),
{
    let (elements, end) = parse_wire(bytes).unwrap();
    let count = varint_parse(bytes).unwrap();
    let first = varint_len(count) as int;
    lemma_parse_is_canonical(bytes);
    lemma_parsed_is_payload(bytes, first, count as nat, 0);
    assert(bytes.take(end) == bytes.take(first) + bytes.subrange(first, end));
}

/// Where a buffer holds an entry and a run of bytes behind it, each of them
/// stands there by itself.
proof fn lemma_entry_then_rest(bytes: Seq<u8>, pos: int, e: Seq<u8>, rest: Seq<u8>)
    requires
        0 <= pos,
        pos + entry(e).len() + rest.len() <= bytes.len(),
        bytes.subrange(pos, pos + entry(e).len() + rest.len()) == entry(e) + rest,
    ensures
        bytes.subrange(pos, pos + entry(e).len()) == entry(e),
        bytes.subrange(pos + entry(e).len(), pos + entry(e).len() + rest.len()) == rest,
{
    let whole = bytes.subrange(pos, pos + entry(e).len() + rest.len());
    assert(bytes.subrange(pos, pos + entry(e).len()) == whole.take(entry(e).len() as int));
    assert(bytes.subrange(pos + entry(e).len(), pos + entry(e).len() + rest.len()) == whole.skip(
        entry(e).len() as int,
    ));
    assert(whole.skip(entry(e).len() as int) == rest);
}

/// The payload of a run of elements is read back as those elements, where it
/// stays within the permitted size, whatever follows it in the input.
pub proof fn lemma_parse_of_payload(bytes: Seq<u8>, pos: int, elements: Seq<Seq<u8>>, cursor: int)
    requires
        0 <= pos,
        0 <= cursor,
        pos + payload(elements).len() <= bytes.len(),
        bytes.subrange(pos, pos + payload(elements).len()) == payload(elements),
        cursor + payload(elements).len() <= MAX_VEC_SIZE,
    ensures
        parse_elements(bytes, pos, elements.len(), cursor) == Ok::<(Seq<Seq<u8>>, int), Error>(
            (elements, pos + payload(elements).len()),
        ),
    decreases elements.len(),
{
    if elements.len() == 0 {
        assert(elements =~= Seq::<Seq<u8>>::empty());
    } else {
        let e = elements[0];
        let rest = elements.drop_first();
        let size = e.len() as u64;
        let next = pos + entry(e).len();
        assert(elements =~= seq![e] + rest);
        lemma_payload_concat(seq![e], rest);
        lemma_payload_single(e);
        lemma_varint_bytes_len(size);
        lemma_entry_then_rest(bytes, pos, e, payload(rest));
        lemma_element_at_entry(bytes, pos, e);
        lemma_parse_step(bytes, pos, elements.len(), cursor);
        lemma_parse_of_payload(bytes, next, rest, cursor + entry(e).len());
    }
}

/// The wire form of a stack is read back as that stack, where its payload
/// stays within the permitted size, whatever follows it in the input:
/// decoding undoes encoding.
pub proof fn lemma_parse_of_wire_encoding(elements: Seq<Seq<u8>>, rest: Seq<u8>)
    requires
        payload(elements).len() <= MAX_VEC_SIZE,
        elements.len() <= u64::MAX,
    ensures
        parse_wire(wire_encoding(elements) + rest) == Ok::<(Seq<Seq<u8>>, int), Error>(
            (elements, wire_encoding(elements).len() as int),
        ),
{
    let count = elements.len() as u64;
    let bytes = wire_encoding(elements) + rest;
    let first = varint_len(count) as int;
    lemma_varint_bytes_len(count);
    assert(bytes =~= varint_bytes(count) + (payload(elements) + rest));
    lemma_parse_of_varint_bytes(count, payload(elements) + rest);
    assert(bytes.subrange(first, first + payload(elements).len()) =~= payload(elements));
    lemma_parse_of_payload(bytes, first, elements, 0);
}

/// Putting elements in front of a result, and more elements in front of
/// that, is putting all of them in front of it.
pub proof fn lemma_after_after(first: Seq<Seq<u8>>, second: Seq<Seq<u8>>, parsed: Parsed)
    ensures
        after(first, after(second, parsed)) == after(first + second, parsed),
{
    match parsed {
        Err(_) => {},
        Ok((rest, end)) => {
            assert(first + (second + rest) =~= (first + second) + rest);
        },
    }
}

/// What reading `k` elements and then `m` more comes to: reading `k + m`
/// elements fails where reading the first `k` fails, and else gives them and
/// what reading `m` elements from behind them gives.
pub proof fn lemma_parse_split(bytes: Seq<u8>, pos: int, k: nat, m: nat, cursor: int)
    requires
        0 <= pos <= bytes.len(),
        0 <= cursor,
    ensures
        parse_elements(bytes, pos, k + m, cursor) == match parse_elements(bytes, pos, k, cursor) {
            Err(e) => Err(e),
            Ok((front, mid)) => after(
                front,
                parse_elements(bytes, mid, m, cursor + payload(front).len()),
            ),
        },
    decreases k,
{
    if k == 0 {
        assert(payload(Seq::<Seq<u8>>::empty()).len() == 0);
        lemma_after_nothing(parse_elements(bytes, pos, m, cursor));
    } else if varint_parse(bytes.skip(pos)) is Ok {
        let size = varint_parse(bytes.skip(pos)).unwrap();
        let start = pos + varint_len(size);
        let next = start + size;
        if required_len(cursor, size) is Ok && next <= bytes.len() {
            let required = required_len(cursor, size).unwrap() as int;
            let e = bytes.subrange(start, next);
            lemma_parse_split(bytes, next, (k - 1) as nat, m, required);
            lemma_parse_step(bytes, pos, k, cursor);
            lemma_parse_step(bytes, pos, k + m, cursor);
            assert((k - 1) as nat + m == (k + m - 1) as nat);
            match parse_elements(bytes, next, (k - 1) as nat, required) {
                Err(_) => {},
                Ok((others, mid)) => {
                    lemma_payload_concat(seq![e], others);
                    lemma_payload_single(e);
                    lemma_varint_bytes_len(size);
                    assert(cursor + payload(seq![e] + others).len() == required + payload(
                        others,
                    ).len());
                    lemma_after_after(
                        seq![e],
                        others,
                        parse_elements(bytes, mid, m, required + payload(others).len()),
                    );
                },
            }
        }
    }
}

/// Decoding fails with the refusal of the size where, behind elements that
/// are read, an element declares a length that exceeds the permitted size
/// when added to the payload of those elements. The refusal holds the size
/// asked for, or the largest `usize` where no `usize` holds it.
pub proof fn lemma_oversized_fails_decoding(bytes: Seq<u8>, k: nat)
    requires
        varint_parse(bytes) is Ok,
        k < varint_parse(bytes).unwrap(),
        parse_elements(bytes, varint_len(varint_parse(bytes).unwrap()) as int, k, 0) is Ok,
        ({
            let first = varint_len(varint_parse(bytes).unwrap()) as int;
            let (front, pos) = parse_elements(bytes, first, k, 0).unwrap();
            &&& varint_parse(bytes.skip(pos)) is Ok
            &&& payload(front).len() + varint_len(varint_parse(bytes.skip(pos)).unwrap())
                + varint_parse(bytes.skip(pos)).unwrap() > MAX_VEC_SIZE
        }),
    ensures
        ({
            let first = varint_len(varint_parse(bytes).unwrap()) as int;
            let (front, pos) = parse_elements(bytes, first, k, 0).unwrap();
            let size = varint_parse(bytes.skip(pos)).unwrap();
            let asked = payload(front).len() + varint_len(size) + size;
            parse_wire(bytes) == Err::<(Seq<Seq<u8>>, int), Error>(
                Error::OversizedVectorAllocation {
                    requested: if asked > usize::MAX {
                        usize::MAX
                    } else {
                        asked as usize
                    },
                    max: MAX_VEC_SIZE,
                },
            )
        }),
{
    let count = varint_parse(bytes).unwrap();
    let first = varint_len(count) as int;
    lemma_parse_split(bytes, first, k, (count - k) as nat, 0);
}

/// An element whose declared length, added to the payload read before it,
/// exceeds the permitted size is refused before any of its bytes is asked
/// for, whatever follows in the input.
pub proof fn lemma_oversized_is_refused(bytes: Seq<u8>, pos: int, remaining: nat, cursor: int)
    requires
        remaining > 0,
        0 <= cursor,
        varint_parse(bytes.skip(pos)) is Ok,
        cursor + varint_len(varint_parse(bytes.skip(pos)).unwrap()) + varint_parse(
            bytes.skip(pos),
        ).unwrap() > MAX_VEC_SIZE,
    ensures
        parse_elements(bytes, pos, remaining, cursor) matches Err(
            Error::OversizedVectorAllocation { requested, max },
        ) && max == MAX_VEC_SIZE && requested > MAX_VEC_SIZE,
{
}

} // verus!
