//! Decoding a stack from a source that hands out bytes on demand.
//!
//! The decoder says how many bytes it needs next, takes exactly those, and
//! says what to do then: read on, stop with the stack, or stop with an error.
//! It never asks for a byte behind the wire form of the stack.

use vstd::prelude::*;
use vstd::slice::slice_subrange;
use crate::codec::{
    after, checked_required_len, lemma_after_nothing, lemma_after_step, parse_elements,
    parse_wire, required_len, Parsed,
};
use crate::error::{Error, MAX_VEC_SIZE};
use crate::varint::{tail_width, varint_len, varint_parse, VarInt};
use crate::witness::Witness;

verus! {

/// Whether reading a stack from `wire` gives `parsed`, whatever follows.
pub open spec fn settled(wire: Seq<u8>, parsed: Parsed) -> bool {
    forall|ext: Seq<u8>| #[trigger] parse_wire(wire + ext) == parsed
}

/// Whether a stack that begins with `wire` is at least `n` bytes longer:
/// reading runs out of input as long as fewer than `n` bytes follow.
pub open spec fn short_by(wire: Seq<u8>, n: nat) -> bool {
    forall|ext: Seq<u8>|
        ext.len() < n ==> #[trigger] parse_wire(wire + ext) == Err::<(Seq<Seq<u8>>, int), Error>(
            Error::UnexpectedEof,
        )
}

/// Whether reading a stack from `wire`, whatever follows, comes to reading
/// `remaining` elements from position `start`, after `elements` with
/// `cursor` bytes of payload.
pub open spec fn follows(
    wire: Seq<u8>,
    start: int,
    elements: Seq<Seq<u8>>,
    remaining: nat,
    cursor: int,
) -> bool {
    forall|ext: Seq<u8>| #[trigger]
        parse_wire(wire + ext) == after(
            elements,
            parse_elements(wire + ext, start, remaining, cursor),
        )
}

/// What the decoder is waiting for.
enum Phase {
    /// The first byte of an integer.
    Tag,
    /// The bytes of an integer behind its first byte.
    Tail,
    /// The bytes of an element.
    Body,
}

/// A decoder that is waiting for bytes.
pub struct StreamDecoder {
    /// Every byte taken in so far.
    wire: Vec<u8>,
    /// Where the integer begins that is being read, or was read last.
    start: usize,
    /// What the decoder is waiting for.
    phase: Phase,
    /// Whether the number of elements has been read.
    count_known: bool,
    /// How many elements are still to be completed.
    remaining: u64,
    /// The size of the payload of the completed elements.
    cursor: usize,
    /// The size of the element that is being read.
    size: usize,
    /// The size of the payload once that element is complete.
    required: usize,
    /// The completed elements.
    elements: Ghost<Seq<Seq<u8>>>,
}

/// What to do once the decoder has taken bytes in.
pub enum Step {
    /// Hand the decoder as many bytes as it asks for.
    Read(StreamDecoder),
    /// The stack is complete.
    Done(Witness),
    /// The bytes are not the wire form of a stack.
    Failed(Error),
}

/// Whether `step` is right for a decoder that has taken in `wire`.
pub open spec fn right_step(step: Step, wire: Seq<u8>) -> bool {
    match step {
        Step::Read(next) => {
            &&& next.wf()
            &&& next.consumed() == wire
            &&& next.spec_asked() > 0
            &&& short_by(wire, next.spec_asked())
        },
        Step::Done(witness) => {
            &&& witness.wf()
            &&& settled(wire, Ok((witness@, wire.len() as int)))
        },
        Step::Failed(e) => settled(wire, Err(e)),
    }
}

/// An integer that is complete is read the same whatever follows it.
proof fn lemma_varint_extends(a: Seq<u8>, ext: Seq<u8>)
    requires
        a.len() >= 1,
        a.len() >= 1 + tail_width(a[0]),
    ensures
        varint_parse(a + ext) == varint_parse(a),
{
    let width = tail_width(a[0]);
    assert((a + ext)[0] == a[0]);
    assert((a + ext).subrange(1, (1 + width) as int) =~= a.subrange(1, (1 + width) as int));
}

/// An integer that was read took its first byte and what that byte calls for.
proof fn lemma_varint_width(a: Seq<u8>)
    requires
        varint_parse(a) is Ok,
    ensures
        a.len() >= 1,
        varint_len(varint_parse(a).unwrap()) == 1 + tail_width(a[0]),
{
}

/// What was found to follow goes on to follow when more bytes are taken in.
proof fn lemma_follows_more(
    wire: Seq<u8>,
    more: Seq<u8>,
    start: int,
    elements: Seq<Seq<u8>>,
    remaining: nat,
    cursor: int,
)
    requires
        follows(wire, start, elements, remaining, cursor),
    ensures
        follows(wire + more, start, elements, remaining, cursor),
{
    assert forall|ext: Seq<u8>| #[trigger]
        parse_wire((wire + more) + ext) == after(
            elements,
            parse_elements((wire + more) + ext, start, remaining, cursor),
        ) by {
        assert((wire + more) + ext =~= wire + (more + ext));
        assert(parse_wire(wire + (more + ext)) == after(
            elements,
            parse_elements(wire + (more + ext), start, remaining, cursor),
        ));
    }
}

/// Before the first byte of an integer there is at least one byte to come.
proof fn lemma_short_before_tag(
    wire: Seq<u8>,
    known: bool,
    elements: Seq<Seq<u8>>,
    remaining: nat,
    cursor: int,
)
    requires
        known ==> remaining > 0 && follows(wire, wire.len() as int, elements, remaining, cursor),
        !known ==> wire.len() == 0,
    ensures
        short_by(wire, 1),
{
    assert forall|ext: Seq<u8>| ext.len() < 1 implies #[trigger] parse_wire(wire + ext) == Err::<
        (Seq<Seq<u8>>, int),
        Error,
    >(Error::UnexpectedEof) by {
        assert(wire + ext =~= wire);
        if known {
            assert(parse_wire(wire + ext) == after(
                elements,
                parse_elements(wire + ext, wire.len() as int, remaining, cursor),
            ));
            assert(wire.skip(wire.len() as int) =~= Seq::<u8>::empty());
        }
    }
}

/// Behind a first byte that calls for more, that many bytes are to come.
proof fn lemma_short_before_tail(
    wire: Seq<u8>,
    start: int,
    known: bool,
    elements: Seq<Seq<u8>>,
    remaining: nat,
    cursor: int,
)
    requires
        0 <= start,
        wire.len() == start + 1,
        tail_width(wire[start]) > 0,
        known ==> remaining > 0 && follows(wire, start, elements, remaining, cursor),
        !known ==> start == 0,
    ensures
        short_by(wire, tail_width(wire[start])),
{
    assert forall|ext: Seq<u8>| ext.len() < tail_width(wire[start]) implies #[trigger] parse_wire(
        wire + ext,
    ) == Err::<(Seq<Seq<u8>>, int), Error>(Error::UnexpectedEof) by {
        let all = wire + ext;
        assert(all.skip(start)[0] == wire[start]);
        assert(all.skip(start).len() == 1 + ext.len());
        if known {
            assert(parse_wire(all) == after(
                elements,
                parse_elements(all, start, remaining, cursor),
            ));
        } else {
            assert(all.skip(0) =~= all);
        }
    }
}

/// Reading the length of an element that is too large fails, whatever
/// follows; behind the length of one that is not, its bytes are to come.
proof fn lemma_length_read(
    wire: Seq<u8>,
    start: int,
    elements: Seq<Seq<u8>>,
    remaining: nat,
    cursor: int,
    size: u64,
)
    requires
        0 <= start <= wire.len(),
        remaining > 0,
        follows(wire, start, elements, remaining, cursor),
        varint_parse(wire.skip(start)) == Ok::<u64, Error>(size),
        wire.len() == start + varint_len(size),
    ensures
        required_len(cursor, size) matches Err(e) ==> settled(wire, Err(e)),
        required_len(cursor, size) is Ok ==> short_by(wire, size as nat),
{
    lemma_varint_width(wire.skip(start));
    assert forall|ext: Seq<u8>|
        (required_len(cursor, size) matches Err(e) ==> #[trigger] parse_wire(wire + ext) == Err::<
            (Seq<Seq<u8>>, int),
            Error,
        >(e)) && (required_len(cursor, size) is Ok && ext.len() < size ==> parse_wire(wire + ext)
            == Err::<(Seq<Seq<u8>>, int), Error>(Error::UnexpectedEof)) by {
        let all = wire + ext;
        assert(all.skip(start) =~= wire.skip(start) + ext);
        lemma_varint_extends(wire.skip(start), ext);
        assert(parse_wire(all) == after(elements, parse_elements(all, start, remaining, cursor)));
    }
}

/// Once the bytes of an element are in, reading goes on behind it with one
/// element more and one fewer to come.
proof fn lemma_element_read(
    wire: Seq<u8>,
    start: int,
    elements: Seq<Seq<u8>>,
    remaining: nat,
    cursor: int,
    size: u64,
)
    requires
        0 <= start <= wire.len(),
        remaining > 0,
        follows(wire, start, elements, remaining, cursor),
        varint_parse(wire.skip(start)) == Ok::<u64, Error>(size),
        required_len(cursor, size) is Ok,
        wire.len() == start + varint_len(size) + size,
    ensures
        follows(
            wire,
            wire.len() as int,
            elements.push(wire.subrange(start + varint_len(size), wire.len() as int)),
            (remaining - 1) as nat,
            required_len(cursor, size).unwrap() as int,
        ),
{
    let from = start + varint_len(size);
    let e = wire.subrange(from, wire.len() as int);
    let required = required_len(cursor, size).unwrap() as int;
    lemma_varint_width(wire.skip(start));
    assert forall|ext: Seq<u8>| #[trigger]
        parse_wire(wire + ext) == after(
            elements.push(e),
            parse_elements(wire + ext, wire.len() as int, (remaining - 1) as nat, required),
        ) by {
        let all = wire + ext;
        let tail = parse_elements(all, wire.len() as int, (remaining - 1) as nat, required);
        assert(all.skip(start) =~= wire.skip(start) + ext);
        lemma_varint_extends(wire.skip(start), ext);
        assert(all.subrange(from, from + size) =~= e);
        assert(parse_wire(all) == after(elements, parse_elements(all, start, remaining, cursor)));
        assert(parse_elements(all, start, remaining, cursor) == after(seq![e], tail));
        lemma_after_step(elements, e, tail);
    }
}

/// Once the number of elements is read, reading comes to reading that many
/// elements behind it.
proof fn lemma_count_read(wire: Seq<u8>, count: u64)
    requires
        varint_parse(wire) == Ok::<u64, Error>(count),
        wire.len() == varint_len(count),
    ensures
        follows(wire, wire.len() as int, Seq::empty(), count as nat, 0),
{
    lemma_varint_width(wire);
    assert forall|ext: Seq<u8>| #[trigger]
        parse_wire(wire + ext) == after(
            Seq::empty(),
            parse_elements(wire + ext, wire.len() as int, count as nat, 0),
        ) by {
        lemma_varint_extends(wire, ext);
        lemma_after_nothing(parse_elements(wire + ext, wire.len() as int, count as nat, 0));
    }
}

/// With no element to come, what was read is the stack.
proof fn lemma_all_read(wire: Seq<u8>, elements: Seq<Seq<u8>>, cursor: int)
    requires
        follows(wire, wire.len() as int, elements, 0, cursor),
    ensures
        settled(wire, Ok((elements, wire.len() as int))),
{
    assert forall|ext: Seq<u8>| #[trigger]
        parse_wire(wire + ext) == Ok::<(Seq<Seq<u8>>, int), Error>(
            (elements, wire.len() as int),
        ) by {
        assert(parse_wire(wire + ext) == after(
            elements,
            parse_elements(wire + ext, wire.len() as int, 0, cursor),
        ));
        assert(elements + Seq::<Seq<u8>>::empty() =~= elements);
    }
}

/// A reading that fails on what was taken in fails whatever follows, where
/// the integer that it failed on is complete.
proof fn lemma_integer_refused(
    wire: Seq<u8>,
    start: int,
    known: bool,
    elements: Seq<Seq<u8>>,
    remaining: nat,
    cursor: int,
)
    requires
        0 <= start < wire.len(),
        wire.len() == start + 1 + tail_width(wire[start]),
        varint_parse(wire.skip(start)) is Err,
        known ==> remaining > 0 && follows(wire, start, elements, remaining, cursor),
        !known ==> start == 0,
    ensures
        settled(wire, Err(varint_parse(wire.skip(start))->Err_0)),
{
    let e = varint_parse(wire.skip(start))->Err_0;
    assert forall|ext: Seq<u8>| #[trigger]
        parse_wire(wire + ext) == Err::<(Seq<Seq<u8>>, int), Error>(e) by {
        let all = wire + ext;
        assert(all.skip(start) =~= wire.skip(start) + ext);
        lemma_varint_extends(wire.skip(start), ext);
        if known {
            assert(parse_wire(all) == after(
                elements,
                parse_elements(all, start, remaining, cursor),
            ));
        } else {
            assert(all.skip(0) =~= all);
        }
    }
}

impl StreamDecoder {
    /// The bytes taken in so far.
    pub closed spec fn consumed(&self) -> Seq<u8> {
        self.wire@
    }

    /// How many bytes the decoder is waiting for.
    pub closed spec fn spec_asked(&self) -> nat {
        match self.phase {
            Phase::Tag => 1,
            Phase::Tail => tail_width(self.wire@[self.start as int]),
            Phase::Body => self.size as nat,
        }
    }

    /// Whether the decoder has kept track of what it took in.
    pub closed spec fn wf(&self) -> bool {
        let wire = self.wire@;
        let start = self.start as int;
        &&& start <= wire.len()
        &&& self.cursor <= MAX_VEC_SIZE
        &&& self.count_known ==> self.remaining > 0 && follows(
            wire,
            start,
            self.elements@,
            self.remaining as nat,
            self.cursor as int,
        )
        &&& !self.count_known ==> start == 0
        &&& match self.phase {
            Phase::Tag => wire.len() == start,
            Phase::Tail => wire.len() == start + 1 && tail_width(wire[start]) > 0,
            Phase::Body => {
                &&& self.count_known
                &&& self.size > 0
                &&& varint_parse(wire.skip(start)) == Ok::<u64, Error>(self.size as u64)
                &&& wire.len() == start + varint_len(self.size as u64)
                &&& required_len(self.cursor as int, self.size as u64) == Ok::<usize, Error>(
                    self.required,
                )
            },
        }
    }

    /// A decoder that has taken nothing in. It waits for one byte.
    pub fn new() -> (decoder: StreamDecoder)
        ensures
            decoder.wf(),
            decoder.consumed() == Seq::<u8>::empty(),
            decoder.spec_asked() == 1,
            short_by(decoder.consumed(), 1),
    {
        let decoder = StreamDecoder {
            wire: Vec::new(),
            start: 0,
            phase: Phase::Tag,
            count_known: false,
            remaining: 0,
            cursor: 0,
            size: 0,
            required: 0,
            elements: Ghost(Seq::empty()),
        };
        proof {
            lemma_short_before_tag(decoder.wire@, false, Seq::empty(), 0, 0);
        }
        decoder
    }

    /// How many bytes the decoder is waiting for: never none.
    pub fn asked(&self) -> (n: usize)
        requires
            self.wf(),
        ensures
            n == self.spec_asked(),
            n > 0,
    {
        match self.phase {
            Phase::Tag => 1,
            Phase::Tail => VarInt::tail_len(self.wire[self.start]),
            Phase::Body => self.size,
        }
    }

    /// Takes in the bytes that the decoder asked for, and says what to do
    /// next.
    pub fn advance(self, bytes: &[u8]) -> (step: Step)
        requires
            self.wf(),
            bytes@.len() == self.spec_asked(),
        ensures
            right_step(step, self.consumed() + bytes@),
    {
        let ghost before = self.wire@;
        let mut decoder = self;
        decoder.wire.extend_from_slice(bytes);
        proof {
            assert(decoder.wire@ =~= before + bytes@);
            if decoder.count_known {
                lemma_follows_more(
                    before,
                    bytes@,
                    decoder.start as int,
                    decoder.elements@,
                    decoder.remaining as nat,
                    decoder.cursor as int,
                );
            }
        }
        match decoder.phase {
            Phase::Tag => {
                let tag: u8 = bytes[0];
                if VarInt::tail_len(tag) > 0 {
                    decoder.phase = Phase::Tail;
                    proof {
                        lemma_short_before_tail(
                            decoder.wire@,
                            decoder.start as int,
                            decoder.count_known,
                            decoder.elements@,
                            decoder.remaining as nat,
                            decoder.cursor as int,
                        );
                    }
                    Step::Read(decoder)
                } else {
                    assert(decoder.wire@.skip(decoder.start as int) =~= seq![tag]);
                    decoder.integer_read(tag as u64)
                }
            },
            Phase::Tail => {
                let integer = slice_subrange(
                    decoder.wire.as_slice(),
                    decoder.start,
                    decoder.wire.len(),
                );
                assert(integer@ =~= decoder.wire@.skip(decoder.start as int));
                match VarInt::consensus_decode(integer) {
                    Err(e) => {
                        proof {
                            lemma_integer_refused(
                                decoder.wire@,
                                decoder.start as int,
                                decoder.count_known,
                                decoder.elements@,
                                decoder.remaining as nat,
                                decoder.cursor as int,
                            );
                        }
                        Step::Failed(e)
                    },
                    Ok(value) => {
                        proof {
                            lemma_varint_width(integer@);
                        }
                        decoder.integer_read(value.0)
                    },
                }
            },
            Phase::Body => {
                proof {
                    let start = decoder.start as int;
                    assert(decoder.wire@.skip(start) =~= before.skip(start) + bytes@);
                    lemma_varint_width(before.skip(start));
                    lemma_varint_extends(before.skip(start), bytes@);
                }
                decoder.element_read()
            },
        }
    }

    /// Goes on once the integer that begins at `start` is complete.
    fn integer_read(self, value: u64) -> (step: Step)
        requires
            self.start <= self.wire@.len(),
            self.cursor <= MAX_VEC_SIZE,
            varint_parse(self.wire@.skip(self.start as int)) == Ok::<u64, Error>(value),
            self.wire@.len() == self.start + varint_len(value),
            self.count_known ==> self.remaining > 0 && follows(
                self.wire@,
                self.start as int,
                self.elements@,
                self.remaining as nat,
                self.cursor as int,
            ),
            !self.count_known ==> self.start == 0,
        ensures
            right_step(step, self.wire@),
    {
        let mut decoder = self;
        if !decoder.count_known {
            proof {
                assert(decoder.wire@.skip(0) =~= decoder.wire@);
                lemma_count_read(decoder.wire@, value);
            }
            decoder.count_known = true;
            decoder.remaining = value;
            decoder.cursor = 0;
            decoder.elements = Ghost(Seq::empty());
            decoder.next_element()
        } else {
            proof {
                lemma_length_read(
                    decoder.wire@,
                    decoder.start as int,
                    decoder.elements@,
                    decoder.remaining as nat,
                    decoder.cursor as int,
                    value,
                );
            }
            match checked_required_len(decoder.cursor, value) {
                Err(e) => Step::Failed(e),
                Ok(required) => {
                    decoder.size = value as usize;
                    decoder.required = required;
                    if value == 0 {
                        decoder.element_read()
                    } else {
                        decoder.phase = Phase::Body;
                        Step::Read(decoder)
                    }
                },
            }
        }
    }

    /// Goes on once the bytes of an element are in.
    fn element_read(self) -> (step: Step)
        requires
            self.start <= self.wire@.len(),
            self.count_known,
            self.remaining > 0,
            follows(
                self.wire@,
                self.start as int,
                self.elements@,
                self.remaining as nat,
                self.cursor as int,
            ),
            varint_parse(self.wire@.skip(self.start as int)) == Ok::<u64, Error>(self.size as u64),
            required_len(self.cursor as int, self.size as u64) == Ok::<usize, Error>(
                self.required,
            ),
            self.wire@.len() == self.start + varint_len(self.size as u64) + self.size,
        ensures
            right_step(step, self.wire@),
    {
        let mut decoder = self;
        proof {
            lemma_element_read(
                decoder.wire@,
                decoder.start as int,
                decoder.elements@,
                decoder.remaining as nat,
                decoder.cursor as int,
                decoder.size as u64,
            );
        }
        decoder.elements = Ghost(
            decoder.elements@.push(
                decoder.wire@.subrange(
                    decoder.start + varint_len(decoder.size as u64),
                    decoder.wire@.len() as int,
                ),
            ),
        );
        decoder.remaining = decoder.remaining - 1;
        decoder.cursor = decoder.required;
        decoder.next_element()
    }

    /// Waits for the next element, or ends where none is to come.
    fn next_element(self) -> (step: Step)
        requires
            self.cursor <= MAX_VEC_SIZE,
            self.count_known,
            follows(
                self.wire@,
                self.wire@.len() as int,
                self.elements@,
                self.remaining as nat,
                self.cursor as int,
            ),
        ensures
            right_step(step, self.wire@),
    {
        let mut decoder = self;
        if decoder.remaining == 0 {
            proof {
                lemma_all_read(decoder.wire@, decoder.elements@, decoder.cursor as int);
                assert(decoder.wire@ + Seq::<u8>::empty() =~= decoder.wire@);
                assert(parse_wire(decoder.wire@ + Seq::<u8>::empty()) == Ok::<
                    (Seq<Seq<u8>>, int),
                    Error,
                >((decoder.elements@, decoder.wire@.len() as int)));
            }
            match Witness::consensus_decode(decoder.wire.as_slice()) {
                Ok((witness, _)) => Step::Done(witness),
                Err(_) => vstd::pervasive::unreached(),
            }
        } else {
            decoder.start = decoder.wire.len();
            decoder.phase = Phase::Tag;
            proof {
                lemma_short_before_tag(
                    decoder.wire@,
                    true,
                    decoder.elements@,
                    decoder.remaining as nat,
                    decoder.cursor as int,
                );
            }
            Step::Read(decoder)
        }
    }
}

} // verus!
