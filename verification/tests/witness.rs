use std::io::Read;

use bitcoin_hashes::hex::{FromHex, ToHex};
use secp256k1::ecdsa;
use witness::packing::{check_packed, decode_cursor, encode_cursor, list_fits, read_element};
use witness::codec::{checked_required_len, resize_if_needed};
use witness::{
    deserialize, serialize, EcdsaSighashType, Error, Step, StreamDecoder, VarInt, Witness,
    MAX_VEC_SIZE,
};

/// The wire form of a list of byte strings, written element by element.
fn serialize_list(list: &[Vec<u8>]) -> Vec<u8> {
    let mut out = Vec::new();
    VarInt(list.len() as u64).consensus_encode(&mut out);
    for el in list {
        VarInt(el.len() as u64).consensus_encode(&mut out);
        out.extend_from_slice(el);
    }
    out
}

fn collect(witness: &Witness) -> Vec<Vec<u8>> {
    let mut out = Vec::new();
    let mut iter = witness.iter();
    while let Some(el) = iter.next() {
        out.push(el.to_vec());
    }
    out
}

/// Feeds `input` to a decoder as it asks for it. Gives what the decoder ends
/// with and how much of the input it took, or nothing where the input ends
/// before the decoder does.
fn decode_stream(input: &[u8]) -> Option<(Result<Witness, Error>, usize)> {
    let mut decoder = StreamDecoder::new();
    let mut pos = 0;
    loop {
        let n = decoder.asked();
        assert!(n > 0);
        if input.len() - pos < n {
            return None;
        }
        let step = decoder.advance(&input[pos..pos + n]);
        pos += n;
        match step {
            Step::Read(next) => decoder = next,
            Step::Done(witness) => return Some((Ok(witness), pos)),
            Step::Failed(e) => return Some((Err(e), pos)),
        }
    }
}

#[test]
fn test_push() {
    let mut witness = Witness::default();
    assert_eq!(witness.last(), None);
    assert_eq!(witness.second_to_last(), None);
    witness.push(&vec![0u8]);
    let expected = Witness::from_raw_parts(vec![1u8, 0, 0, 0, 0, 0], 1, 2).unwrap();
    assert_eq!(witness, expected);
    assert_eq!(witness.last(), Some(&[0u8][..]));
    assert_eq!(witness.second_to_last(), None);
    witness.push(&vec![2u8, 3u8]);
    let expected =
        Witness::from_raw_parts(vec![1u8, 0, 2, 2, 3, 0, 0, 0, 0, 2, 0, 0, 0], 2, 5).unwrap();
    assert_eq!(witness, expected);
    assert_eq!(witness.last(), Some(&[2u8, 3u8][..]));
    assert_eq!(witness.second_to_last(), Some(&[0u8][..]));
}

#[test]
fn test_iter_len() {
    let mut witness = Witness::default();
    for i in 0..5 {
        assert_eq!(witness.iter().len(), i);
        witness.push(&vec![0u8]);
    }
    let mut iter = witness.iter();
    for i in (0..=5).rev() {
        assert_eq!(iter.len(), i);
        iter.next();
    }
}

#[test]
fn test_push_ecdsa_sig() {
    // The very first signature in block 734,958
    let sig_bytes =
        Vec::from_hex("304402207c800d698f4b0298c5aac830b822f011bb02df41eb114ade9a6702f364d5e39c0220366900d2a60cab903e77ef7dd415d46509b1f78ac78906e3296f495aa1b1b541");
    let sig = ecdsa::Signature::from_der(&sig_bytes.unwrap()).unwrap();
    let mut witness = Witness::default();
    witness.push_bitcoin_signature(&sig.serialize_der(), EcdsaSighashType::All);
    let expected_witness = vec![Vec::from_hex(
        "304402207c800d698f4b0298c5aac830b822f011bb02df41eb114ade9a6702f364d5e39c0220366900d2a60cab903e77ef7dd415d46509b1f78ac78906e3296f495aa1b1b54101")
        .unwrap()];
    assert_eq!(witness.to_vec(), expected_witness);
}

#[test]
fn test_witness() {
    let w0 = Vec::from_hex("03d2e15674941bad4a996372cb87e1856d3652606d98562fe39c5e9e7e413f2105")
        .unwrap();
    let w1 = Vec::from_hex("000000").unwrap();
    let witness_vec = vec![w0.clone(), w1.clone()];
    let witness_serialized: Vec<u8> = serialize_list(&witness_vec);
    let mut content = witness_serialized[1..].to_vec();
    content.extend([0, 0, 0, 0, 34, 0, 0, 0]); // indices 0 and 34
    let witness = Witness::from_raw_parts(content, 2, 38).unwrap();
    let mut iter = witness.iter();
    let mut i = 0;
    while let Some(el) = iter.next() {
        assert_eq!(witness_vec[i], el);
        i += 1;
    }
    assert_eq!(i, 2);
    assert_eq!(witness.last(), Some(&w1[..]));
    assert_eq!(witness.second_to_last(), Some(&w0[..]));

    let w_into = Witness::from_vec(witness_vec);
    assert_eq!(w_into, witness);

    assert_eq!(witness_serialized, serialize(&witness));
}

#[test]
fn test_tx() {
    let s = "02000000000102b44f26b275b8ad7b81146ba3dbecd081f9c1ea0dc05b97516f56045cfcd3df030100000000ffffffff1cb4749ae827c0b75f3d0a31e63efc8c71b47b5e3634a4c698cd53661cab09170100000000ffffffff020b3a0500000000001976a9143ea74de92762212c96f4dd66c4d72a4deb20b75788ac630500000000000016001493a8dfd1f0b6a600ab01df52b138cda0b82bb7080248304502210084622878c94f4c356ce49c8e33a063ec90f6ee9c0208540888cfab056cd1fca9022014e8dbfdfa46d318c6887afd92dcfa54510e057565e091d64d2ee3a66488f82c0121026e181ffb98ebfe5a64c983073398ea4bcd1548e7b971b4c175346a25a1c12e950247304402203ef00489a0d549114977df2820fab02df75bebb374f5eee9e615107121658cfa02204751f2d1784f8e841bff6d3bcf2396af2f1a5537c0e4397224873fbd3bfbe9cf012102ae6aa498ce2dd204e9180e71b4fb1260fe3d1a95c8025b34e56a9adf5f278af200000000";
    let tx_bytes = Vec::from_hex(s).unwrap();
    // The witnesses of the two inputs stand behind the outputs, one after
    // the other, and the lock time of four bytes ends the transaction.
    let witnesses_start = 155;
    let (first, used) = Witness::consensus_decode(&tx_bytes[witnesses_start..]).unwrap();
    assert_eq!(used, 108);
    let (second, used_second) =
        Witness::consensus_decode(&tx_bytes[witnesses_start + used..]).unwrap();
    assert_eq!(witnesses_start + used + used_second + 4, tx_bytes.len());

    let expected_wit = ["304502210084622878c94f4c356ce49c8e33a063ec90f6ee9c0208540888cfab056cd1fca9022014e8dbfdfa46d318c6887afd92dcfa54510e057565e091d64d2ee3a66488f82c01", "026e181ffb98ebfe5a64c983073398ea4bcd1548e7b971b4c175346a25a1c12e95"];
    let elements = collect(&first);
    assert_eq!(elements.len(), 2);
    for (i, wit_el) in elements.iter().enumerate() {
        assert_eq!(expected_wit[i], wit_el.to_hex());
    }
    assert_eq!(expected_wit[1], first.last().unwrap().to_hex());
    assert_eq!(expected_wit[0], first.second_to_last().unwrap().to_hex());

    let mut bytes_back = tx_bytes[..witnesses_start].to_vec();
    first.consensus_encode(&mut bytes_back);
    second.consensus_encode(&mut bytes_back);
    bytes_back.extend_from_slice(&tx_bytes[tx_bytes.len() - 4..]);
    assert_eq!(bytes_back, tx_bytes);
}

#[test]
fn fuzz_cases() {
    let s = "26ff0000000000c94ce592cf7a4cbb68eb00ce374300000057cd0000000000000026";
    let bytes = Vec::from_hex(s).unwrap();
    assert!(deserialize(&bytes).is_err()); // OversizedVectorAllocation

    let s = "24000000ffffffffffffffffffffffff";
    let bytes = Vec::from_hex(s).unwrap();
    assert!(deserialize(&bytes).is_err()); // OversizedVectorAllocation
}

#[test]
fn fuzz_cases_report_the_size() {
    let bytes =
        Vec::from_hex("26ff0000000000c94ce592cf7a4cbb68eb00ce374300000057cd0000000000000026")
            .unwrap();
    let requested = 0xe54c_c900_0000_0000u64 + 9;
    let expected = if requested > usize::MAX as u64 { usize::MAX } else { requested as usize };
    assert_eq!(
        deserialize(&bytes),
        Err(Error::OversizedVectorAllocation { requested: expected, max: 4_000_000 })
    );

    let bytes = Vec::from_hex("24000000ffffffffffffffffffffffff").unwrap();
    assert_eq!(
        deserialize(&bytes),
        Err(Error::OversizedVectorAllocation { requested: usize::MAX, max: MAX_VEC_SIZE })
    );
}

#[test]
fn round_trip_through_vectors() {
    let lists: Vec<Vec<Vec<u8>>> = vec![
        vec![],
        vec![vec![]],
        vec![vec![], vec![]],
        vec![vec![1u8; 5]],
        vec![vec![0u8, 123, 75], vec![2u8, 6, 3, 7, 8]],
        vec![vec![7u8; 252], vec![8u8; 253], vec![], vec![9u8; 70_000]],
    ];
    for list in lists {
        let witness = Witness::from_vec(list.clone());
        assert_eq!(witness.len(), list.len());
        assert_eq!(witness.is_empty(), list.is_empty());
        assert_eq!(witness.to_vec(), list);
        assert_eq!(collect(&witness), list);
    }
}

#[test]
fn from_vec_lays_the_buffer_out() {
    let witness = Witness::from_vec(vec![vec![0u8], vec![2u8, 3]]);
    let expected =
        Witness::from_raw_parts(vec![1u8, 0, 2, 2, 3, 0, 0, 0, 0, 2, 0, 0, 0], 2, 5).unwrap();
    assert_eq!(witness, expected);

    // An element of 253 bytes has a length prefix of three bytes, so the
    // second entry begins at 256 = 0x0100.
    let witness = Witness::from_vec(vec![vec![5u8; 253], vec![6u8]]);
    let mut content = vec![0xFDu8, 0xFD, 0x00];
    content.extend(vec![5u8; 253]);
    content.extend([1u8, 6]);
    content.extend([0u8, 0, 0, 0, 0, 1, 0, 0]);
    assert_eq!(witness, Witness::from_raw_parts(content, 2, 258).unwrap());
}

#[test]
fn wire_round_trip() {
    let inputs: Vec<Vec<u8>> = vec![
        vec![0],
        vec![1, 0],
        vec![2, 1, 0xAA, 0],
        vec![3, 2, 1, 2, 0, 1, 0x50],
        serialize_list(&[vec![1u8; 252], vec![2u8; 253], vec![3u8; 65_536]]),
    ];
    for bytes in inputs {
        let witness = deserialize(&bytes).unwrap();
        assert_eq!(serialize(&witness), bytes);
        assert_eq!(witness.serialized_len(), bytes.len());
        let mut sink = vec![0xEEu8];
        assert_eq!(witness.consensus_encode(&mut sink), bytes.len());
        assert_eq!(sink[0], 0xEE);
        assert_eq!(&sink[1..], &bytes[..]);
    }
}

#[test]
fn encode_then_decode() {
    let list = vec![vec![9u8; 300], vec![], vec![1u8, 2, 3]];
    let witness = Witness::from_vec(list.clone());
    let mut bytes = serialize(&witness);
    assert_eq!(bytes, serialize_list(&list));
    assert_eq!(deserialize(&bytes).unwrap(), witness);
    bytes.extend([1u8, 2, 3]);
    let (decoded, used) = Witness::consensus_decode(&bytes).unwrap();
    assert_eq!(decoded, witness);
    assert_eq!(used, bytes.len() - 3);
    assert_eq!(deserialize(&bytes), Err(Error::ParseFailed));
}

#[test]
fn decode_of_many_elements_grows_the_buffer() {
    let list: Vec<Vec<u8>> = (0..300usize).map(|i| vec![i as u8; i % 7]).collect();
    let bytes = serialize_list(&list);
    let witness = deserialize(&bytes).unwrap();
    assert_eq!(witness.len(), 300);
    assert_eq!(witness.to_vec(), list);
    assert_eq!(witness, Witness::from_vec(list));
}

#[test]
fn empty_stack_is_canonical() {
    let (witness, used) = Witness::consensus_decode(&[0u8, 7, 7]).unwrap();
    assert_eq!(used, 1);
    assert_eq!(witness, Witness::new());
    assert_eq!(witness, Witness::default());
    assert_eq!(witness, Witness::from_vec(vec![]));
    assert_eq!(witness, Witness::from_raw_parts(vec![], 0, 0).unwrap());
    assert!(witness.is_empty());
    assert_eq!(witness.len(), 0);
    assert_eq!(witness.serialized_len(), 1);
    assert_eq!(serialize(&witness), vec![0u8]);
    assert_eq!(witness.to_vec(), Vec::<Vec<u8>>::new());
    assert_eq!(witness.get_tapscript(), None);
}

#[test]
fn append_moves_the_last_element_down() {
    let mut witness = Witness::from_vec(vec![vec![1u8], vec![2u8, 2]]);
    for i in 0..40usize {
        let before_len = witness.len();
        let before_last = witness.last().map(|s| s.to_vec());
        let element = vec![i as u8; i * 9];
        witness.push(&element);
        assert_eq!(witness.len(), before_len + 1);
        assert_eq!(witness.last(), Some(&element[..]));
        assert_eq!(witness.second_to_last().map(|s| s.to_vec()), before_last);
    }
    let mut expected = vec![vec![1u8], vec![2u8, 2]];
    expected.extend((0..40usize).map(|i| vec![i as u8; i * 9]));
    assert_eq!(witness.to_vec(), expected);
    assert_eq!(witness, Witness::from_vec(expected));
}

#[test]
fn push_of_long_element() {
    let mut witness = Witness::new();
    witness.push(&[4u8; 0x1_0000]);
    witness.push(&[]);
    assert_eq!(witness.len(), 2);
    assert_eq!(witness.nth(0).unwrap().len(), 0x1_0000);
    assert_eq!(witness.nth(1), Some(&[][..]));
    assert_eq!(witness.serialized_len(), 1 + 5 + 0x1_0000 + 1);
    let bytes = serialize(&witness);
    assert_eq!(&bytes[..6], &[2u8, 0xFE, 0, 0, 1, 0]);
    assert_eq!(bytes[bytes.len() - 1], 0);
}

#[test]
fn bounds() {
    let empty = Witness::new();
    assert_eq!(empty.nth(0), None);
    assert_eq!(empty.nth(usize::MAX), None);
    assert_eq!(empty.last(), None);
    assert_eq!(empty.second_to_last(), None);

    let one = Witness::from_vec(vec![vec![7u8]]);
    assert_eq!(one.nth(0), Some(&[7u8][..]));
    assert_eq!(one.nth(1), None);
    assert_eq!(one.nth(usize::MAX / 4), None);
    assert_eq!(one.nth(usize::MAX / 4 + 1), None);
    assert_eq!(one.nth(usize::MAX), None);
    assert_eq!(one.last(), Some(&[7u8][..]));
    assert_eq!(one.second_to_last(), None);

    let three = Witness::from_vec(vec![vec![1u8], vec![], vec![3u8, 3]]);
    assert_eq!(three.nth(2), Some(&[3u8, 3][..]));
    assert_eq!(three.nth(3), None);
    assert_eq!(&three[0], &[1u8][..]);
    assert_eq!(&three[1], &[][..]);
    assert_eq!(&three[2], &[3u8, 3][..]);
}

#[test]
fn example_vector() {
    let mut witness = Witness::new();
    witness.push(&[0x00]);
    witness.push(&[0x02, 0x03]);
    assert_eq!(witness.len(), 2);
    assert_eq!(witness.nth(0), Some(&[0x00u8][..]));
    assert_eq!(witness.nth(1), Some(&[0x02u8, 0x03][..]));
    assert_eq!(witness.last(), Some(&[0x02u8, 0x03][..]));
}

#[test]
fn tapscript() {
    let a = vec![0xA1u8, 1];
    let b = vec![0xB2u8, 2, 2];
    let c = vec![0xC3u8];
    let annex = vec![0x50u8, 9];

    let w = Witness::from_vec(vec![a.clone(), b.clone(), c.clone()]);
    assert_eq!(w.get_tapscript(), Some(&b[..]));

    let w = Witness::from_vec(vec![a.clone(), b.clone(), c.clone(), annex.clone()]);
    assert_eq!(w.get_tapscript(), Some(&b[..]));

    let w = Witness::from_vec(vec![b.clone(), c.clone()]);
    assert_eq!(w.get_tapscript(), Some(&b[..]));

    // Two elements with an annex leave no script.
    let w = Witness::from_vec(vec![b.clone(), annex.clone()]);
    assert_eq!(w.get_tapscript(), None);

    // A single element is never set aside as an annex, and leaves no script.
    let w = Witness::from_vec(vec![annex.clone()]);
    assert_eq!(w.get_tapscript(), None);
    let w = Witness::from_vec(vec![c.clone()]);
    assert_eq!(w.get_tapscript(), None);

    // An empty last element is no annex.
    let w = Witness::from_vec(vec![a.clone(), b.clone(), vec![]]);
    assert_eq!(w.get_tapscript(), Some(&b[..]));

    // Only the first byte of the last element counts.
    let w = Witness::from_vec(vec![a.clone(), b.clone(), vec![0x51, 0x50]]);
    assert_eq!(w.get_tapscript(), Some(&b[..]));
    let w = Witness::from_vec(vec![a.clone(), annex.clone(), c.clone()]);
    assert_eq!(w.get_tapscript(), Some(&annex[..]));
}

#[test]
fn clear_resets() {
    let mut witness = Witness::from_vec(vec![vec![1u8, 2], vec![3u8]]);
    witness.clear();
    assert_eq!(witness, Witness::new());
    assert_eq!(witness.len(), 0);
    witness.push(&[5u8]);
    assert_eq!(witness, Witness::from_vec(vec![vec![5u8]]));
}

#[test]
fn clone_is_equal() {
    let witness = Witness::from_vec(vec![vec![1u8, 2], vec![3u8]]);
    let copy = witness.clone();
    assert_eq!(copy, witness);
    assert_eq!(copy.to_vec(), vec![vec![1u8, 2], vec![3u8]]);
}

#[test]
fn iter_counts_down() {
    let witness = Witness::from_vec(vec![vec![1u8], vec![2u8, 2], vec![]]);
    let mut iter = witness.iter();
    assert_eq!(iter.size_hint(), (3, Some(3)));
    assert_eq!(iter.next(), Some(&[1u8][..]));
    assert_eq!(iter.size_hint(), (2, Some(2)));
    assert_eq!(iter.next(), Some(&[2u8, 2][..]));
    assert_eq!(iter.next(), Some(&[][..]));
    assert_eq!(iter.size_hint(), (0, Some(0)));
    assert_eq!(iter.next(), None);
    assert_eq!(iter.next(), None);
    assert_eq!(iter.len(), 0);
}

#[test]
fn decode_errors() {
    // No count at all.
    assert_eq!(deserialize(&[]), Err(Error::UnexpectedEof));
    // A count that is cut short.
    assert_eq!(deserialize(&[0xFD, 0x00]), Err(Error::UnexpectedEof));
    // A count in three bytes that one byte holds.
    assert_eq!(deserialize(&[0xFD, 0x01, 0x00]), Err(Error::NonMinimalVarInt));
    // One element announced, none there.
    assert_eq!(deserialize(&[1]), Err(Error::UnexpectedEof));
    // An element of three bytes announced, two there.
    assert_eq!(deserialize(&[1, 3, 0xAA, 0xBB]), Err(Error::UnexpectedEof));
    // A length in five bytes that three bytes hold.
    assert_eq!(deserialize(&[1, 0xFE, 0xFF, 0xFF, 0, 0]), Err(Error::NonMinimalVarInt));
    // A length in nine bytes that five bytes hold.
    assert_eq!(
        deserialize(&[1, 0xFF, 0xFF, 0xFF, 0xFF, 0xFF, 0, 0, 0, 0]),
        Err(Error::NonMinimalVarInt)
    );
    // Bytes behind the stack.
    assert_eq!(deserialize(&[1, 1, 0xAA, 0xBB]), Err(Error::ParseFailed));
    // The second element fails: nothing of the first is returned.
    assert_eq!(deserialize(&[2, 1, 0xAA, 0xFD, 0x10, 0x00]), Err(Error::NonMinimalVarInt));
}

#[test]
fn oversized_is_refused_before_the_bytes_are_read() {
    // One element of 4,000,000 bytes: with its prefix of five bytes it is
    // five bytes too large. Not one byte of it is in the input.
    let bytes = [1u8, 0xFE, 0x00, 0x09, 0x3D, 0x00];
    assert_eq!(
        deserialize(&bytes),
        Err(Error::OversizedVectorAllocation { requested: 4_000_005, max: 4_000_000 })
    );
    // 3,999,995 bytes fit exactly, so here the input is what falls short.
    let bytes = [1u8, 0xFE, 0xFB, 0x08, 0x3D, 0x00];
    assert_eq!(deserialize(&bytes), Err(Error::UnexpectedEof));
    // The sizes add up over the elements.
    let mut bytes = vec![2u8, 3, 1, 2, 3];
    bytes.extend([0xFEu8, 0xF8, 0x08, 0x3D, 0x00]);
    assert_eq!(
        deserialize(&bytes),
        Err(Error::OversizedVectorAllocation { requested: 4_000_001, max: 4_000_000 })
    );
}

#[test]
fn largest_permitted_stack() {
    let element = vec![0xABu8; 3_999_995];
    let bytes = serialize_list(&[element.clone()]);
    let witness = deserialize(&bytes).unwrap();
    assert_eq!(witness.len(), 1);
    assert_eq!(witness.last(), Some(&element[..]));
    assert_eq!(witness.serialized_len(), 4_000_001);
}

#[test]
fn raw_parts_are_checked() {
    let good = vec![1u8, 0, 2, 2, 3, 0, 0, 0, 0, 2, 0, 0, 0];
    assert!(Witness::from_raw_parts(good.clone(), 2, 5).is_some());
    // The boundary is off.
    assert!(Witness::from_raw_parts(good.clone(), 2, 4).is_none());
    assert!(Witness::from_raw_parts(good.clone(), 2, 6).is_none());
    assert!(Witness::from_raw_parts(good.clone(), 2, 14).is_none());
    // The count is off.
    assert!(Witness::from_raw_parts(good.clone(), 1, 5).is_none());
    assert!(Witness::from_raw_parts(good.clone(), 3, 5).is_none());
    assert!(Witness::from_raw_parts(good.clone(), usize::MAX, 5).is_none());
    // A slot that points into the middle of an entry.
    let mut bad = good.clone();
    bad[9] = 3;
    assert!(Witness::from_raw_parts(bad, 2, 5).is_none());
    // Slots out of order.
    let mut bad = good.clone();
    bad[5] = 2;
    bad[9] = 0;
    assert!(Witness::from_raw_parts(bad, 2, 5).is_none());
    // An element that runs into the index region.
    let mut bad = good.clone();
    bad[2] = 3;
    assert!(Witness::from_raw_parts(bad, 2, 5).is_none());
    // A gap between the last entry and the index region.
    assert!(Witness::from_raw_parts(vec![1u8, 0, 0xFF, 0, 0, 0, 0], 1, 3).is_none());
    // A length prefix that is not in its shortest form.
    assert!(Witness::from_raw_parts(vec![0xFDu8, 1, 0, 7, 0, 0, 0, 0], 1, 4).is_none());
    // An empty stack has an empty buffer.
    assert!(Witness::from_raw_parts(vec![0u8], 0, 1).is_none());
    assert!(Witness::from_raw_parts(vec![], 0, 0).is_some());
}

#[test]
fn varint_forms() {
    let cases: Vec<(u64, Vec<u8>)> = vec![
        (0, vec![0]),
        (0xFC, vec![0xFC]),
        (0xFD, vec![0xFD, 0xFD, 0]),
        (0xFFFF, vec![0xFD, 0xFF, 0xFF]),
        (0x1_0000, vec![0xFE, 0, 0, 1, 0]),
        (0xFFFF_FFFF, vec![0xFE, 0xFF, 0xFF, 0xFF, 0xFF]),
        (0x1_0000_0000, vec![0xFF, 0, 0, 0, 0, 1, 0, 0, 0]),
        (0x0102_0304_0506_0708, vec![0xFF, 8, 7, 6, 5, 4, 3, 2, 1]),
        (u64::MAX, vec![0xFF; 9]),
    ];
    for (value, bytes) in cases {
        assert_eq!(VarInt(value).len(), bytes.len());
        let mut out = vec![0x77u8];
        assert_eq!(VarInt(value).consensus_encode(&mut out), bytes.len());
        assert_eq!(&out[1..], &bytes[..]);
        let mut buf = vec![0x11u8; bytes.len() + 2];
        VarInt(value).encode_at(&mut buf, 1);
        assert_eq!(buf[0], 0x11);
        assert_eq!(&buf[1..bytes.len() + 1], &bytes[..]);
        assert_eq!(buf[bytes.len() + 1], 0x11);
        let mut followed = bytes.clone();
        followed.extend([0xEEu8, 0xEE]);
        assert_eq!(VarInt::consensus_decode(&followed), Ok(VarInt(value)));
        assert_eq!(VarInt::tail_len(bytes[0]), bytes.len() - 1);
    }
    assert_eq!(VarInt::consensus_decode(&[]), Err(Error::UnexpectedEof));
    assert_eq!(VarInt::consensus_decode(&[0xFF, 1, 2, 3, 4, 5, 6, 7]), Err(Error::UnexpectedEof));
    assert_eq!(VarInt::consensus_decode(&[0xFD, 0xFC, 0]), Err(Error::NonMinimalVarInt));
}

#[test]
fn sighash_bytes() {
    assert_eq!(EcdsaSighashType::All.to_u8(), 0x01);
    assert_eq!(EcdsaSighashType::NoOutput.to_u8(), 0x02);
    assert_eq!(EcdsaSighashType::Single.to_u8(), 0x03);
    assert_eq!(EcdsaSighashType::AllPlusAnyoneCanPay.to_u8(), 0x81);
    assert_eq!(EcdsaSighashType::NonePlusAnyoneCanPay.to_u8(), 0x82);
    assert_eq!(EcdsaSighashType::SinglePlusAnyoneCanPay.to_u8(), 0x83);
}

#[test]
fn signature_is_pushed_behind_other_elements() {
    let der = Vec::from_hex("304402207c800d698f4b0298c5aac830b822f011bb02df41eb114ade9a6702f364d5e39c0220366900d2a60cab903e77ef7dd415d46509b1f78ac78906e3296f495aa1b1b541").unwrap();
    let sig = ecdsa::Signature::from_der(&der).unwrap();
    let mut witness = Witness::from_vec(vec![vec![1u8, 2, 3]]);
    witness.push_bitcoin_signature(&sig.serialize_der(), EcdsaSighashType::SinglePlusAnyoneCanPay);
    let mut expected = der.clone();
    expected.push(0x83);
    assert_eq!(witness.to_vec(), vec![vec![1u8, 2, 3], expected]);
}

#[test]
fn stream_takes_what_the_stack_takes() {
    let lists: Vec<Vec<Vec<u8>>> = vec![
        vec![],
        vec![vec![]],
        vec![vec![], vec![1u8]],
        vec![vec![0u8, 123, 75], vec![2u8, 6, 3, 7, 8]],
        vec![vec![7u8; 252], vec![8u8; 253], vec![], vec![9u8; 70_000]],
        (0..300usize).map(|i| vec![i as u8; i % 5]).collect(),
    ];
    for list in lists {
        let wire = serialize_list(&list);
        let mut input = wire.clone();
        input.extend([0xFFu8; 16]);
        let (result, used) = decode_stream(&input).unwrap();
        assert_eq!(used, wire.len());
        assert_eq!(result, Ok(Witness::from_vec(list)));
        // Cut short anywhere, the input ends before the decoder does.
        for cut in 0..wire.len().min(600) {
            assert!(decode_stream(&wire[..cut]).is_none());
        }
    }
}

#[test]
fn stream_asks_for_each_part() {
    let decoder = StreamDecoder::new();
    assert_eq!(decoder.asked(), 1);
    // A count in three bytes: its first byte, then two more.
    let decoder = match decoder.advance(&[0xFD]) {
        Step::Read(next) => next,
        _ => panic!("the count is not complete"),
    };
    assert_eq!(decoder.asked(), 2);
    let decoder = match decoder.advance(&[0x00, 0x01]) {
        Step::Read(next) => next,
        _ => panic!("256 elements are to come"),
    };
    assert_eq!(decoder.asked(), 1);
    // A length in five bytes.
    let decoder = match decoder.advance(&[0xFE]) {
        Step::Read(next) => next,
        _ => panic!("the length is not complete"),
    };
    assert_eq!(decoder.asked(), 4);
    let decoder = match decoder.advance(&[0x00, 0x00, 0x01, 0x00]) {
        Step::Read(next) => next,
        _ => panic!("the element is to come"),
    };
    assert_eq!(decoder.asked(), 0x1_0000);
    let decoder = match decoder.advance(&vec![0u8; 0x1_0000]) {
        Step::Read(next) => next,
        _ => panic!("255 elements are to come"),
    };
    // An empty element is complete with its length.
    assert_eq!(decoder.asked(), 1);
    let decoder = match decoder.advance(&[0x00]) {
        Step::Read(next) => next,
        _ => panic!("254 elements are to come"),
    };
    assert_eq!(decoder.asked(), 1);
}

#[test]
fn stream_fails_as_decoding_does() {
    let inputs: Vec<Vec<u8>> = vec![
        vec![0xFD, 0x01, 0x00],
        vec![1, 0xFE, 0xFF, 0xFF, 0, 0],
        vec![2, 1, 0xAA, 0xFD, 0x10, 0x00],
        vec![1, 0xFE, 0x00, 0x09, 0x3D, 0x00],
        vec![2, 3, 1, 2, 3, 0xFE, 0xF8, 0x08, 0x3D, 0x00],
        Vec::from_hex("26ff0000000000c94ce592cf7a4cbb68eb00ce374300000057cd0000000000000026")
            .unwrap(),
        Vec::from_hex("24000000ffffffffffffffffffffffff").unwrap(),
    ];
    for input in inputs {
        let expected = Witness::consensus_decode(&input).unwrap_err();
        let (result, _) = decode_stream(&input).unwrap();
        assert_eq!(result, Err(expected));
    }
    // The error comes with the byte that decides it: nothing behind the
    // length of an element that is too large is asked for.
    let (result, used) = decode_stream(&[1, 0xFE, 0x00, 0x09, 0x3D, 0x00, 7, 7, 7]).unwrap();
    assert_eq!(
        result,
        Err(Error::OversizedVectorAllocation { requested: 4_000_005, max: 4_000_000 })
    );
    assert_eq!(used, 6);
}

#[test]
fn room_is_told_before_it_is_needed() {
    assert!(list_fits(&vec![]));
    assert!(list_fits(&vec![vec![], vec![1u8; 300]]));
    let witness = Witness::from_vec(vec![vec![1u8; 300]]);
    assert!(witness.has_room_for(0));
    assert!(witness.has_room_for(1 << 20));
    assert!(!witness.has_room_for(usize::MAX));
    // The buffer has 307 bytes. An element this large has a length prefix of
    // nine bytes and takes a slot of four: 320 bytes short of the largest
    // size, it is the largest that fits.
    assert!(witness.has_room_for(usize::MAX - 320));
    assert!(!witness.has_room_for(usize::MAX - 319));
}

#[test]
fn slots_are_four_bytes_least_significant_first() {
    let mut buf = vec![0xAAu8; 10];
    encode_cursor(&mut buf, 1, 1, 0x0403_0201);
    assert_eq!(buf, vec![0xAA, 0xAA, 0xAA, 0xAA, 0xAA, 1, 2, 3, 4, 0xAA]);
    assert_eq!(decode_cursor(&buf, 1, 1), Some(0x0403_0201));
    assert_eq!(decode_cursor(&buf, 5, 0), Some(0x0403_0201));
    assert_eq!(decode_cursor(&buf, 6, 0), Some(0xAA04_0302));
    // A slot that the buffer does not hold to its end.
    assert_eq!(decode_cursor(&buf, 7, 0), None);
    assert_eq!(decode_cursor(&buf, 1, 2), None);
    assert_eq!(decode_cursor(&buf, usize::MAX, 0), None);
    assert_eq!(decode_cursor(&buf, 0, usize::MAX), None);
    assert_eq!(decode_cursor(&buf, usize::MAX - 3, 0), None);
}

#[test]
fn elements_are_read_where_a_length_stands() {
    let buf = vec![2u8, 0xAA, 0xBB, 0, 0xFD, 0x00, 0x01, 3, 1];
    assert_eq!(read_element(&buf, 0), Some(&[0xAAu8, 0xBB][..]));
    assert_eq!(read_element(&buf, 3), Some(&[][..]));
    // A length of 0xAA with 7 bytes behind it.
    assert_eq!(read_element(&buf, 1), None);
    // A length that is not in its shortest form.
    assert_eq!(read_element(&buf, 4), None);
    // Three bytes announced, one there.
    assert_eq!(read_element(&buf, 7), None);
    assert_eq!(read_element(&buf, 8), None);
    // No length at the end of the buffer, nor behind it.
    assert_eq!(read_element(&buf, 9), None);
    assert_eq!(read_element(&buf, 10), None);
}

#[test]
fn working_buffer_doubles() {
    let mut buf = vec![7u8; 128];
    resize_if_needed(&mut buf, 127);
    assert_eq!(buf.len(), 128);
    resize_if_needed(&mut buf, 128);
    assert_eq!(buf.len(), 256);
    assert_eq!(&buf[..128], &[7u8; 128][..]);
    assert_eq!(&buf[128..], &[0u8; 128][..]);
    resize_if_needed(&mut buf, 1000);
    assert_eq!(buf.len(), 1024);
    let mut empty: Vec<u8> = Vec::new();
    resize_if_needed(&mut empty, 0);
    assert_eq!(empty, vec![0u8]);
    let mut empty: Vec<u8> = Vec::new();
    resize_if_needed(&mut empty, 5);
    assert_eq!(empty.len(), 8);
}

#[test]
fn required_size_is_checked() {
    assert_eq!(checked_required_len(0, 0), Ok(1));
    assert_eq!(checked_required_len(10, 0xFC), Ok(10 + 1 + 0xFC));
    assert_eq!(checked_required_len(10, 0xFD), Ok(10 + 3 + 0xFD));
    assert_eq!(checked_required_len(0, 3_999_995), Ok(4_000_000));
    assert_eq!(
        checked_required_len(1, 3_999_995),
        Err(Error::OversizedVectorAllocation { requested: 4_000_001, max: 4_000_000 })
    );
    assert_eq!(
        checked_required_len(5, u64::MAX),
        Err(Error::OversizedVectorAllocation { requested: usize::MAX, max: 4_000_000 })
    );
    assert_eq!(
        checked_required_len(0, u64::MAX - 9),
        Err(Error::OversizedVectorAllocation { requested: usize::MAX, max: 4_000_000 })
    );
}

#[test]
fn packed_buffers_are_told_apart() {
    assert!(check_packed(&[], 0, 0));
    assert!(check_packed(&[0, 0, 0, 0, 0], 1, 1));
    assert!(!check_packed(&[0, 0, 0, 0, 0], 0, 5));
    assert!(!check_packed(&[0, 1, 0, 0, 0], 1, 1));
    assert!(check_packed(&[1, 9, 0, 0, 0, 0, 0, 2, 0, 0, 0], 2, 3));
    assert!(!check_packed(&[1, 9, 0, 0, 0, 0, 0, 2, 0, 0, 1], 2, 3));
}

#[test]
fn stream_leaves_the_reader_behind_the_stack() {
    let list = vec![vec![3u8; 300], vec![], vec![4u8; 2]];
    let mut input = serialize_list(&list);
    input.extend([0xC0u8, 0xC1, 0xC2]);
    let mut reader: &[u8] = &input;
    let mut decoder = StreamDecoder::new();
    let mut buf = Vec::new();
    let witness = loop {
        buf.resize(decoder.asked(), 0);
        reader.read_exact(&mut buf).unwrap();
        match decoder.advance(&buf) {
            Step::Read(next) => decoder = next,
            Step::Done(witness) => break witness,
            Step::Failed(e) => panic!("{:?}", e),
        }
    };
    assert_eq!(witness.to_vec(), list);
    assert_eq!(reader, &[0xC0u8, 0xC1, 0xC2][..]);
}
