//! Signatures as witness elements: a DER-encoded ECDSA signature followed by
//! the byte of its signature hash type.

use vstd::prelude::*;
use vstd::slice::slice_subrange;
use secp256k1::ecdsa::SerializedSignature;
use crate::layout::fits_with;
use crate::varint::lemma_varint_bytes_len;
use crate::witness::Witness;

verus! {

/// The longest DER encoding of an ECDSA signature, in bytes.
pub const MAX_SIGNATURE_LEN: usize = 72;

/// Makes `secp256k1::ecdsa::SerializedSignature` known to the verifier, as a
/// type whose inside it does not see.
#[verifier::external_type_specification]
#[verifier::external_body]
pub struct ExSerializedSignature(secp256k1::ecdsa::SerializedSignature);

/// The bytes that a serialized signature holds, in order.
pub uninterp spec fn signature_bytes(signature: SerializedSignature) -> Seq<u8>;

/// The bytes of a serialized signature, as `SerializedSignature::deref` of
/// secp256k1 hands them out: the used part of its buffer of 72 bytes. Taken
/// on trust: that these are the bytes the signature holds, and that there are
/// no more than 72 of them.
#[verifier::external_body]
fn signature_as_slice(signature: &SerializedSignature) -> (bytes: &[u8])
    ensures
        bytes@ == signature_bytes(*signature),
        bytes@.len() <= MAX_SIGNATURE_LEN,
{
    std::ops::Deref::deref(signature)
}

/// Which parts of a transaction an ECDSA signature commits to.
#[derive(Clone, Copy, Debug, PartialEq, Eq, Hash)]
pub enum EcdsaSighashType {
    /// Every input and every output.
    All,
    /// Every input and no output.
    NoOutput,
    /// Every input and the output at the index of the signed input.
    Single,
    /// The signed input alone, and every output.
    AllPlusAnyoneCanPay,
    /// The signed input alone, and no output.
    NonePlusAnyoneCanPay,
    /// The signed input alone, and the output at its index.
    SinglePlusAnyoneCanPay,
}

impl EcdsaSighashType {
    /// The byte that stands for the type behind a signature.
    pub open spec fn byte(self) -> u8 {
        match self {
            EcdsaSighashType::All => 0x01,
            EcdsaSighashType::NoOutput => 0x02,
            EcdsaSighashType::Single => 0x03,
            EcdsaSighashType::AllPlusAnyoneCanPay => 0x81,
            EcdsaSighashType::NonePlusAnyoneCanPay => 0x82,
            EcdsaSighashType::SinglePlusAnyoneCanPay => 0x83,
        }
    }

    /// The byte that stands for the type behind a signature.
    pub fn to_u8(self) -> (b: u8)
        ensures
            b == self.byte(),
    {
        match self {
            EcdsaSighashType::All => 0x01,
            EcdsaSighashType::NoOutput => 0x02,
            EcdsaSighashType::Single => 0x03,
            EcdsaSighashType::AllPlusAnyoneCanPay => 0x81,
            EcdsaSighashType::NonePlusAnyoneCanPay => 0x82,
            EcdsaSighashType::SinglePlusAnyoneCanPay => 0x83,
        }
    }
}

impl Witness {
    /// Appends a signature and the byte of its hash type as one element.
    pub fn push_bitcoin_signature(
        &mut self,
        signature: &SerializedSignature,
        hash_type: EcdsaSighashType,
    )
        requires
            old(self).wf(),
            fits_with(old(self)@, (MAX_SIGNATURE_LEN + 1) as nat),
        ensures
            final(self).wf(),
            final(self)@ == old(self)@.push(signature_bytes(*signature).push(hash_type.byte())),
    {
        let bytes = signature_as_slice(signature);
        let len: usize = bytes.len();
        let mut sig: [u8; 73] = [0u8; 73];
        let mut i: usize = 0;
        while i < len
            invariant
                i <= len == bytes@.len() <= MAX_SIGNATURE_LEN,
                sig@.take(i as int) == bytes@.take(i as int),
            decreases len - i,
        {
            let b: u8 = bytes[i];
            sig[i] = b;
            i += 1;
        }
        sig[len] = hash_type.to_u8();
        let element = slice_subrange(sig.as_slice(), 0, len + 1);
        proof {
            assert(bytes@.take(len as int) =~= bytes@);
            assert(element@ =~= signature_bytes(*signature).push(hash_type.byte()));
            lemma_varint_bytes_len(element@.len() as u64);
        }
        self.push(element);
    }
}

} // verus!
