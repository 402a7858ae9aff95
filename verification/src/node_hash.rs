//! References to nodes: digests and inline encodings.

use vstd::prelude::*;
use sha3::Digest;
use crate::error::RLPDecodeError;
use crate::primitives::{bytes_to_vec, H256};
use crate::rlp::{bytes_encoding, decode_bytes, encode_bytes, parse_bytes};

verus! {

/// The Keccak-256 digest of `data`.
pub uninterp spec fn keccak256(data: Seq<u8>) -> Seq<u8>;

/// Calls `sha3::Keccak256::digest`. The digest is a function of the input
/// bytes alone; its 32 bytes are taken on trust to be the Keccak-256 digest.
#[verifier::external_body]
pub(crate) fn keccak256_digest(data: &[u8]) -> (out: H256)
    ensures
        out@ == keccak256(data@),
{
    H256(sha3::Keccak256::digest(data).into())
}

/// The reference by which a parent names the node with the encoding
/// `encoded`: the encoding itself while it is shorter than a digest, else
/// its digest.
pub open spec fn content_hash(encoded: Seq<u8>) -> Seq<u8> {
    if encoded.len() >= 32 {
        keccak256(encoded)
    } else {
        encoded
    }
}

/// A reference to a node: the digest of its encoding, or, for a node with a
/// short encoding, the encoding itself. The empty inline reference names no
/// node.
#[derive(Debug, PartialEq, Eq)]
pub enum NodeHash {
    Hashed(H256),
    Inline(Vec<u8>),
}

impl View for NodeHash {
    type V = Seq<u8>;

    open spec fn view(&self) -> Seq<u8> {
        match self {
            NodeHash::Hashed(h) => h@,
            NodeHash::Inline(raw) => raw@,
        }
    }
}

impl Clone for NodeHash {
    fn clone(&self) -> (res: NodeHash)
        ensures
            res@ == self@,
            res is Hashed <==> self is Hashed,
            res.wf() <==> self.wf(),
    {
        match self {
            NodeHash::Hashed(h) => NodeHash::Hashed(*h),
            NodeHash::Inline(raw) => NodeHash::Inline(bytes_to_vec(raw.as_slice())),
        }
    }
}

/// Reads a stored reference from the front of `s`: a byte string of at most
/// 32 bytes.
pub open spec fn parse_node_hash(s: Seq<u8>) -> Result<(Seq<u8>, Seq<u8>), RLPDecodeError> {
    match parse_bytes(s) {
        Ok((payload, rest)) => if payload.len() <= 32 {
            Ok((payload, rest))
        } else {
            Err(RLPDecodeError::InvalidLength)
        },
        Err(e) => Err(e),
    }
}

impl NodeHash {
    /// Whether an inline reference is shorter than a digest, as every
    /// reference made from an encoding is.
    pub open spec fn wf(self) -> bool {
        self is Inline ==> self@.len() < 32
    }

    /// Of a well-formed reference the bytes tell the form: it is a digest
    /// exactly where it has 32 bytes, and it never has more.
    pub proof fn lemma_wf_form(self)
        requires
            self.wf(),
        ensures
            self@.len() <= 32,
            self is Hashed <==> self@.len() == 32,
    {
    }

    /// Two well-formed references with the same bytes have the same form.
    pub proof fn lemma_wf_same_form(self, other: NodeHash)
        requires
            self.wf(),
            other.wf(),
            self@ == other@,
        ensures
            self is Hashed <==> other is Hashed,
    {
        self.lemma_wf_form();
        other.lemma_wf_form();
    }

    /// The reference to the node with the encoding `encoded`.
    pub fn from_encoded_raw(encoded: &[u8]) -> (res: NodeHash)
        ensures
            res@ == content_hash(encoded@),
            res is Hashed <==> encoded@.len() >= 32,
            res.wf(),
    {
        if encoded.len() >= 32 {
            NodeHash::Hashed(keccak256_digest(encoded))
        } else {
            NodeHash::Inline(bytes_to_vec(encoded))
        }
    }

    /// The reference whose bytes are `bytes`: a digest where there are 32 of
    /// them, an inline encoding where there are fewer, none where there are
    /// more.
    pub fn from_slice(bytes: &[u8]) -> (res: Option<NodeHash>)
        ensures
            res is Some <==> bytes@.len() <= 32,
            res matches Some(h) ==> h@ == bytes@ && h.wf() && (h is Hashed <==> bytes@.len() == 32),
    {
        if bytes.len() == 32 {
            Some(NodeHash::Hashed(H256::from_slice(bytes)))
        } else if bytes.len() < 32 {
            Some(NodeHash::Inline(bytes_to_vec(bytes)))
        } else {
            None
        }
    }

    /// The reference that names no node.
    pub fn empty() -> (res: NodeHash)
        ensures
            res@ == Seq::<u8>::empty(),
            res is Inline,
            res.wf(),
    {
        NodeHash::Inline(Vec::new())
    }

    /// The bytes of the reference.
    pub fn as_bytes(&self) -> (s: &[u8])
        ensures
            s@ == self@,
    {
        match self {
            NodeHash::Hashed(h) => h.as_bytes(),
            NodeHash::Inline(raw) => raw.as_slice(),
        }
    }

    /// Whether the reference names a node.
    pub fn is_valid(&self) -> (b: bool)
        ensures
            b == (self@.len() != 0),
    {
        self.as_bytes().len() != 0
    }

    /// The digest, where the reference is one.
    pub fn hashed(&self) -> (res: Option<H256>)
        ensures
            res is Some <==> self is Hashed,
            res matches Some(h) ==> h@ == self@,
    {
        match self {
            NodeHash::Hashed(h) => Some(*h),
            NodeHash::Inline(_) => None,
        }
    }

    /// Appends the stored form of the reference: the byte string of its
    /// bytes.
    pub fn encode(&self, buf: &mut Vec<u8>)
        ensures
            final(buf)@ == old(buf)@ + bytes_encoding(self@),
    {
        encode_bytes(self.as_bytes(), buf);
    }

    /// Reads a stored reference from the front of `rlp`; gives the reference
    /// and the bytes after it.
    pub fn decode_unfinished(rlp: &[u8]) -> (res: Result<(NodeHash, &[u8]), RLPDecodeError>)
        ensures
            res is Ok ==> parse_node_hash(rlp@) == Ok::<(Seq<u8>, Seq<u8>), RLPDecodeError>(
                ((res->Ok_0).0@, (res->Ok_0).1@),
            ) && (res->Ok_0).0.wf(),
            res is Err ==> parse_node_hash(rlp@) == Err::<(Seq<u8>, Seq<u8>), RLPDecodeError>(
                res->Err_0,
            ),
    {
        match decode_bytes(rlp) {
            Ok((payload, rest)) => {
                match NodeHash::from_slice(payload) {
                    Some(h) => Ok((h, rest)),
                    None => Err(RLPDecodeError::InvalidLength),
                }
            },
            Err(e) => Err(e),
        }
    }
}

} // verus!
