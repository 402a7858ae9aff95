//! Paths of half-bytes.

use vstd::prelude::*;
use crate::error::RLPDecodeError;
use crate::primitives::bytes_to_vec;
use crate::rlp::{bytes_encoding, decode_bytes, encode_bytes, parse_bytes};

verus! {

/// Whether every element of `s` is a half-byte.
pub open spec fn is_nibbles(s: Seq<u8>) -> bool {
    forall|i: int| 0 <= i < s.len() ==> s[i] < 16
}

/// The half-bytes of `bytes`, the high half of each byte first.
pub open spec fn unpack(bytes: Seq<u8>) -> Seq<u8> {
    Seq::new(
        2 * bytes.len(),
        |i: int|
            if i % 2 == 0 {
                bytes[i / 2] / 16
            } else {
                bytes[i / 2] % 16
            },
    )
}

/// The bytes made of the half-bytes of `s` taken two by two; a last
/// half-byte without a partner becomes the high half of a last byte.
pub open spec fn pack(s: Seq<u8>) -> Seq<u8> {
    Seq::new(
        ((s.len() + 1) / 2) as nat,
        |i: int|
            (s[2 * i] * 16 + if 2 * i + 1 < s.len() {
                s[2 * i + 1] as int
            } else {
                0
            }) as u8,
    )
}

/// The compact form of a path: a flag half-byte that tells whether the path
/// ends in a leaf and whether its length is odd, a zero half-byte where the
/// length is even, then the path packed two half-bytes to a byte.
pub open spec fn compact(s: Seq<u8>, is_leaf: bool) -> Seq<u8> {
    let flag: int = if is_leaf {
        2
    } else {
        0
    };
    if s.len() % 2 == 1 {
        seq![((flag + 1) * 16 + s[0]) as u8] + pack(s.subrange(1, s.len() as int))
    } else {
        seq![(flag * 16) as u8] + pack(s)
    }
}

/// Packing the half-bytes of a byte string gives the byte string back.
pub proof fn lemma_pack_unpack(bytes: Seq<u8>)
    ensures
        is_nibbles(unpack(bytes)),
        pack(unpack(bytes)) == bytes,
{
    assert(pack(unpack(bytes)) =~= bytes);
}

/// An even number of half-bytes is what its packing unpacks to.
pub proof fn lemma_unpack_pack(s: Seq<u8>)
    requires
        is_nibbles(s),
        s.len() % 2 == 0,
    ensures
        unpack(pack(s)) == s,
{
    assert(unpack(pack(s)) =~= s);
}

/// A path in a trie: a sequence of half-bytes, counted from the root.
#[derive(Debug, PartialEq, Eq)]
pub struct Nibbles {
    data: Vec<u8>,
}

impl View for Nibbles {
    type V = Seq<u8>;

    closed spec fn view(&self) -> Seq<u8> {
        self.data@
    }
}

impl Clone for Nibbles {
    fn clone(&self) -> (res: Nibbles)
        ensures
            res@ == self@,
    {
        proof {
            use_type_invariant(self);
        }
        let data = bytes_to_vec(self.data.as_slice());
        Nibbles { data }
    }
}

impl Nibbles {
    #[verifier::type_invariant]
    spec fn valid(self) -> bool {
        is_nibbles(self.data@)
    }

    /// The empty path, which leads to the root.
    pub fn new() -> (res: Nibbles)
        ensures
            res@ == Seq::<u8>::empty(),
    {
        Nibbles { data: Vec::new() }
    }

    /// The path whose half-bytes are the elements of `hex`, where each of
    /// them is under 16.
    pub fn from_hex(hex: Vec<u8>) -> (res: Option<Nibbles>)
        ensures
            res is Some <==> is_nibbles(hex@),
            res matches Some(n) ==> n@ == hex@,
    {
        let mut i: usize = 0;
        while i < hex.len()
            invariant
                i <= hex@.len(),
                forall|j: int| 0 <= j < i ==> hex@[j] < 16,
            decreases hex@.len() - i,
        {
            if hex[i] >= 16 {
                return None;
            }
            i += 1;
        }
        Some(Nibbles { data: hex })
    }

    /// The path that spells out `bytes`, two half-bytes to each byte.
    pub fn from_bytes(bytes: &[u8]) -> (res: Nibbles)
        ensures
            res@ == unpack(bytes@),
    {
        let mut data: Vec<u8> = Vec::new();
        let mut i: usize = 0;
        while i < bytes.len()
            invariant
                i <= bytes@.len(),
                data@ == unpack(bytes@.subrange(0, i as int)),
            decreases bytes@.len() - i,
        {
            let b = bytes[i];
            data.push(b / 16);
            data.push(b % 16);
            i += 1;
            assert(data@ =~= unpack(bytes@.subrange(0, i as int)));
        }
        assert(bytes@.subrange(0, i as int) =~= bytes@);
        Nibbles { data }
    }

    /// The number of half-bytes.
    pub fn len(&self) -> (n: usize)
        ensures
            n == self@.len(),
    {
        self.data.len()
    }

    /// Whether this is the empty path.
    pub fn is_empty(&self) -> (b: bool)
        ensures
            b == (self@.len() == 0),
    {
        self.data.len() == 0
    }

    /// The half-bytes, one to each element.
    pub fn as_slice(&self) -> (s: &[u8])
        ensures
            s@ == self@,
            is_nibbles(s@),
    {
        proof {
            use_type_invariant(self);
        }
        self.data.as_slice()
    }

    /// This path with `nibble` added at its end, where `nibble` is under 16.
    pub fn append_new(&self, nibble: u8) -> (res: Option<Nibbles>)
        ensures
            res is Some <==> nibble < 16,
            res matches Some(n) ==> n@ == self@.push(nibble),
    {
        if nibble >= 16 {
            return None;
        }
        proof {
            use_type_invariant(self);
        }
        let mut data = bytes_to_vec(self.data.as_slice());
        data.push(nibble);
        Some(Nibbles { data })
    }

    /// This path followed by `other`.
    pub fn concat(&self, other: &Nibbles) -> (res: Nibbles)
        ensures
            res@ == self@ + other@,
    {
        proof {
            use_type_invariant(self);
            use_type_invariant(other);
        }
        let mut data = bytes_to_vec(self.data.as_slice());
        crate::primitives::extend_bytes(&mut data, other.data.as_slice());
        Nibbles { data }
    }

    /// The path packed two half-bytes to a byte.
    pub fn to_bytes(&self) -> (out: Vec<u8>)
        ensures
            out@ == pack(self@),
    {
        proof {
            use_type_invariant(self);
        }
        pack_nibbles(self.data.as_slice(), 0)
    }

    /// The compact form of the path, as it stands in the hashed form of a
    /// leaf (`is_leaf`) or of an extension.
    pub fn encode_compact(&self, is_leaf: bool) -> (out: Vec<u8>)
        ensures
            out@ == compact(self@, is_leaf),
    {
        proof {
            use_type_invariant(self);
        }
        let flag: u8 = if is_leaf {
            2
        } else {
            0
        };
        let mut out: Vec<u8> = Vec::new();
        let n = self.data.len();
        if n % 2 == 1 {
            out.push((flag + 1) * 16 + self.data[0]);
            let tail = pack_nibbles(self.data.as_slice(), 1);
            crate::primitives::extend_bytes(&mut out, tail.as_slice());
        } else {
            out.push(flag * 16);
            let tail = pack_nibbles(self.data.as_slice(), 0);
            assert(self.data@.subrange(0, n as int) =~= self.data@);
            crate::primitives::extend_bytes(&mut out, tail.as_slice());
        }
        assert(out@ =~= compact(self@, is_leaf));
        out
    }

    /// Appends the stored form of the path: the byte string of its
    /// half-bytes, one to a byte.
    pub fn encode(&self, buf: &mut Vec<u8>)
        ensures
            final(buf)@ == old(buf)@ + bytes_encoding(self@),
    {
        encode_bytes(self.data.as_slice(), buf);
    }

    /// Reads a stored path from the front of `rlp`; gives the path and the
    /// bytes after it.
    pub fn decode_unfinished(rlp: &[u8]) -> (res: Result<(Nibbles, &[u8]), RLPDecodeError>)
        ensures
            res is Ok ==> parse_nibbles(rlp@) == Ok::<(Seq<u8>, Seq<u8>), RLPDecodeError>(
                ((res->Ok_0).0@, (res->Ok_0).1@),
            ),
            res is Err ==> parse_nibbles(rlp@) == Err::<(Seq<u8>, Seq<u8>), RLPDecodeError>(
                res->Err_0,
            ),
    {
        match decode_bytes(rlp) {
            Ok((payload, rest)) => {
                match Nibbles::from_hex(bytes_to_vec(payload)) {
                    Some(n) => Ok((n, rest)),
                    None => Err(RLPDecodeError::MalformedData),
                }
            },
            Err(e) => Err(e),
        }
    }
}

/// Reads a stored path from the front of `s`: a byte string whose bytes
/// are all under 16.
pub open spec fn parse_nibbles(s: Seq<u8>) -> Result<(Seq<u8>, Seq<u8>), RLPDecodeError> {
    match parse_bytes(s) {
        Ok((payload, rest)) => if is_nibbles(payload) {
            Ok((payload, rest))
        } else {
            Err(RLPDecodeError::MalformedData)
        },
        Err(e) => Err(e),
    }
}

/// Packs the half-bytes of `data` from index `from` on.
fn pack_nibbles(data: &[u8], from: usize) -> (out: Vec<u8>)
    requires
        is_nibbles(data@),
        from <= data@.len(),
    ensures
        out@ == pack(data@.subrange(from as int, data@.len() as int)),
{
    let ghost s = data@.subrange(from as int, data@.len() as int);
    let mut out: Vec<u8> = Vec::new();
    let left = data.len() - from;
    let count = left / 2 + left % 2;
    let mut j: usize = 0;
    while j < count
        invariant
            j <= count,
            from + left == data@.len(),
            data@.len() <= usize::MAX,
            count == left / 2 + left % 2,
            is_nibbles(data@),
            s == data@.subrange(from as int, data@.len() as int),
            out@.len() == j,
            forall|k: int| 0 <= k < j ==> out@[k] == pack(s)[k],
        decreases count - j,
    {
        assert(2 * j < left);
        let i = from + 2 * j;
        let hi = data[i];
        let lo = if 2 * j + 1 < left {
            data[i + 1]
        } else {
            0
        };
        assert(s[2 * j] == hi);
        assert(2 * j + 1 < s.len() ==> s[2 * j + 1] == lo);
        out.push(hi * 16 + lo);
        j += 1;
    }
    assert(out@ =~= pack(s));
    out
}

} // verus!
