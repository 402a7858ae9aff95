//! Length-prefixed byte strings and lists: one encoding for each item, and
//! decoders that accept no other.

use vstd::prelude::*;
use vstd::slice::slice_subrange;
use crate::error::RLPDecodeError;
use crate::primitives::extend_bytes;

verus! {

/// First byte of the shortest byte-string header.
pub const STRING_BASE: u8 = 0x80;

/// First byte of the shortest list header.
pub const LIST_BASE: u8 = 0xc0;

/// The big-endian digits of `n` in base 256, without leading zeros; none
/// for zero.
pub open spec fn be_bytes(n: nat) -> Seq<u8>
    decreases n,
{
    if n == 0 {
        Seq::empty()
    } else {
        be_bytes(n / 256).push((n % 256) as u8)
    }
}

/// The number whose big-endian digits in base 256 are `s`.
pub open spec fn be_value(s: Seq<u8>) -> nat
    decreases s.len(),
{
    if s.len() == 0 {
        0
    } else {
        be_value(s.drop_last()) * 256 + s.last() as nat
    }
}

/// 256 to the power `k`.
pub open spec fn pow256(k: nat) -> nat
    decreases k,
{
    if k == 0 {
        1
    } else {
        256 * pow256((k - 1) as nat)
    }
}

/// The header that announces a payload of `len` bytes: one byte for a
/// payload under 56 bytes, else a byte that counts the digits of `len`,
/// followed by those digits.
#[verifier::opaque]
pub open spec fn header(base: u8, len: nat) -> Seq<u8> {
    if len < 56 {
        seq![(base + len) as u8]
    } else {
        seq![(base + 55 + be_bytes(len).len()) as u8] + be_bytes(len)
    }
}

/// The encoding of a byte string: a single byte under 0x80 stands for
/// itself, every other string follows its header.
pub open spec fn bytes_encoding(data: Seq<u8>) -> Seq<u8> {
    if data.len() == 1 && data[0] < 0x80 {
        data
    } else {
        header(STRING_BASE, data.len()) + data
    }
}

/// The encoding of a list whose items, already encoded, make up `payload`.
pub open spec fn list_encoding(payload: Seq<u8>) -> Seq<u8> {
    header(LIST_BASE, payload.len()) + payload
}

/// One item read from the front of an input.
pub struct Item {
    pub is_list: bool,
    pub payload: Seq<u8>,
    pub rest: Seq<u8>,
}

/// The encoding of an item of either kind.
pub open spec fn item_encoding(is_list: bool, payload: Seq<u8>) -> Seq<u8> {
    if is_list {
        list_encoding(payload)
    } else {
        bytes_encoding(payload)
    }
}

/// Reads an item whose header is the single byte `s[0]` and announces `n`
/// payload bytes.
pub open spec fn parse_short(s: Seq<u8>, is_list: bool, n: int) -> Result<Item, RLPDecodeError> {
    if s.len() < 1 + n {
        Err(RLPDecodeError::InvalidLength)
    } else if !is_list && n == 1 && s[1] < 0x80 {
        Err(RLPDecodeError::MalformedData)
    } else {
        Ok(
            Item {
                is_list,
                payload: s.subrange(1, 1 + n),
                rest: s.subrange(1 + n, s.len() as int),
            },
        )
    }
}

/// Reads an item whose header holds `k` length digits after its first byte.
pub open spec fn parse_long(s: Seq<u8>, is_list: bool, k: int) -> Result<Item, RLPDecodeError> {
    if s.len() < 1 + k {
        Err(RLPDecodeError::InvalidLength)
    } else if s[1] == 0 {
        Err(RLPDecodeError::MalformedData)
    } else {
        let n = be_value(s.subrange(1, 1 + k)) as int;
        if n < 56 {
            Err(RLPDecodeError::MalformedData)
        } else if s.len() < 1 + k + n {
            Err(RLPDecodeError::InvalidLength)
        } else {
            Ok(
                Item {
                    is_list,
                    payload: s.subrange(1 + k, 1 + k + n),
                    rest: s.subrange(1 + k + n, s.len() as int),
                },
            )
        }
    }
}

/// Reads the item at the front of `s`. Only the shortest encoding of an
/// item is accepted.
#[verifier::opaque]
pub open spec fn parse_item(s: Seq<u8>) -> Result<Item, RLPDecodeError> {
    if s.len() == 0 {
        Err(RLPDecodeError::InvalidLength)
    } else if s[0] < 0x80 {
        Ok(Item { is_list: false, payload: s.subrange(0, 1), rest: s.subrange(1, s.len() as int) })
    } else if s[0] < 0xb8 {
        parse_short(s, false, s[0] - 0x80)
    } else if s[0] < 0xc0 {
        parse_long(s, false, s[0] - 0xb7)
    } else if s[0] < 0xf8 {
        parse_short(s, true, s[0] - 0xc0)
    } else {
        parse_long(s, true, s[0] - 0xf7)
    }
}

/// Reads a byte string from the front of `s`.
pub open spec fn parse_bytes(s: Seq<u8>) -> Result<(Seq<u8>, Seq<u8>), RLPDecodeError> {
    match parse_item(s) {
        Ok(item) => if item.is_list {
            Err(RLPDecodeError::UnexpectedList)
        } else {
            Ok((item.payload, item.rest))
        },
        Err(e) => Err(e),
    }
}

/// Reads a list from the front of `s`, giving its payload.
pub open spec fn parse_list(s: Seq<u8>) -> Result<(Seq<u8>, Seq<u8>), RLPDecodeError> {
    match parse_item(s) {
        Ok(item) => if item.is_list {
            Ok((item.payload, item.rest))
        } else {
            Err(RLPDecodeError::UnexpectedString)
        },
        Err(e) => Err(e),
    }
}

pub proof fn lemma_pow256_values()
    ensures
        pow256(0) == 1,
        pow256(1) == 0x100,
        pow256(2) == 0x1_0000,
        pow256(3) == 0x100_0000,
        pow256(4) == 0x1_0000_0000,
        pow256(5) == 0x100_0000_0000,
        pow256(6) == 0x1_0000_0000_0000,
        pow256(7) == 0x100_0000_0000_0000,
        pow256(8) == 0x1_0000_0000_0000_0000,
{
    reveal_with_fuel(pow256, 10);
}

/// Zero alone has no digits.
pub proof fn lemma_be_bytes_empty(n: nat)
    ensures
        be_bytes(n).len() == 0 <==> n == 0,
{
}

/// The first digit of a positive number is not zero.
pub proof fn lemma_be_bytes_lead(n: nat)
    requires
        n > 0,
    ensures
        be_bytes(n).len() > 0,
        be_bytes(n)[0] != 0,
    decreases n,
{
    if n >= 256 {
        lemma_be_bytes_lead(n / 256);
    } else {
        assert(be_bytes(n / 256).len() == 0);
    }
}

/// A number is the value of its digits.
pub proof fn lemma_be_value_of_bytes(n: nat)
    ensures
        be_value(be_bytes(n)) == n,
    decreases n,
{
    if n > 0 {
        lemma_be_value_of_bytes(n / 256);
        assert(be_bytes(n).drop_last() =~= be_bytes(n / 256));
    }
}

/// Digits without a leading zero are the digits of their value.
pub proof fn lemma_be_bytes_of_value(s: Seq<u8>)
    requires
        s.len() > 0 ==> s[0] != 0,
    ensures
        be_bytes(be_value(s)) == s,
    decreases s.len(),
{
    if s.len() > 0 {
        let front = s.drop_last();
        let v = be_value(s);
        if front.len() > 0 {
            assert(front[0] == s[0]);
            lemma_be_bytes_of_value(front);
            lemma_be_bytes_empty(be_value(front));
        } else {
            assert(s.last() == s[0]);
        }
        assert(v / 256 == be_value(front));
        assert(v % 256 == s.last() as nat);
        assert(v > 0);
        assert(be_bytes(v / 256) =~= front);
        assert(s =~= front.push(s.last()));
    }
}

/// A number under 256 to the `k` has at most `k` digits.
pub proof fn lemma_be_bytes_len(n: nat, k: nat)
    requires
        n < pow256(k),
    ensures
        be_bytes(n).len() <= k,
    decreases n,
{
    if n > 0 {
        assert(k > 0);
        lemma_be_bytes_len(n / 256, (k - 1) as nat);
    }
}

/// The value of `k` digits lies under 256 to the `k`.
pub proof fn lemma_be_value_bound(s: Seq<u8>)
    ensures
        be_value(s) < pow256(s.len()),
    decreases s.len(),
{
    if s.len() > 0 {
        lemma_be_value_bound(s.drop_last());
    }
}

/// The header of a payload that a machine can hold has at most nine bytes,
/// and its first byte tells its kind and size.
pub proof fn lemma_header_shape(base: u8, len: nat)
    requires
        base == STRING_BASE || base == LIST_BASE,
        len <= u64::MAX,
    ensures
        1 <= header(base, len).len() <= 9,
        len < 56 ==> header(base, len).len() == 1 && header(base, len)[0] == base + len,
        len >= 56 ==> {
            &&& header(base, len).len() == 1 + be_bytes(len).len()
            &&& 1 <= be_bytes(len).len() <= 8
            &&& header(base, len)[0] == base + 55 + be_bytes(len).len()
        },
{
    reveal(header);
    lemma_pow256_values();
    lemma_be_bytes_len(len, 8);
    if len >= 56 {
        lemma_be_bytes_lead(len);
    }
}

/// What is read from an encoded item followed by `rest` is the item's
/// payload, and `rest`.
pub proof fn lemma_parse_item_encoding(is_list: bool, payload: Seq<u8>, rest: Seq<u8>)
    requires
        payload.len() <= u64::MAX,
    ensures
        parse_item(item_encoding(is_list, payload) + rest) == Ok::<Item, RLPDecodeError>(
            Item { is_list, payload, rest },
        ),
{
    reveal(header);
    reveal(parse_item);
    let base = if is_list { LIST_BASE } else { STRING_BASE };
    let len = payload.len() as int;
    let s = item_encoding(is_list, payload) + rest;
    lemma_header_shape(base, len as nat);
    if !is_list && len == 1 && payload[0] < 0x80 {
        assert(s.subrange(0, 1) =~= payload);
        assert(s.subrange(1, s.len() as int) =~= rest);
    } else if len < 56 {
        assert(s[0] == base + len);
        assert(s.subrange(1, 1 + len) =~= payload);
        assert(s.subrange(1 + len, s.len() as int) =~= rest);
        if len == 1 {
            assert(s[1] == payload[0]);
        }
    } else {
        let digits = be_bytes(len as nat);
        let k = digits.len() as int;
        lemma_be_bytes_lead(len as nat);
        lemma_be_value_of_bytes(len as nat);
        assert(s[0] == base + 55 + k);
        assert(s[1] == digits[0]);
        assert(s.subrange(1, 1 + k) =~= digits);
        assert(s.subrange(1 + k, 1 + k + len) =~= payload);
        assert(s.subrange(1 + k + len, s.len() as int) =~= rest);
    }
}

/// An input from which an item is read begins with the encoding of that
/// item and goes on with what is left: no item has two encodings.
pub proof fn lemma_parse_item_canonical(s: Seq<u8>)
    requires
        parse_item(s) is Ok,
    ensures
        ({
            let item = parse_item(s)->Ok_0;
            s == item_encoding(item.is_list, item.payload) + item.rest
        }),
{
    reveal(header);
    reveal(parse_item);
    let item = parse_item(s)->Ok_0;
    let enc = item_encoding(item.is_list, item.payload);
    if s[0] < 0x80 {
        assert(enc =~= item.payload);
        assert(s =~= enc + item.rest);
    } else if s[0] < 0xb8 || (0xc0 <= s[0] < 0xf8) {
        assert(s =~= enc + item.rest);
    } else {
        let k = if s[0] < 0xc0 { s[0] - 0xb7 } else { s[0] - 0xf7 };
        let digits = s.subrange(1, 1 + k);
        let n = be_value(digits);
        assert(digits[0] == s[1]);
        lemma_be_bytes_of_value(digits);
        assert(be_bytes(n) == digits);
        assert(item.payload.len() == n);
        assert(s =~= enc + item.rest);
    }
}

/// What is read from an encoded byte string followed by `rest` is the
/// string, and `rest`.
pub proof fn lemma_parse_bytes_encoding(data: Seq<u8>, rest: Seq<u8>)
    requires
        data.len() <= u64::MAX,
    ensures
        parse_bytes(bytes_encoding(data) + rest) == Ok::<(Seq<u8>, Seq<u8>), RLPDecodeError>(
            (data, rest),
        ),
        bytes_encoding(data).len() >= 1,
        bytes_encoding(data).len() >= data.len(),
{
    lemma_parse_item_encoding(false, data, rest);
    lemma_item_encoding_len(false, data);
}

/// What is read from an encoded list followed by `rest` is the list's
/// payload, and `rest`.
pub proof fn lemma_parse_list_encoding(payload: Seq<u8>, rest: Seq<u8>)
    requires
        payload.len() <= u64::MAX,
    ensures
        parse_list(list_encoding(payload) + rest) == Ok::<(Seq<u8>, Seq<u8>), RLPDecodeError>(
            (payload, rest),
        ),
        list_encoding(payload).len() >= 1,
        list_encoding(payload).len() >= payload.len(),
{
    lemma_parse_item_encoding(true, payload, rest);
    lemma_item_encoding_len(true, payload);
}

/// An input from which a byte string is read begins with the encoding of
/// that string.
pub proof fn lemma_parse_bytes_canonical(s: Seq<u8>)
    requires
        parse_bytes(s) is Ok,
    ensures
        s == bytes_encoding((parse_bytes(s)->Ok_0).0) + (parse_bytes(s)->Ok_0).1,
{
    lemma_parse_item_canonical(s);
}

/// An input from which a list is read begins with the encoding of that
/// list.
pub proof fn lemma_parse_list_canonical(s: Seq<u8>)
    requires
        parse_list(s) is Ok,
    ensures
        s == list_encoding((parse_list(s)->Ok_0).0) + (parse_list(s)->Ok_0).1,
{
    lemma_parse_item_canonical(s);
}

/// Reading an item takes at least one byte from the input.
pub proof fn lemma_parse_item_consumes(s: Seq<u8>)
    requires
        parse_item(s) is Ok,
    ensures
        (parse_item(s)->Ok_0).rest.len() < s.len(),
        (parse_item(s)->Ok_0).payload.len() + (parse_item(s)->Ok_0).rest.len() <= s.len(),
{
    reveal(parse_item);
}

/// An encoded item is never empty, and is longer than its payload unless it
/// is a single byte that stands for itself.
pub proof fn lemma_item_encoding_len(is_list: bool, payload: Seq<u8>)
    ensures
        item_encoding(is_list, payload).len() >= 1,
        item_encoding(is_list, payload).len() >= payload.len(),
        payload.len() < 56 ==> item_encoding(is_list, payload).len() <= payload.len() + 1,
{
    reveal(header);
}

/// Appends the digits of `n`.
pub fn push_be_bytes(n: u64, buf: &mut Vec<u8>)
    ensures
        final(buf)@ == old(buf)@ + be_bytes(n as nat),
    decreases n,
{
    if n > 0 {
        push_be_bytes(n / 256, buf);
        buf.push((n % 256) as u8);
        assert(buf@ =~= old(buf)@ + be_bytes(n as nat));
    } else {
        assert(buf@ =~= old(buf)@ + be_bytes(n as nat));
    }
}

/// Appends the header of a payload of `len` bytes.
fn encode_header(base: u8, len: usize, buf: &mut Vec<u8>)
    requires
        base == STRING_BASE || base == LIST_BASE,
    ensures
        final(buf)@ == old(buf)@ + header(base, len as nat),
{
    proof {
        reveal(header);
    }
    if len < 56 {
        buf.push(base + len as u8);
        assert(buf@ =~= old(buf)@ + header(base, len as nat));
    } else {
        let mut digits: Vec<u8> = Vec::new();
        push_be_bytes(len as u64, &mut digits);
        proof {
            assert(digits@ =~= be_bytes(len as nat));
            lemma_header_shape(base, len as nat);
        }
        buf.push(base + 55 + digits.len() as u8);
        extend_bytes(buf, digits.as_slice());
        assert(buf@ =~= old(buf)@ + header(base, len as nat));
    }
}

/// Appends the encoding of the byte string `data`.
pub fn encode_bytes(data: &[u8], buf: &mut Vec<u8>)
    ensures
        final(buf)@ == old(buf)@ + bytes_encoding(data@),
{
    if data.len() == 1 && data[0] < 0x80 {
        buf.push(data[0]);
        assert(buf@ =~= old(buf)@ + bytes_encoding(data@));
    } else {
        encode_header(STRING_BASE, data.len(), buf);
        extend_bytes(buf, data);
        assert(buf@ =~= old(buf)@ + bytes_encoding(data@));
    }
}

/// Appends the encoding of the list whose encoded items make up `payload`.
pub fn encode_list(payload: &[u8], buf: &mut Vec<u8>)
    ensures
        final(buf)@ == old(buf)@ + list_encoding(payload@),
{
    encode_header(LIST_BASE, payload.len(), buf);
    extend_bytes(buf, payload);
    assert(buf@ =~= old(buf)@ + list_encoding(payload@));
}

/// The item that the three parts of a decoder's answer stand for.
pub open spec fn item_of(parts: (bool, &[u8], &[u8])) -> Item {
    Item { is_list: parts.0, payload: parts.1@, rest: parts.2@ }
}

/// The number whose digits are `digits`, of which there are at most
/// eight.
pub fn be_to_u64(digits: &[u8]) -> (n: u64)
    requires
        digits@.len() <= 8,
    ensures
        n == be_value(digits@),
{
    let mut n: u64 = 0;
    let mut i: usize = 0;
    assert(digits@.subrange(0, 0) =~= Seq::<u8>::empty());
    while i < digits.len()
        invariant
            i <= digits@.len() <= 8,
            n == be_value(digits@.subrange(0, i as int)),
        decreases digits@.len() - i,
    {
        proof {
            lemma_be_value_bound(digits@.subrange(0, i as int));
            lemma_pow256_values();
            assert(pow256(i as nat) <= pow256(7)) by {
                reveal_with_fuel(pow256, 10);
            }
            assert(digits@.subrange(0, i + 1).drop_last() =~= digits@.subrange(0, i as int));
        }
        n = n * 256 + digits[i] as u64;
        i += 1;
    }
    assert(digits@.subrange(0, i as int) =~= digits@);
    n
}

/// Reads `k` length digits, `1 <= k <= 8`, that start at `data[1]`.
fn read_length(data: &[u8], k: usize) -> (n: u64)
    requires
        1 <= k <= 8,
        data@.len() >= 1 + k,
    ensures
        n == be_value(data@.subrange(1, 1 + k)),
{
    be_to_u64(slice_subrange(data, 1, 1 + k))
}

/// Splits `data` after a header of `skip` bytes and a payload of `n` bytes.
fn split_item(data: &[u8], is_list: bool, skip: usize, n: usize) -> (parts: (bool, &[u8], &[u8]))
    requires
        skip + n <= data@.len(),
    ensures
        parts.0 == is_list,
        parts.1@ == data@.subrange(skip as int, skip + n),
        parts.2@ == data@.subrange(skip + n, data@.len() as int),
{
    let len = data.len();
    let end = skip + n;
    let payload = slice_subrange(data, skip, end);
    let rest = slice_subrange(data, end, len);
    (is_list, payload, rest)
}

fn decode_short(data: &[u8], is_list: bool, n: usize) -> (res: Result<
    (bool, &[u8], &[u8]),
    RLPDecodeError,
>)
    requires
        data@.len() >= 1,
        n < 56,
    ensures
        res is Ok ==> parse_short(data@, is_list, n as int) == Ok::<Item, RLPDecodeError>(
            item_of(res->Ok_0),
        ),
        res is Err ==> parse_short(data@, is_list, n as int) == Err::<Item, RLPDecodeError>(
            res->Err_0,
        ),
{
    if data.len() - 1 < n {
        Err(RLPDecodeError::InvalidLength)
    } else if !is_list && n == 1 && data[1] < 0x80 {
        Err(RLPDecodeError::MalformedData)
    } else {
        Ok(split_item(data, is_list, 1, n))
    }
}

fn decode_long(data: &[u8], is_list: bool, k: usize) -> (res: Result<
    (bool, &[u8], &[u8]),
    RLPDecodeError,
>)
    requires
        data@.len() >= 1,
        1 <= k <= 8,
    ensures
        res is Ok ==> parse_long(data@, is_list, k as int) == Ok::<Item, RLPDecodeError>(
            item_of(res->Ok_0),
        ),
        res is Err ==> parse_long(data@, is_list, k as int) == Err::<Item, RLPDecodeError>(
            res->Err_0,
        ),
{
    if data.len() - 1 < k {
        Err(RLPDecodeError::InvalidLength)
    } else if data[1] == 0 {
        Err(RLPDecodeError::MalformedData)
    } else {
        let n = read_length(data, k);
        if n < 56 {
            Err(RLPDecodeError::MalformedData)
        } else if n > (data.len() - 1 - k) as u64 {
            Err(RLPDecodeError::InvalidLength)
        } else {
            Ok(split_item(data, is_list, 1 + k, n as usize))
        }
    }
}

/// Reads the item at the front of `data`: whether it is a list, its
/// payload, and the bytes after it.
pub fn decode_item(data: &[u8]) -> (res: Result<(bool, &[u8], &[u8]), RLPDecodeError>)
    ensures
        res is Ok ==> parse_item(data@) == Ok::<Item, RLPDecodeError>(item_of(res->Ok_0)),
        res is Err ==> parse_item(data@) == Err::<Item, RLPDecodeError>(res->Err_0),
{
    proof {
        reveal(parse_item);
    }
    if data.len() == 0 {
        return Err(RLPDecodeError::InvalidLength);
    }
    let first = data[0];
    if first < 0x80 {
        Ok(split_item(data, false, 0, 1))
    } else if first < 0xb8 {
        decode_short(data, false, (first - 0x80) as usize)
    } else if first < 0xc0 {
        decode_long(data, false, (first - 0xb7) as usize)
    } else if first < 0xf8 {
        decode_short(data, true, (first - 0xc0) as usize)
    } else {
        decode_long(data, true, (first - 0xf7) as usize)
    }
}

/// Reads a byte string from the front of `data`: its bytes, and the bytes
/// after it.
pub fn decode_bytes(data: &[u8]) -> (res: Result<(&[u8], &[u8]), RLPDecodeError>)
    ensures
        res is Ok ==> parse_bytes(data@) == Ok::<(Seq<u8>, Seq<u8>), RLPDecodeError>(
            ((res->Ok_0).0@, (res->Ok_0).1@),
        ),
        res is Err ==> parse_bytes(data@) == Err::<(Seq<u8>, Seq<u8>), RLPDecodeError>(
            res->Err_0,
        ),
{
    match decode_item(data) {
        Ok((is_list, payload, rest)) => {
            if is_list {
                Err(RLPDecodeError::UnexpectedList)
            } else {
                Ok((payload, rest))
            }
        },
        Err(e) => Err(e),
    }
}

/// Reads a list from the front of `data`: its payload, and the bytes after
/// it.
pub fn decode_list(data: &[u8]) -> (res: Result<(&[u8], &[u8]), RLPDecodeError>)
    ensures
        res is Ok ==> parse_list(data@) == Ok::<(Seq<u8>, Seq<u8>), RLPDecodeError>(
            ((res->Ok_0).0@, (res->Ok_0).1@),
        ),
        res is Err ==> parse_list(data@) == Err::<(Seq<u8>, Seq<u8>), RLPDecodeError>(
            res->Err_0,
        ),
{
    match decode_item(data) {
        Ok((is_list, payload, rest)) => {
            if is_list {
                Ok((payload, rest))
            } else {
                Err(RLPDecodeError::UnexpectedString)
            }
        },
        Err(e) => Err(e),
    }
}

} // verus!
