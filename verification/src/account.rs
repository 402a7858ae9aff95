//! The account that a leaf of the state trie holds, and its encoding.

use vstd::prelude::*;
use crate::error::RLPDecodeError;
use crate::primitives::{H256, U256};
use crate::rlp::{
    be_bytes, be_to_u64, be_value, bytes_encoding, decode_bytes, decode_list, encode_bytes,
    encode_list, lemma_be_bytes_lead, lemma_be_bytes_len, lemma_be_bytes_of_value,
    lemma_be_value_of_bytes, lemma_item_encoding_len,
    lemma_parse_bytes_encoding,
    lemma_parse_list_encoding, lemma_pow256_values, list_encoding, parse_bytes, parse_list,
    pow256, push_be_bytes,
};
use vstd::slice::slice_subrange;

verus! {

/// What the state trie holds of an account, as numbers and byte strings.
pub struct AccountModel {
    pub nonce: nat,
    pub balance: nat,
    pub storage_root: Seq<u8>,
    pub code_hash: Seq<u8>,
}

impl AccountModel {
    /// Whether the numbers fit their fields and the two words have 32 bytes.
    pub open spec fn wf(self) -> bool {
        &&& self.nonce <= u64::MAX
        &&& self.balance < pow256(32)
        &&& self.storage_root.len() == 32
        &&& self.code_hash.len() == 32
    }
}

/// What the state trie holds of an account.
#[derive(Clone, Copy, Debug, PartialEq, Eq)]
pub struct AccountState {
    pub nonce: u64,
    pub balance: U256,
    pub storage_root: H256,
    pub code_hash: H256,
}

impl View for AccountState {
    type V = AccountModel;

    open spec fn view(&self) -> AccountModel {
        AccountModel {
            nonce: self.nonce as nat,
            balance: self.balance@,
            storage_root: self.storage_root@,
            code_hash: self.code_hash@,
        }
    }
}

/// The encoding of an account: the list of its nonce and its balance, each
/// as the byte string of its digits, its storage root and its code hash.
pub open spec fn account_encoding(account: AccountModel) -> Seq<u8> {
    list_encoding(
        bytes_encoding(be_bytes(account.nonce)) + bytes_encoding(be_bytes(account.balance))
            + bytes_encoding(account.storage_root) + bytes_encoding(account.code_hash),
    )
}

/// Reads a number of at most `width` digits from the front of `s`. Digits
/// that begin with a zero are refused.
pub open spec fn parse_uint(s: Seq<u8>, width: nat) -> Result<(nat, Seq<u8>), RLPDecodeError> {
    match parse_bytes(s) {
        Err(e) => Err(e),
        Ok((digits, rest)) => if digits.len() > width {
            Err(RLPDecodeError::InvalidLength)
        } else if digits.len() > 0 && digits[0] == 0 {
            Err(RLPDecodeError::MalformedData)
        } else {
            Ok((be_value(digits), rest))
        },
    }
}

/// Reads a byte string of exactly 32 bytes from the front of `s`.
pub open spec fn parse_word(s: Seq<u8>) -> Result<(Seq<u8>, Seq<u8>), RLPDecodeError> {
    match parse_bytes(s) {
        Err(e) => Err(e),
        Ok((word, rest)) => if word.len() != 32 {
            Err(RLPDecodeError::InvalidLength)
        } else {
            Ok((word, rest))
        },
    }
}

/// Reads an account from `s`, which must hold nothing else.
pub open spec fn parse_account(s: Seq<u8>) -> Result<AccountModel, RLPDecodeError> {
    match parse_list(s) {
        Err(e) => Err(e),
        Ok((fields, rest)) => match parse_uint(fields, 8) {
            Err(e) => Err(e),
            Ok((nonce, after_nonce)) => match parse_uint(after_nonce, 32) {
                Err(e) => Err(e),
                Ok((balance, after_balance)) => match parse_word(after_balance) {
                    Err(e) => Err(e),
                    Ok((storage_root, after_root)) => match parse_word(after_root) {
                        Err(e) => Err(e),
                        Ok((code_hash, tail)) => if tail.len() != 0 {
                            Err(RLPDecodeError::MalformedData)
                        } else if rest.len() != 0 {
                            Err(RLPDecodeError::InvalidLength)
                        } else {
                            Ok(AccountModel { nonce, balance, storage_root, code_hash })
                        },
                    },
                },
            },
        },
    }
}

/// Zeros in front of digits do not change their value.
pub proof fn lemma_be_value_padded(zeros: nat, digits: Seq<u8>)
    ensures
        be_value(Seq::new(zeros, |i: int| 0u8) + digits) == be_value(digits),
    decreases digits.len(), zeros,
{
    let pad = Seq::new(zeros, |i: int| 0u8);
    if digits.len() > 0 {
        lemma_be_value_padded(zeros, digits.drop_last());
        assert((pad + digits).drop_last() =~= pad + digits.drop_last());
    } else if zeros > 0 {
        lemma_be_value_padded((zeros - 1) as nat, digits);
        assert((pad + digits).drop_last() =~= Seq::new((zeros - 1) as nat, |i: int| 0u8) + digits);
    }
}

/// Reading back the encoding of an account gives the account.
pub proof fn lemma_parse_account_encoding(account: AccountModel)
    requires
        account.wf(),
    ensures
        parse_account(account_encoding(account)) == Ok::<AccountModel, RLPDecodeError>(account),
{
    let empty = Seq::<u8>::empty();
    let nonce = be_bytes(account.nonce);
    let balance = be_bytes(account.balance);
    let f3 = bytes_encoding(account.code_hash);
    let f2 = bytes_encoding(account.storage_root) + f3;
    let f1 = bytes_encoding(balance) + f2;
    let fields = bytes_encoding(nonce) + f1;
    lemma_pow256_values();
    lemma_be_bytes_len(account.nonce, 8);
    lemma_be_bytes_len(account.balance, 32);
    lemma_be_value_of_bytes(account.nonce);
    lemma_be_value_of_bytes(account.balance);
    if account.nonce > 0 {
        lemma_be_bytes_lead(account.nonce);
    }
    if account.balance > 0 {
        lemma_be_bytes_lead(account.balance);
    }
    lemma_parse_bytes_encoding(nonce, f1);
    lemma_parse_bytes_encoding(balance, f2);
    lemma_parse_bytes_encoding(account.storage_root, f3);
    lemma_parse_bytes_encoding(account.code_hash, empty);
    assert(f3 + empty =~= f3);
    lemma_item_encoding_len(false, nonce);
    lemma_item_encoding_len(false, balance);
    lemma_item_encoding_len(false, account.storage_root);
    lemma_item_encoding_len(false, account.code_hash);
    assert(fields.len() <= 9 + 33 + 33 + 33);
    lemma_parse_list_encoding(fields, empty);
    assert(list_encoding(fields) + empty =~= list_encoding(fields));
    assert(account_encoding(account) =~= list_encoding(fields));
}

/// Reads the digits of a number of at most `width` digits from the front of
/// `data`; gives the digits and the bytes after them.
fn decode_digits(data: &[u8], width: usize) -> (res: Result<(&[u8], &[u8]), RLPDecodeError>)
    ensures
        res matches Ok((digits, rest)) ==> {
            &&& parse_uint(data@, width as nat) == Ok::<(nat, Seq<u8>), RLPDecodeError>(
                (be_value(digits@), rest@),
            )
            &&& digits@.len() <= width
            &&& digits@.len() > 0 ==> digits@[0] != 0
        },
        res matches Err(e) ==> parse_uint(data@, width as nat) == Err::<
            (nat, Seq<u8>),
            RLPDecodeError,
        >(e),
{
    match decode_bytes(data) {
        Err(e) => Err(e),
        Ok((digits, rest)) => {
            if digits.len() > width {
                Err(RLPDecodeError::InvalidLength)
            } else if digits.len() > 0 && digits[0] == 0 {
                Err(RLPDecodeError::MalformedData)
            } else {
                Ok((digits, rest))
            }
        },
    }
}

/// Reads a 32-byte word from the front of `data`; gives the word and the
/// bytes after it.
fn decode_word(data: &[u8]) -> (res: Result<(H256, &[u8]), RLPDecodeError>)
    ensures
        res matches Ok((word, rest)) ==> parse_word(data@) == Ok::<
            (Seq<u8>, Seq<u8>),
            RLPDecodeError,
        >((word@, rest@)),
        res matches Err(e) ==> parse_word(data@) == Err::<(Seq<u8>, Seq<u8>), RLPDecodeError>(e),
{
    match decode_bytes(data) {
        Err(e) => Err(e),
        Ok((word, rest)) => {
            if word.len() != 32 {
                Err(RLPDecodeError::InvalidLength)
            } else {
                Ok((H256::from_slice(word), rest))
            }
        },
    }
}

impl U256 {
    /// The number whose digits are `digits`, of which there are at most 32.
    pub fn from_big_endian(digits: &[u8]) -> (res: U256)
        requires
            digits@.len() <= 32,
        ensures
            res@ == be_value(digits@),
    {
        let mut bytes = [0u8; 32];
        let pad = 32 - digits.len();
        let mut i: usize = 0;
        while i < digits.len()
            invariant
                i <= digits@.len(),
                pad + digits@.len() == 32,
                forall|j: int| 0 <= j < pad ==> bytes@[j] == 0,
                forall|j: int| 0 <= j < i ==> bytes@[pad + j] == digits@[j],
            decreases digits@.len() - i,
        {
            bytes[pad + i] = digits[i];
            i += 1;
        }
        proof {
            lemma_be_value_padded(pad as nat, digits@);
            assert(bytes@ =~= Seq::new(pad as nat, |i: int| 0u8) + digits@);
        }
        U256(bytes)
    }

    /// The digits of the number, without leading zeros.
    pub fn to_digits(&self) -> (digits: &[u8])
        ensures
            digits@ == be_bytes(self@),
    {
        let mut skip: usize = 0;
        while skip < 32 && self.0[skip] == 0
            invariant
                skip <= 32,
                forall|j: int| 0 <= j < skip ==> self.0@[j] == 0,
            decreases 32 - skip,
        {
            skip += 1;
        }
        let digits = slice_subrange(self.0.as_slice(), skip, 32);
        proof {
            lemma_be_value_padded(skip as nat, digits@);
            assert(self.0@ =~= Seq::new(skip as nat, |i: int| 0u8) + digits@);
            lemma_be_bytes_of_value(digits@);
        }
        digits
    }
}

impl AccountState {
    /// Appends the encoding of the account.
    pub fn encode(&self, buf: &mut Vec<u8>)
        ensures
            final(buf)@ == old(buf)@ + account_encoding(self@),
    {
        let mut fields: Vec<u8> = Vec::new();
        let mut nonce: Vec<u8> = Vec::new();
        push_be_bytes(self.nonce, &mut nonce);
        assert(nonce@ =~= be_bytes(self.nonce as nat));
        encode_bytes(nonce.as_slice(), &mut fields);
        encode_bytes(self.balance.to_digits(), &mut fields);
        encode_bytes(self.storage_root.as_bytes(), &mut fields);
        encode_bytes(self.code_hash.as_bytes(), &mut fields);
        assert(fields@ =~= bytes_encoding(be_bytes(self@.nonce)) + bytes_encoding(
            be_bytes(self@.balance),
        ) + bytes_encoding(self@.storage_root) + bytes_encoding(self@.code_hash));
        encode_list(fields.as_slice(), buf);
    }

    /// Reads an account from `rlp`, which must hold nothing else.
    pub fn decode(rlp: &[u8]) -> (res: Result<AccountState, RLPDecodeError>)
        ensures
            res matches Ok(account) ==> parse_account(rlp@) == Ok::<AccountModel, RLPDecodeError>(
                account@,
            ),
            res matches Err(e) ==> parse_account(rlp@) == Err::<AccountModel, RLPDecodeError>(e),
    {
        let (fields, rest) = match decode_list(rlp) {
            Ok(parts) => parts,
            Err(e) => {
                return Err(e);
            },
        };
        let (nonce, after_nonce) = match decode_digits(fields, 8) {
            Ok(parts) => parts,
            Err(e) => {
                return Err(e);
            },
        };
        let (balance, after_balance) = match decode_digits(after_nonce, 32) {
            Ok(parts) => parts,
            Err(e) => {
                return Err(e);
            },
        };
        let (storage_root, after_root) = match decode_word(after_balance) {
            Ok(parts) => parts,
            Err(e) => {
                return Err(e);
            },
        };
        let (code_hash, tail) = match decode_word(after_root) {
            Ok(parts) => parts,
            Err(e) => {
                return Err(e);
            },
        };
        if tail.len() != 0 {
            return Err(RLPDecodeError::MalformedData);
        }
        if rest.len() != 0 {
            return Err(RLPDecodeError::InvalidLength);
        }
        Ok(
            AccountState {
                nonce: be_to_u64(nonce),
                balance: U256::from_big_endian(balance),
                storage_root,
                code_hash,
            },
        )
    }
}

} // verus!
