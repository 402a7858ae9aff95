use trie_healing::account::AccountState;
use trie_healing::error::RLPDecodeError;
use trie_healing::nibbles::Nibbles;
use trie_healing::node::{BranchNode, ExtensionNode, LeafNode, Node, NodeRef};
use trie_healing::node_hash::NodeHash;
use trie_healing::primitives::{bytes_equal, H256, U256};
use trie_healing::rlp::{encode_bytes, encode_list};

fn unhex(text: &str) -> Vec<u8> {
    (0..text.len() / 2)
        .map(|i| u8::from_str_radix(&text[2 * i..2 * i + 2], 16).unwrap())
        .collect()
}

fn word(text: &str) -> H256 {
    H256::from_slice(&unhex(text))
}

fn amount(n: u64) -> U256 {
    U256::from_big_endian(&n.to_be_bytes())
}

fn account_bytes(account: &AccountState) -> Vec<u8> {
    let mut out = Vec::new();
    account.encode(&mut out);
    out
}

fn list_of(fields: &[&[u8]]) -> Vec<u8> {
    let mut payload = Vec::new();
    for field in fields {
        encode_bytes(field, &mut payload);
    }
    let mut out = Vec::new();
    encode_list(&payload, &mut out);
    out
}

#[test]
fn digest_of_a_long_encoding_is_keccak() {
    assert_eq!(
        NodeHash::from_encoded_raw(&[0u8; 32]),
        NodeHash::Hashed(word(
            "290decd9548b62a8d60345a988386fc84ba6bc95484008f6362f93160ef3e563"
        ))
    );
}

#[test]
fn short_encoding_stands_for_itself() {
    assert_eq!(
        NodeHash::from_encoded_raw(&[0xc2, 0x35, 0x01]),
        NodeHash::Inline(vec![0xc2, 0x35, 0x01])
    );
    assert_eq!(
        NodeHash::from_encoded_raw(&[9u8; 31]),
        NodeHash::Inline(vec![9u8; 31])
    );
    assert!(matches!(
        NodeHash::from_encoded_raw(&[9u8; 32]),
        NodeHash::Hashed(_)
    ));
}

#[test]
fn node_hash_from_slice_goes_by_length() {
    assert_eq!(NodeHash::from_slice(&[]), Some(NodeHash::Inline(vec![])));
    assert_eq!(
        NodeHash::from_slice(&[1u8; 32]),
        Some(NodeHash::Hashed(H256([1u8; 32])))
    );
    assert_eq!(NodeHash::from_slice(&[1u8; 33]), None);
    assert!(!NodeHash::empty().is_valid());
    assert!(NodeHash::Inline(vec![1]).is_valid());
    assert_eq!(NodeHash::Hashed(H256([2; 32])).hashed(), Some(H256([2; 32])));
    assert_eq!(NodeHash::Inline(vec![1]).hashed(), None);
    assert_eq!(NodeHash::Inline(vec![1, 2]).as_bytes(), &[1, 2]);
}

#[test]
fn words_are_compared_by_their_bytes() {
    assert!(H256([3; 32]).same(&H256([3; 32])));
    assert!(!H256([3; 32]).same(&H256::zero()));
    assert_eq!(H256::zero(), H256([0; 32]));
    assert_eq!(H256::try_from_slice(&[1; 31]), None);
    assert_eq!(H256::try_from_slice(&[1; 32]), Some(H256([1; 32])));
    assert!(bytes_equal(&[1, 2], &[1, 2]));
    assert!(!bytes_equal(&[1, 2], &[1, 3]));
    assert!(!bytes_equal(&[1, 2], &[1, 2, 3]));
}

fn leaf(partial: Vec<u8>, value: &[u8]) -> Node {
    Node::Leaf(LeafNode {
        partial: Nibbles::from_hex(partial).unwrap(),
        value: value.to_vec(),
    })
}

fn branch(children: Vec<(usize, Node)>, value: &[u8]) -> Node {
    let mut choices: Vec<NodeRef> = (0..16).map(|_| NodeRef::Hash(NodeHash::empty())).collect();
    for (slot, child) in children {
        choices[slot] = NodeRef::Node(Box::new(child));
    }
    Node::Branch(Box::new(BranchNode::new(choices, value.to_vec()).unwrap()))
}

fn extension(prefix: Vec<u8>, child: Node) -> Node {
    Node::Extension(ExtensionNode {
        prefix: Nibbles::from_hex(prefix).unwrap(),
        child: NodeRef::Node(Box::new(child)),
    })
}

#[test]
fn root_hash_of_the_four_word_trie() {
    // do -> verb, dog -> puppy, doge -> coin, horse -> stallion
    let coin = leaf(vec![5], b"coin");
    let dog = branch(vec![(6, coin)], b"puppy");
    let after_do = extension(vec![7], dog);
    let do_branch = branch(vec![(6, after_do)], b"verb");
    let do_ext = extension(vec![6, 15], do_branch);
    let horse = leaf(vec![6, 15, 7, 2, 7, 3, 6, 5], b"stallion");
    let top = branch(vec![(4, do_ext), (8, horse)], b"");
    let root = extension(vec![6], top);
    assert_eq!(
        root.compute_hash(),
        NodeHash::Hashed(word(
            "5991bb8c6514148a29db676a14ac506cd2cd5775ace63c30a4fe457715e9ac84"
        ))
    );
}

#[test]
fn hashed_form_of_a_small_leaf() {
    let node = leaf(vec![5], &[1]);
    assert_eq!(node.encode_raw(), vec![0xc2, 0x35, 0x01]);
    let held = NodeRef::Hash(NodeHash::Hashed(H256([7; 32])));
    assert_eq!(held.compute_hash(), NodeHash::Hashed(H256([7; 32])));
    assert!(held.is_valid());
    assert!(!NodeRef::Hash(NodeHash::empty()).is_valid());
    assert!(NodeRef::Node(Box::new(node)).is_valid());
}

#[test]
fn account_round_trip() {
    let account = AccountState {
        nonce: 7,
        balance: amount(1_000_000_007),
        storage_root: H256([0x11; 32]),
        code_hash: H256([0x22; 32]),
    };
    let bytes = account_bytes(&account);
    assert_eq!(AccountState::decode(&bytes), Ok(account));
    let zero = AccountState {
        nonce: 0,
        balance: U256([0; 32]),
        storage_root: H256([0; 32]),
        code_hash: H256([0xff; 32]),
    };
    assert_eq!(AccountState::decode(&account_bytes(&zero)), Ok(zero));
    let full = AccountState {
        nonce: u64::MAX,
        balance: U256([0xff; 32]),
        storage_root: H256([1; 32]),
        code_hash: H256([2; 32]),
    };
    assert_eq!(AccountState::decode(&account_bytes(&full)), Ok(full));
}

#[test]
fn account_encoding_is_exact() {
    let account = AccountState {
        nonce: 1,
        balance: amount(0x0400),
        storage_root: H256([0xaa; 32]),
        code_hash: H256([0xbb; 32]),
    };
    let mut expected = vec![0xf8, 70, 0x01, 0x82, 0x04, 0x00, 0xa0];
    expected.extend_from_slice(&[0xaa; 32]);
    expected.push(0xa0);
    expected.extend_from_slice(&[0xbb; 32]);
    assert_eq!(account_bytes(&account), expected);
}

#[test]
fn balance_digits_drop_leading_zeros() {
    assert_eq!(amount(0).to_digits(), &[] as &[u8]);
    assert_eq!(amount(0x01_00).to_digits(), &[1, 0]);
    assert_eq!(U256::from_big_endian(&[]), U256([0; 32]));
    let mut bytes = [0u8; 32];
    bytes[31] = 9;
    assert_eq!(U256::from_big_endian(&[9]), U256(bytes));
}

#[test]
fn account_decode_refusals() {
    let root = [0x11u8; 32];
    let code = [0x22u8; 32];
    // a nonce with a leading zero
    assert_eq!(
        AccountState::decode(&list_of(&[&[0, 1], &[5], &root, &code])),
        Err(RLPDecodeError::MalformedData)
    );
    // a nonce of nine digits
    assert_eq!(
        AccountState::decode(&list_of(&[&[1; 9], &[5], &root, &code])),
        Err(RLPDecodeError::InvalidLength)
    );
    // a balance of 33 digits
    assert_eq!(
        AccountState::decode(&list_of(&[&[1], &[5; 33], &root, &code])),
        Err(RLPDecodeError::InvalidLength)
    );
    // a storage root of 31 bytes
    assert_eq!(
        AccountState::decode(&list_of(&[&[1], &[5], &root[..31], &code])),
        Err(RLPDecodeError::InvalidLength)
    );
    // a fifth field
    assert_eq!(
        AccountState::decode(&list_of(&[&[1], &[5], &root, &code, &[1]])),
        Err(RLPDecodeError::MalformedData)
    );
    // a field too few
    assert_eq!(
        AccountState::decode(&list_of(&[&[1], &[5], &root])),
        Err(RLPDecodeError::InvalidLength)
    );
    // bytes after the list
    let mut trailing = list_of(&[&[1], &[5], &root, &code]);
    assert!(AccountState::decode(&trailing).is_ok());
    trailing.push(0);
    assert_eq!(
        AccountState::decode(&trailing),
        Err(RLPDecodeError::InvalidLength)
    );
    // no list at all
    assert_eq!(
        AccountState::decode(&[0x83, 1, 2, 3]),
        Err(RLPDecodeError::UnexpectedString)
    );
    assert_eq!(AccountState::decode(&[]), Err(RLPDecodeError::InvalidLength));
}
