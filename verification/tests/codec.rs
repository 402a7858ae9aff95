use trie_healing::codec::NodeType;
use trie_healing::error::RLPDecodeError;
use trie_healing::nibbles::Nibbles;
use trie_healing::node::{BranchNode, ExtensionNode, LeafNode, Node, NodeRef};
use trie_healing::node_hash::NodeHash;
use trie_healing::primitives::H256;
use trie_healing::rlp::{encode_bytes, encode_list};

fn hashed(byte: u8) -> NodeRef {
    NodeRef::Hash(NodeHash::Hashed(H256([byte; 32])))
}

fn empty_ref() -> NodeRef {
    NodeRef::Hash(NodeHash::Inline(vec![]))
}

fn sample_leaf() -> Node {
    Node::Leaf(LeafNode {
        partial: Nibbles::from_hex(vec![1, 2, 3]).unwrap(),
        value: vec![0xde, 0xad, 0xbe, 0xef],
    })
}

fn sample_extension() -> Node {
    Node::Extension(ExtensionNode {
        prefix: Nibbles::from_hex(vec![0, 15, 7]).unwrap(),
        child: hashed(0x11),
    })
}

fn sample_branch() -> Node {
    let mut choices = Vec::new();
    for i in 0..16u8 {
        if i % 3 == 0 {
            choices.push(hashed(i));
        } else if i % 3 == 1 {
            choices.push(NodeRef::Hash(NodeHash::Inline(vec![0xc2, i, i])));
        } else {
            choices.push(empty_ref());
        }
    }
    Node::Branch(Box::new(BranchNode::new(choices, vec![9, 9]).unwrap()))
}

#[test]
fn node_type_from_u8_names_three_shapes() {
    assert_eq!(NodeType::from_u8(0), Some(NodeType::Branch));
    assert_eq!(NodeType::from_u8(1), Some(NodeType::Extension));
    assert_eq!(NodeType::from_u8(2), Some(NodeType::Leaf));
    assert_eq!(NodeType::from_u8(3), None);
    assert_eq!(NodeType::from_u8(255), None);
    assert_eq!(NodeType::Leaf.to_u8(), 2);
}

#[test]
fn leaf_stored_form_is_exact() {
    let bytes = sample_leaf().encode_to_vec();
    // tag, list header, path as a 3-byte string, value as a 4-byte string
    assert_eq!(
        bytes,
        vec![2, 0xc9, 0x83, 1, 2, 3, 0x84, 0xde, 0xad, 0xbe, 0xef]
    );
}

#[test]
fn leaf_round_trip() {
    let node = sample_leaf();
    let bytes = node.encode_to_vec();
    assert_eq!(Node::decode(&bytes), Ok(node));
}

#[test]
fn extension_round_trip() {
    let node = sample_extension();
    let bytes = node.encode_to_vec();
    assert_eq!(bytes[0], 1);
    assert_eq!(Node::decode(&bytes), Ok(node));
}

#[test]
fn branch_round_trip() {
    let node = sample_branch();
    let bytes = node.encode_to_vec();
    assert_eq!(bytes[0], 0);
    assert_eq!(Node::decode(&bytes), Ok(node));
}

#[test]
fn decode_unfinished_returns_what_follows() {
    let mut bytes = sample_extension().encode_to_vec();
    bytes.extend_from_slice(&[7, 8, 9]);
    let (node, rest) = Node::decode_unfinished(&bytes).unwrap();
    assert_eq!(node, sample_extension());
    assert_eq!(rest, &[7, 8, 9]);
    assert_eq!(Node::decode(&bytes), Err(RLPDecodeError::InvalidLength));
}

#[test]
fn inlined_child_is_stored_by_its_reference() {
    let child = Node::Leaf(LeafNode {
        partial: Nibbles::from_hex(vec![5]).unwrap(),
        value: vec![1],
    });
    let reference = child.compute_hash();
    // [0x35, 0x01] as a list: short enough to stand inline
    assert_eq!(reference, NodeHash::Inline(vec![0xc2, 0x35, 0x01]));
    let node = Node::Extension(ExtensionNode {
        prefix: Nibbles::from_hex(vec![4]).unwrap(),
        child: NodeRef::Node(Box::new(child)),
    });
    let decoded = Node::decode(&node.encode_to_vec()).unwrap();
    assert_eq!(
        decoded,
        Node::Extension(ExtensionNode {
            prefix: Nibbles::from_hex(vec![4]).unwrap(),
            child: NodeRef::Hash(reference),
        })
    );
    assert_eq!(decoded.compute_hash(), node.compute_hash());
}

#[test]
fn decode_empty_input_is_invalid_length() {
    assert_eq!(Node::decode(&[]), Err(RLPDecodeError::InvalidLength));
    assert_eq!(
        Node::decode_unfinished(&[]).map(|(node, _)| node),
        Err(RLPDecodeError::InvalidLength)
    );
}

#[test]
fn decode_unknown_tag_is_malformed() {
    let mut bytes = sample_leaf().encode_to_vec();
    for tag in [3u8, 4, 0x7f, 0x80, 0xc0, 0xff] {
        bytes[0] = tag;
        assert_eq!(Node::decode(&bytes), Err(RLPDecodeError::MalformedData));
    }
    assert_eq!(Node::decode(&[3]), Err(RLPDecodeError::MalformedData));
}

fn branch_bytes_with(children: usize) -> Vec<u8> {
    let mut items = Vec::new();
    for i in 0..children {
        NodeHash::Hashed(H256([i as u8; 32])).encode(&mut items);
    }
    let mut fields = Vec::new();
    encode_list(&items, &mut fields);
    encode_bytes(&[], &mut fields);
    let mut bytes = vec![0u8];
    encode_list(&fields, &mut bytes);
    bytes
}

#[test]
fn branch_with_wrong_child_count_is_refused() {
    for children in [0usize, 1, 15, 17, 32] {
        assert_eq!(
            Node::decode(&branch_bytes_with(children)),
            Err(RLPDecodeError::BranchChoicesLength)
        );
    }
    assert!(Node::decode(&branch_bytes_with(16)).is_ok());
}

#[test]
fn branch_new_wants_sixteen_slots() {
    assert!(BranchNode::new(vec![], vec![]).is_none());
    let fifteen: Vec<NodeRef> = (0..15).map(|_| empty_ref()).collect();
    assert!(BranchNode::new(fifteen, vec![]).is_none());
    let sixteen: Vec<NodeRef> = (0..16).map(|_| empty_ref()).collect();
    let branch = BranchNode::new(sixteen, vec![1]).unwrap();
    assert_eq!(branch.choices().len(), 16);
    assert_eq!(branch.value(), &vec![1]);
}

#[test]
fn truncated_input_is_invalid_length() {
    let bytes = sample_branch().encode_to_vec();
    for cut in 1..bytes.len() {
        assert_eq!(
            Node::decode(&bytes[..cut]),
            Err(RLPDecodeError::InvalidLength),
            "cut at {}",
            cut
        );
    }
}

#[test]
fn leaf_with_bytes_left_in_its_list_is_malformed() {
    // list of path, value and one byte more
    let bytes = vec![2, 0xc3, 0x0f, 0x05, 0x05];
    assert_eq!(Node::decode(&bytes), Err(RLPDecodeError::MalformedData));
    let fine = vec![2, 0xc2, 0x0f, 0x05];
    assert!(Node::decode(&fine).is_ok());
}

#[test]
fn single_byte_behind_a_header_is_malformed() {
    // 0x0f stands for itself; 0x81 0x0f is a second spelling, which is refused
    let bytes = vec![2, 0xc3, 0x81, 0x0f, 0x05];
    assert_eq!(Node::decode(&bytes), Err(RLPDecodeError::MalformedData));
}

#[test]
fn path_byte_over_fifteen_is_malformed() {
    let bytes = vec![2, 0xc2, 0x10, 0x05];
    assert_eq!(Node::decode(&bytes), Err(RLPDecodeError::MalformedData));
}

#[test]
fn string_where_list_is_expected() {
    assert_eq!(
        Node::decode(&[2, 0x83, 1, 2, 3]),
        Err(RLPDecodeError::UnexpectedString)
    );
    // a list where the leaf's path should be
    assert_eq!(
        Node::decode(&[2, 0xc2, 0xc0, 0x05]),
        Err(RLPDecodeError::UnexpectedList)
    );
}

#[test]
fn reference_longer_than_a_digest_is_refused() {
    let mut fields = Vec::new();
    encode_bytes(&[1, 2], &mut fields);
    encode_bytes(&[7u8; 33], &mut fields);
    let mut bytes = vec![1u8];
    encode_list(&fields, &mut bytes);
    assert_eq!(Node::decode(&bytes), Err(RLPDecodeError::InvalidLength));
}

#[test]
fn decoded_references_are_digests_exactly_at_32_bytes() {
    let decoded = Node::decode(&sample_branch().encode_to_vec()).unwrap();
    let slots = match &decoded {
        Node::Branch(branch) => branch.choices(),
        other => panic!("not a branch: {:?}", other),
    };
    for (i, slot) in slots.iter().enumerate() {
        match slot {
            NodeRef::Hash(NodeHash::Hashed(word)) => {
                assert_eq!(i % 3, 0);
                assert_eq!(*word, H256([i as u8; 32]));
            }
            NodeRef::Hash(NodeHash::Inline(raw)) => {
                assert!(raw.len() < 32);
                assert_eq!(raw.is_empty(), i % 3 == 2);
            }
            NodeRef::Node(_) => panic!("a node in slot {}", i),
        }
    }
    let extension = Node::decode(&sample_extension().encode_to_vec()).unwrap();
    assert_eq!(
        extension,
        Node::Extension(ExtensionNode {
            prefix: Nibbles::from_hex(vec![0, 15, 7]).unwrap(),
            child: NodeRef::Hash(NodeHash::Hashed(H256([0x11; 32]))),
        })
    );
}

#[test]
fn bytes_behind_a_node_do_not_change_what_is_read() {
    for node in [sample_leaf(), sample_extension(), sample_branch()] {
        let bytes = node.encode_to_vec();
        let (alone, rest) = Node::decode_unfinished(&bytes).unwrap();
        assert!(rest.is_empty());
        let mut longer = bytes.clone();
        longer.extend_from_slice(&[0xc0, 0x80, 0x01]);
        let (again, left) = Node::decode_unfinished(&longer).unwrap();
        assert_eq!(again, alone);
        assert_eq!(left, &[0xc0, 0x80, 0x01]);
    }
}
