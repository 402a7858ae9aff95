//! The form in which trie nodes are kept in the store: a tag byte for the
//! shape of the node, then the list of its fields, each child given by its
//! reference. This is not the form whose digest names a node.

use vstd::prelude::*;
use crate::error::RLPDecodeError;
use crate::nibbles::{is_nibbles, parse_nibbles, Nibbles};
use crate::node::{ref_hashes, BranchNode, ExtensionNode, LeafNode, Node, NodeRef, StoredNode};
use crate::node_hash::{parse_node_hash, NodeHash};
use crate::primitives::bytes_to_vec;
use crate::rlp::{
    bytes_encoding, decode_bytes, decode_list, encode_bytes, encode_list, item_encoding,
    lemma_item_encoding_len, lemma_parse_bytes_encoding, lemma_parse_item_consumes,
    lemma_parse_bytes_canonical, lemma_parse_item_encoding, lemma_parse_list_canonical,
    lemma_parse_list_encoding,
    list_encoding, parse_bytes, parse_list,
};
use vstd::slice::slice_subrange;

verus! {

/// The shape of a trie node, as recorded in the leading byte of a stored node.
#[derive(Clone, Copy, Debug, PartialEq, Eq, Structural)]
pub enum NodeType {
    Branch,
    Extension,
    Leaf,
}

impl NodeType {
    /// The shape that a tag byte stands for, if any.
    pub open spec fn of_tag(val: u8) -> Option<NodeType> {
        if val == 0 {
            Some(NodeType::Branch)
        } else if val == 1 {
            Some(NodeType::Extension)
        } else if val == 2 {
            Some(NodeType::Leaf)
        } else {
            None
        }
    }

    /// The tag byte written in front of a node of this shape.
    pub open spec fn tag(self) -> u8 {
        match self {
            NodeType::Branch => 0,
            NodeType::Extension => 1,
            NodeType::Leaf => 2,
        }
    }

    /// Reads a tag byte: 0, 1 and 2 name the three shapes, every other byte
    /// names none.
    pub fn from_u8(val: u8) -> (res: Option<NodeType>)
        ensures
            res == Self::of_tag(val),
    {
        match val {
            0 => Some(NodeType::Branch),
            1 => Some(NodeType::Extension),
            2 => Some(NodeType::Leaf),
            _ => None,
        }
    }

    /// Gives the tag byte of this shape.
    pub fn to_u8(self) -> (res: u8)
        ensures
            res == self.tag(),
            Self::of_tag(res) == Some(self),
    {
        match self {
            NodeType::Branch => 0,
            NodeType::Extension => 1,
            NodeType::Leaf => 2,
        }
    }
}

/// The stored forms of the references `hs`, one after the other.
pub open spec fn hashes_encoding(hs: Seq<Seq<u8>>) -> Seq<u8>
    decreases hs.len(),
{
    if hs.len() == 0 {
        Seq::empty()
    } else {
        bytes_encoding(hs.first()) + hashes_encoding(hs.drop_first())
    }
}

/// The stored form of a branch, without its tag: the list of the list of
/// its children's references and its value.
pub open spec fn branch_encoding(choices: Seq<Seq<u8>>, value: Seq<u8>) -> Seq<u8> {
    list_encoding(list_encoding(hashes_encoding(choices)) + bytes_encoding(value))
}

/// The stored form of an extension, without its tag: the list of its
/// prefix and its child's reference.
pub open spec fn extension_encoding(prefix: Seq<u8>, child: Seq<u8>) -> Seq<u8> {
    list_encoding(bytes_encoding(prefix) + bytes_encoding(child))
}

/// The stored form of a leaf, without its tag: the list of its path and
/// its value.
pub open spec fn leaf_encoding(partial: Seq<u8>, value: Seq<u8>) -> Seq<u8> {
    list_encoding(bytes_encoding(partial) + bytes_encoding(value))
}

/// The stored form of a node: the tag of its shape, then its fields.
pub open spec fn node_encoding(node: StoredNode) -> Seq<u8> {
    match node {
        StoredNode::Branch { choices, value } => seq![0u8] + branch_encoding(choices, value),
        StoredNode::Extension { prefix, child } => seq![1u8] + extension_encoding(prefix, child),
        StoredNode::Leaf { partial, value } => seq![2u8] + leaf_encoding(partial, value),
    }
}

/// `done`, followed by what is read next.
pub open spec fn prepend(done: Seq<Seq<u8>>, next: Result<Seq<Seq<u8>>, RLPDecodeError>) -> Result<
    Seq<Seq<u8>>,
    RLPDecodeError,
> {
    match next {
        Ok(more) => Ok(done + more),
        Err(e) => Err(e),
    }
}

/// Reads stored references until `s` is used up.
pub open spec fn parse_hashes(s: Seq<u8>) -> Result<Seq<Seq<u8>>, RLPDecodeError>
    decreases s.len(),
{
    if s.len() == 0 {
        Ok(Seq::empty())
    } else {
        match parse_node_hash(s) {
            Err(e) => Err(e),
            Ok((hash, rest)) => if rest.len() < s.len() {
                prepend(seq![hash], parse_hashes(rest))
            } else {
                Err(RLPDecodeError::InvalidLength)
            },
        }
    }
}

/// Reads the fields of a stored branch from the front of `s`.
pub open spec fn parse_branch(s: Seq<u8>) -> Result<(StoredNode, Seq<u8>), RLPDecodeError> {
    match parse_list(s) {
        Err(e) => Err(e),
        Ok((fields, rest)) => match parse_list(fields) {
            Err(e) => Err(e),
            Ok((items, after)) => match parse_hashes(items) {
                Err(e) => Err(e),
                Ok(choices) => if choices.len() != 16 {
                    Err(RLPDecodeError::BranchChoicesLength)
                } else {
                    match parse_bytes(after) {
                        Err(e) => Err(e),
                        Ok((value, tail)) => if tail.len() != 0 {
                            Err(RLPDecodeError::MalformedData)
                        } else {
                            Ok((StoredNode::Branch { choices, value }, rest))
                        },
                    }
                },
            },
        },
    }
}

/// Reads the fields of a stored extension from the front of `s`.
pub open spec fn parse_extension(s: Seq<u8>) -> Result<(StoredNode, Seq<u8>), RLPDecodeError> {
    match parse_list(s) {
        Err(e) => Err(e),
        Ok((fields, rest)) => match parse_nibbles(fields) {
            Err(e) => Err(e),
            Ok((prefix, after)) => match parse_node_hash(after) {
                Err(e) => Err(e),
                Ok((child, tail)) => if tail.len() != 0 {
                    Err(RLPDecodeError::MalformedData)
                } else {
                    Ok((StoredNode::Extension { prefix, child }, rest))
                },
            },
        },
    }
}

/// Reads the fields of a stored leaf from the front of `s`.
pub open spec fn parse_leaf(s: Seq<u8>) -> Result<(StoredNode, Seq<u8>), RLPDecodeError> {
    match parse_list(s) {
        Err(e) => Err(e),
        Ok((fields, rest)) => match parse_nibbles(fields) {
            Err(e) => Err(e),
            Ok((partial, after)) => match parse_bytes(after) {
                Err(e) => Err(e),
                Ok((value, tail)) => if tail.len() != 0 {
                    Err(RLPDecodeError::MalformedData)
                } else {
                    Ok((StoredNode::Leaf { partial, value }, rest))
                },
            },
        },
    }
}

/// Reads a stored node from the front of `s`: the tag, then the fields of
/// the shape that the tag names.
pub open spec fn parse_node(s: Seq<u8>) -> Result<(StoredNode, Seq<u8>), RLPDecodeError> {
    if s.len() == 0 {
        Err(RLPDecodeError::InvalidLength)
    } else {
        match NodeType::of_tag(s[0]) {
            None => Err(RLPDecodeError::MalformedData),
            Some(NodeType::Branch) => parse_branch(s.subrange(1, s.len() as int)),
            Some(NodeType::Extension) => parse_extension(s.subrange(1, s.len() as int)),
            Some(NodeType::Leaf) => parse_leaf(s.subrange(1, s.len() as int)),
        }
    }
}

/// The stored form of references grows at its end as the references do.
pub proof fn lemma_hashes_encoding_push(hs: Seq<Seq<u8>>, hash: Seq<u8>)
    ensures
        hashes_encoding(hs.push(hash)) == hashes_encoding(hs) + bytes_encoding(hash),
    decreases hs.len(),
{
    if hs.len() == 0 {
        assert(hs.push(hash).drop_first() =~= hs);
        assert(hashes_encoding(hs.push(hash)) =~= hashes_encoding(hs) + bytes_encoding(hash));
    } else {
        lemma_hashes_encoding_push(hs.drop_first(), hash);
        assert(hs.push(hash).drop_first() =~= hs.drop_first().push(hash));
        assert(hashes_encoding(hs.push(hash)) =~= hashes_encoding(hs) + bytes_encoding(hash));
    }
}

/// Reading back stored references gives the references.
pub proof fn lemma_parse_hashes_encoding(hs: Seq<Seq<u8>>)
    requires
        forall|i: int| 0 <= i < hs.len() ==> (#[trigger] hs[i]).len() <= 32,
    ensures
        parse_hashes(hashes_encoding(hs)) == Ok::<Seq<Seq<u8>>, RLPDecodeError>(hs),
    decreases hs.len(),
{
    if hs.len() > 0 {
        let tail = hs.drop_first();
        let rest = hashes_encoding(tail);
        assert(forall|i: int| 0 <= i < tail.len() ==> (#[trigger] tail[i]) == hs[i + 1]);
        lemma_parse_hashes_encoding(tail);
        assert(hs.first() == hs[0]);
        lemma_parse_item_encoding(false, hs.first(), rest);
        lemma_item_encoding_len(false, hs.first());
        let s = hashes_encoding(hs);
        assert(s == bytes_encoding(hs.first()) + rest);
        assert(s == item_encoding(false, hs.first()) + rest);
        assert(parse_bytes(s) == Ok::<(Seq<u8>, Seq<u8>), RLPDecodeError>((hs.first(), rest)));
        assert(parse_node_hash(s) == Ok::<(Seq<u8>, Seq<u8>), RLPDecodeError>(
            (hs.first(), rest),
        ));
        assert(rest.len() < s.len());
        assert(seq![hs.first()] + tail =~= hs);
        assert(parse_hashes(s) == prepend(seq![hs.first()], parse_hashes(rest)));
    } else {
        assert(hs =~= Seq::<Seq<u8>>::empty());
    }
}

/// What is read from the stored fields of a branch is the branch.
pub proof fn lemma_parse_branch_encoding(choices: Seq<Seq<u8>>, value: Seq<u8>, rest: Seq<u8>)
    requires
        forall|i: int| 0 <= i < choices.len() ==> (#[trigger] choices[i]).len() <= 32,
        branch_encoding(choices, value).len() <= u64::MAX,
    ensures
        parse_branch(branch_encoding(choices, value) + rest) == if choices.len() == 16 {
            Ok::<(StoredNode, Seq<u8>), RLPDecodeError>(
                (StoredNode::Branch { choices, value }, rest),
            )
        } else {
            Err::<(StoredNode, Seq<u8>), RLPDecodeError>(RLPDecodeError::BranchChoicesLength)
        },
{
    let empty = Seq::<u8>::empty();
    let items = hashes_encoding(choices);
    let fields = list_encoding(items) + bytes_encoding(value);
    lemma_item_encoding_len(true, fields);
    lemma_item_encoding_len(true, items);
    lemma_item_encoding_len(false, value);
    lemma_parse_list_encoding(fields, rest);
    lemma_parse_list_encoding(items, bytes_encoding(value));
    lemma_parse_hashes_encoding(choices);
    lemma_parse_bytes_encoding(value, empty);
    assert(bytes_encoding(value) + empty =~= bytes_encoding(value));
}

/// What is read from the stored fields of an extension is the extension.
pub proof fn lemma_parse_extension_encoding(prefix: Seq<u8>, child: Seq<u8>, rest: Seq<u8>)
    requires
        is_nibbles(prefix),
        child.len() <= 32,
        extension_encoding(prefix, child).len() <= u64::MAX,
    ensures
        parse_extension(extension_encoding(prefix, child) + rest) == Ok::<
            (StoredNode, Seq<u8>),
            RLPDecodeError,
        >((StoredNode::Extension { prefix, child }, rest)),
{
    let empty = Seq::<u8>::empty();
    let fields = bytes_encoding(prefix) + bytes_encoding(child);
    lemma_item_encoding_len(true, fields);
    lemma_item_encoding_len(false, prefix);
    lemma_item_encoding_len(false, child);
    lemma_parse_list_encoding(fields, rest);
    lemma_parse_bytes_encoding(prefix, bytes_encoding(child));
    lemma_parse_bytes_encoding(child, empty);
    assert(bytes_encoding(child) + empty =~= bytes_encoding(child));
}

/// What is read from the stored fields of a leaf is the leaf.
pub proof fn lemma_parse_leaf_encoding(partial: Seq<u8>, value: Seq<u8>, rest: Seq<u8>)
    requires
        is_nibbles(partial),
        leaf_encoding(partial, value).len() <= u64::MAX,
    ensures
        parse_leaf(leaf_encoding(partial, value) + rest) == Ok::<
            (StoredNode, Seq<u8>),
            RLPDecodeError,
        >((StoredNode::Leaf { partial, value }, rest)),
{
    let empty = Seq::<u8>::empty();
    let fields = bytes_encoding(partial) + bytes_encoding(value);
    lemma_item_encoding_len(true, fields);
    lemma_item_encoding_len(false, partial);
    lemma_item_encoding_len(false, value);
    lemma_parse_list_encoding(fields, rest);
    lemma_parse_bytes_encoding(partial, bytes_encoding(value));
    lemma_parse_bytes_encoding(value, empty);
    assert(bytes_encoding(value) + empty =~= bytes_encoding(value));
}

/// Round trip: what is read from the stored form of a node, followed by
/// any bytes, is that node, and those bytes.
pub proof fn lemma_decode_encode(node: StoredNode, rest: Seq<u8>)
    requires
        node.wf(),
        node_encoding(node).len() <= u64::MAX,
    ensures
        parse_node(node_encoding(node) + rest) == Ok::<(StoredNode, Seq<u8>), RLPDecodeError>(
            (node, rest),
        ),
{
    let s = node_encoding(node) + rest;
    match node {
        StoredNode::Branch { choices, value } => {
            assert(s.subrange(1, s.len() as int) =~= branch_encoding(choices, value) + rest);
            lemma_parse_branch_encoding(choices, value, rest);
        },
        StoredNode::Extension { prefix, child } => {
            assert(s.subrange(1, s.len() as int) =~= extension_encoding(prefix, child) + rest);
            lemma_parse_extension_encoding(prefix, child, rest);
        },
        StoredNode::Leaf { partial, value } => {
            assert(s.subrange(1, s.len() as int) =~= leaf_encoding(partial, value) + rest);
            lemma_parse_leaf_encoding(partial, value, rest);
        },
    }
}

/// What is read as a list of references was written as one, and no
/// reference read is longer than a digest.
pub proof fn lemma_parse_hashes_canonical(s: Seq<u8>)
    requires
        parse_hashes(s) is Ok,
    ensures
        s == hashes_encoding(parse_hashes(s)->Ok_0),
        forall|i: int|
            0 <= i < (parse_hashes(s)->Ok_0).len() ==> (#[trigger] (parse_hashes(s)->Ok_0)[i]).len()
                <= 32,
    decreases s.len(),
{
    let hs = parse_hashes(s)->Ok_0;
    if s.len() == 0 {
        assert(s =~= hashes_encoding(hs));
    } else {
        let (hash, rest) = parse_node_hash(s)->Ok_0;
        lemma_parse_bytes_canonical(s);
        lemma_parse_hashes_canonical(rest);
        let tail = parse_hashes(rest)->Ok_0;
        assert(hs == seq![hash] + tail);
        assert(hs.first() == hash);
        assert(hs.drop_first() =~= tail);
        assert forall|i: int| 0 <= i < hs.len() implies (#[trigger] hs[i]).len() <= 32 by {
            if i > 0 {
                assert(hs[i] == tail[i - 1]);
            }
        }
    }
}

/// What is read as the fields of a branch was written as such.
pub proof fn lemma_parse_branch_canonical(s: Seq<u8>)
    requires
        parse_branch(s) is Ok,
    ensures
        (parse_branch(s)->Ok_0).0.wf(),
        (parse_branch(s)->Ok_0).0 is Branch,
        s == node_encoding((parse_branch(s)->Ok_0).0).subrange(
            1,
            node_encoding((parse_branch(s)->Ok_0).0).len() as int,
        ) + (parse_branch(s)->Ok_0).1,
{
    let (fields, rest) = parse_list(s)->Ok_0;
    let (items, after) = parse_list(fields)->Ok_0;
    let choices = parse_hashes(items)->Ok_0;
    let (value, tail) = parse_bytes(after)->Ok_0;
    lemma_parse_list_canonical(s);
    lemma_parse_list_canonical(fields);
    lemma_parse_hashes_canonical(items);
    lemma_parse_bytes_canonical(after);
    assert(after =~= bytes_encoding(value));
    let node = StoredNode::Branch { choices, value };
    assert(node_encoding(node).subrange(1, node_encoding(node).len() as int)
        =~= branch_encoding(choices, value));
}

/// What is read as the fields of an extension was written as such.
pub proof fn lemma_parse_extension_canonical(s: Seq<u8>)
    requires
        parse_extension(s) is Ok,
    ensures
        (parse_extension(s)->Ok_0).0.wf(),
        (parse_extension(s)->Ok_0).0 is Extension,
        s == node_encoding((parse_extension(s)->Ok_0).0).subrange(
            1,
            node_encoding((parse_extension(s)->Ok_0).0).len() as int,
        ) + (parse_extension(s)->Ok_0).1,
{
    let (fields, rest) = parse_list(s)->Ok_0;
    let (prefix, after) = parse_nibbles(fields)->Ok_0;
    let (child, tail) = parse_node_hash(after)->Ok_0;
    lemma_parse_list_canonical(s);
    lemma_parse_bytes_canonical(fields);
    lemma_parse_bytes_canonical(after);
    assert(after =~= bytes_encoding(child));
    let node = StoredNode::Extension { prefix, child };
    assert(node_encoding(node).subrange(1, node_encoding(node).len() as int)
        =~= extension_encoding(prefix, child));
}

/// What is read as the fields of a leaf was written as such.
pub proof fn lemma_parse_leaf_canonical(s: Seq<u8>)
    requires
        parse_leaf(s) is Ok,
    ensures
        (parse_leaf(s)->Ok_0).0.wf(),
        (parse_leaf(s)->Ok_0).0 is Leaf,
        s == node_encoding((parse_leaf(s)->Ok_0).0).subrange(
            1,
            node_encoding((parse_leaf(s)->Ok_0).0).len() as int,
        ) + (parse_leaf(s)->Ok_0).1,
{
    let (fields, rest) = parse_list(s)->Ok_0;
    let (partial, after) = parse_nibbles(fields)->Ok_0;
    let (value, tail) = parse_bytes(after)->Ok_0;
    lemma_parse_list_canonical(s);
    lemma_parse_bytes_canonical(fields);
    lemma_parse_bytes_canonical(after);
    assert(after =~= bytes_encoding(value));
    let node = StoredNode::Leaf { partial, value };
    assert(node_encoding(node).subrange(1, node_encoding(node).len() as int) =~= leaf_encoding(
        partial,
        value,
    ));
}

/// One stored form for each node: an input from which a node is read
/// begins with the stored form of that node, so two inputs that differ
/// before what is left over are never read as the same node. The node read
/// is well formed.
pub proof fn lemma_decode_canonical(s: Seq<u8>)
    requires
        parse_node(s) is Ok,
    ensures
        (parse_node(s)->Ok_0).0.wf(),
        s == node_encoding((parse_node(s)->Ok_0).0) + (parse_node(s)->Ok_0).1,
{
    let body = s.subrange(1, s.len() as int);
    let (node, rest) = parse_node(s)->Ok_0;
    match NodeType::of_tag(s[0]) {
        Some(NodeType::Branch) => {
            lemma_parse_branch_canonical(body);
        },
        Some(NodeType::Extension) => {
            lemma_parse_extension_canonical(body);
        },
        Some(NodeType::Leaf) => {
            lemma_parse_leaf_canonical(body);
        },
        None => {},
    }
    let enc = node_encoding(node);
    assert(enc[0] == s[0]);
    assert(enc.len() >= 1);
    assert(s =~= seq![s[0]] + body);
    assert(enc =~= seq![enc[0]] + enc.subrange(1, enc.len() as int));
    assert(s =~= enc + rest);
}

/// A stored branch whose child list holds any number of references but
/// sixteen is refused, and the refusal names the child list.
pub proof fn lemma_branch_arity(choices: Seq<Seq<u8>>, value: Seq<u8>, rest: Seq<u8>)
    requires
        choices.len() != 16,
        forall|i: int| 0 <= i < choices.len() ==> (#[trigger] choices[i]).len() <= 32,
        branch_encoding(choices, value).len() <= u64::MAX,
    ensures
        parse_node(seq![0u8] + branch_encoding(choices, value) + rest) == Err::<
            (StoredNode, Seq<u8>),
            RLPDecodeError,
        >(RLPDecodeError::BranchChoicesLength),
{
    let s = seq![0u8] + branch_encoding(choices, value) + rest;
    assert(s.subrange(1, s.len() as int) =~= branch_encoding(choices, value) + rest);
    lemma_parse_branch_encoding(choices, value, rest);
}

/// Reads stored references until `items` is used up, and puts each in a
/// child slot.
fn decode_choices(items: &[u8]) -> (res: Result<Vec<NodeRef>, RLPDecodeError>)
    ensures
        res matches Ok(refs) ==> {
            &&& parse_hashes(items@) == Ok::<Seq<Seq<u8>>, RLPDecodeError>(ref_hashes(refs@))
            &&& forall|i: int| 0 <= i < refs@.len() ==> (#[trigger] refs@[i]).holds_reference()
        },
        res matches Err(e) ==> parse_hashes(items@) == Err::<Seq<Seq<u8>>, RLPDecodeError>(e),
{
    let mut refs: Vec<NodeRef> = Vec::new();
    let mut cur = items;
    assert(ref_hashes(refs@) + Seq::<Seq<u8>>::empty() =~= ref_hashes(refs@));
    assert(ref_hashes(refs@) =~= Seq::<Seq<u8>>::empty());
    assert(prepend(ref_hashes(refs@), parse_hashes(cur@)) == parse_hashes(items@)) by {
        match parse_hashes(cur@) {
            Ok(more) => {
                assert(ref_hashes(refs@) + more =~= more);
            },
            Err(e) => {},
        }
    }
    while cur.len() > 0
        invariant
            parse_hashes(items@) == prepend(ref_hashes(refs@), parse_hashes(cur@)),
            forall|i: int| 0 <= i < refs@.len() ==> (#[trigger] refs@[i]).holds_reference(),
        decreases cur@.len(),
    {
        match NodeHash::decode_unfinished(cur) {
            Err(e) => {
                return Err(e);
            },
            Ok((hash, rest)) => {
                let ghost done = ref_hashes(refs@);
                proof {
                    lemma_parse_item_consumes(cur@);
                    assert(parse_hashes(cur@) == prepend(seq![hash@], parse_hashes(rest@)));
                }
                refs.push(NodeRef::Hash(hash));
                proof {
                    assert(ref_hashes(refs@) =~= done.push(hash@));
                    match parse_hashes(rest@) {
                        Ok(more) => {
                            assert(done + (seq![hash@] + more) =~= done.push(hash@) + more);
                        },
                        Err(e) => {},
                    }
                }
                cur = rest;
            },
        }
    }
    assert(ref_hashes(refs@) + Seq::<Seq<u8>>::empty() =~= ref_hashes(refs@));
    Ok(refs)
}

impl BranchNode {
    /// Appends the stored fields of the branch.
    pub fn encode(&self, buf: &mut Vec<u8>)
        ensures
            final(buf)@ == old(buf)@ + branch_encoding(
                ref_hashes(self.choices_spec()),
                self.value_spec(),
            ),
            self.references_wf() ==> self.stored().wf(),
    {
        let choices = self.choices();
        let ghost hashes = ref_hashes(choices@);
        let mut items: Vec<u8> = Vec::new();
        let mut i: usize = 0;
        assert(hashes.subrange(0, 0) =~= Seq::<Seq<u8>>::empty());
        while i < choices.len()
            invariant
                i <= choices@.len(),
                hashes == ref_hashes(choices@),
                items@ == hashes_encoding(hashes.subrange(0, i as int)),
                choices@ == self.choices_spec(),
                self.references_wf() ==> forall|j: int|
                    0 <= j < i ==> (#[trigger] hashes[j]).len() <= 32,
            decreases choices@.len() - i,
        {
            let hash = choices[i].compute_hash();
            proof {
                lemma_hashes_encoding_push(hashes.subrange(0, i as int), hash@);
                assert(hashes.subrange(0, i + 1) =~= hashes.subrange(0, i as int).push(hash@));
            }
            hash.encode(&mut items);
            i += 1;
        }
        assert(hashes.subrange(0, i as int) =~= hashes);
        let mut fields: Vec<u8> = Vec::new();
        encode_list(items.as_slice(), &mut fields);
        encode_bytes(self.value().as_slice(), &mut fields);
        assert(fields@ =~= list_encoding(items@) + bytes_encoding(self.value_spec()));
        encode_list(fields.as_slice(), buf);
    }

    /// Reads the stored fields of a branch from the front of `rlp`; gives
    /// the branch, with a reference in each child slot, and the bytes after
    /// it.
    pub fn decode_unfinished(rlp: &[u8]) -> (res: Result<(BranchNode, &[u8]), RLPDecodeError>)
        ensures
            res matches Ok((node, rest)) ==> {
                &&& parse_branch(rlp@) == Ok::<(StoredNode, Seq<u8>), RLPDecodeError>(
                    (node.stored(), rest@),
                )
                &&& node.in_hash_form()
            },
            res matches Err(e) ==> parse_branch(rlp@) == Err::<
                (StoredNode, Seq<u8>),
                RLPDecodeError,
            >(e),
    {
        let (fields, rest) = match decode_list(rlp) {
            Ok(parts) => parts,
            Err(e) => {
                return Err(e);
            },
        };
        let (items, after) = match decode_list(fields) {
            Ok(parts) => parts,
            Err(e) => {
                return Err(e);
            },
        };
        let choices = match decode_choices(items) {
            Ok(refs) => refs,
            Err(e) => {
                return Err(e);
            },
        };
        if choices.len() != 16 {
            return Err(RLPDecodeError::BranchChoicesLength);
        }
        let (value, tail) = match decode_bytes(after) {
            Ok(parts) => parts,
            Err(e) => {
                return Err(e);
            },
        };
        if tail.len() != 0 {
            return Err(RLPDecodeError::MalformedData);
        }
        let node = BranchNode::new(choices, bytes_to_vec(value)).unwrap();
        Ok((node, rest))
    }
}

impl ExtensionNode {
    /// Appends the stored fields of the extension.
    pub fn encode(&self, buf: &mut Vec<u8>)
        ensures
            final(buf)@ == old(buf)@ + extension_encoding(self.prefix@, self.child.hash_spec()),
            self.references_wf() ==> self.stored().wf(),
    {
        let mut fields: Vec<u8> = Vec::new();
        let _ = self.prefix.as_slice();
        self.prefix.encode(&mut fields);
        let hash = self.child.compute_hash();
        hash.encode(&mut fields);
        assert(fields@ =~= bytes_encoding(self.prefix@) + bytes_encoding(hash@));
        encode_list(fields.as_slice(), buf);
    }

    /// Reads the stored fields of an extension from the front of `rlp`;
    /// gives the extension, with a reference for its child, and the bytes
    /// after it.
    pub fn decode_unfinished(rlp: &[u8]) -> (res: Result<(ExtensionNode, &[u8]), RLPDecodeError>)
        ensures
            res matches Ok((node, rest)) ==> {
                &&& parse_extension(rlp@) == Ok::<(StoredNode, Seq<u8>), RLPDecodeError>(
                    (node.stored(), rest@),
                )
                &&& node.in_hash_form()
            },
            res matches Err(e) ==> parse_extension(rlp@) == Err::<
                (StoredNode, Seq<u8>),
                RLPDecodeError,
            >(e),
    {
        let (fields, rest) = match decode_list(rlp) {
            Ok(parts) => parts,
            Err(e) => {
                return Err(e);
            },
        };
        let (prefix, after) = match Nibbles::decode_unfinished(fields) {
            Ok(parts) => parts,
            Err(e) => {
                return Err(e);
            },
        };
        let (child, tail) = match NodeHash::decode_unfinished(after) {
            Ok(parts) => parts,
            Err(e) => {
                return Err(e);
            },
        };
        if tail.len() != 0 {
            return Err(RLPDecodeError::MalformedData);
        }
        Ok((ExtensionNode { prefix, child: NodeRef::Hash(child) }, rest))
    }
}

impl LeafNode {
    /// Appends the stored fields of the leaf.
    pub fn encode(&self, buf: &mut Vec<u8>)
        ensures
            final(buf)@ == old(buf)@ + leaf_encoding(self.partial@, self.value@),
            self.stored().wf(),
    {
        let mut fields: Vec<u8> = Vec::new();
        let _ = self.partial.as_slice();
        self.partial.encode(&mut fields);
        encode_bytes(self.value.as_slice(), &mut fields);
        assert(fields@ =~= bytes_encoding(self.partial@) + bytes_encoding(self.value@));
        encode_list(fields.as_slice(), buf);
    }

    /// Reads the stored fields of a leaf from the front of `rlp`; gives the
    /// leaf and the bytes after it.
    pub fn decode_unfinished(rlp: &[u8]) -> (res: Result<(LeafNode, &[u8]), RLPDecodeError>)
        ensures
            res matches Ok((node, rest)) ==> parse_leaf(rlp@) == Ok::<
                (StoredNode, Seq<u8>),
                RLPDecodeError,
            >((node.stored(), rest@)),
            res matches Err(e) ==> parse_leaf(rlp@) == Err::<(StoredNode, Seq<u8>), RLPDecodeError>(
                e,
            ),
    {
        let (fields, rest) = match decode_list(rlp) {
            Ok(parts) => parts,
            Err(e) => {
                return Err(e);
            },
        };
        let (partial, after) = match Nibbles::decode_unfinished(fields) {
            Ok(parts) => parts,
            Err(e) => {
                return Err(e);
            },
        };
        let (value, tail) = match decode_bytes(after) {
            Ok(parts) => parts,
            Err(e) => {
                return Err(e);
            },
        };
        if tail.len() != 0 {
            return Err(RLPDecodeError::MalformedData);
        }
        Ok((LeafNode { partial, value: bytes_to_vec(value) }, rest))
    }
}

impl Node {
    /// The shape of the node.
    pub fn node_type(&self) -> (t: NodeType)
        ensures
            t == match self {
                Node::Branch(_) => NodeType::Branch,
                Node::Extension(_) => NodeType::Extension,
                Node::Leaf(_) => NodeType::Leaf,
            },
    {
        match self {
            Node::Branch(_) => NodeType::Branch,
            Node::Extension(_) => NodeType::Extension,
            Node::Leaf(_) => NodeType::Leaf,
        }
    }

    /// Appends the stored form of the node: the tag of its shape, then its
    /// fields, each child given by its reference.
    pub fn encode(&self, buf: &mut Vec<u8>)
        ensures
            final(buf)@ == old(buf)@ + node_encoding(self.stored()),
            self.references_wf() ==> self.stored().wf(),
    {
        buf.push(self.node_type().to_u8());
        match self {
            Node::Branch(n) => n.encode(buf),
            Node::Extension(n) => n.encode(buf),
            Node::Leaf(n) => n.encode(buf),
        }
        assert(buf@ =~= old(buf)@ + node_encoding(self.stored()));
    }

    /// The stored form of the node. Where the references that the node
    /// holds are well formed, reading the stored form back gives what the
    /// store keeps of the node, and nothing is left over.
    pub fn encode_to_vec(&self) -> (out: Vec<u8>)
        ensures
            out@ == node_encoding(self.stored()),
            self.references_wf() ==> self.stored().wf() && parse_node(out@) == Ok::<
                (StoredNode, Seq<u8>),
                RLPDecodeError,
            >((self.stored(), Seq::<u8>::empty())),
    {
        let mut out: Vec<u8> = Vec::new();
        self.encode(&mut out);
        assert(out@ =~= node_encoding(self.stored()));
        let _ = out.len();
        proof {
            if self.references_wf() {
                lemma_decode_encode(self.stored(), Seq::<u8>::empty());
                assert(out@ + Seq::<u8>::empty() =~= out@);
            }
        }
        out
    }

    /// Reads a stored node from the front of `rlp`; gives the node, with a
    /// reference in each child slot, and the bytes after it. An empty input
    /// is refused for its length, a first byte that names no shape as
    /// malformed.
    pub fn decode_unfinished(rlp: &[u8]) -> (res: Result<(Node, &[u8]), RLPDecodeError>)
        ensures
            res matches Ok((node, rest)) ==> {
                &&& parse_node(rlp@) == Ok::<(StoredNode, Seq<u8>), RLPDecodeError>(
                    (node.stored(), rest@),
                )
                &&& node.in_hash_form()
            },
            res matches Err(e) ==> parse_node(rlp@) == Err::<(StoredNode, Seq<u8>), RLPDecodeError>(
                e,
            ),
            rlp@.len() == 0 ==> res is Err && res->Err_0 == RLPDecodeError::InvalidLength,
            rlp@.len() > 0 && NodeType::of_tag(rlp@[0]) is None ==> res is Err && res->Err_0
                == RLPDecodeError::MalformedData,
    {
        if rlp.len() == 0 {
            return Err(RLPDecodeError::InvalidLength);
        }
        let node_type = match NodeType::from_u8(rlp[0]) {
            Some(t) => t,
            None => {
                return Err(RLPDecodeError::MalformedData);
            },
        };
        let body = slice_subrange(rlp, 1, rlp.len());
        match node_type {
            NodeType::Branch => match BranchNode::decode_unfinished(body) {
                Ok((node, rest)) => Ok((Node::Branch(Box::new(node)), rest)),
                Err(e) => Err(e),
            },
            NodeType::Extension => match ExtensionNode::decode_unfinished(body) {
                Ok((node, rest)) => Ok((Node::Extension(node), rest)),
                Err(e) => Err(e),
            },
            NodeType::Leaf => match LeafNode::decode_unfinished(body) {
                Ok((node, rest)) => Ok((Node::Leaf(node), rest)),
                Err(e) => Err(e),
            },
        }
    }

    /// Reads a stored node from `rlp`, which must hold nothing after it.
    pub fn decode(rlp: &[u8]) -> (res: Result<Node, RLPDecodeError>)
        ensures
            res matches Ok(node) ==> {
                &&& parse_node(rlp@) == Ok::<(StoredNode, Seq<u8>), RLPDecodeError>(
                    (node.stored(), Seq::<u8>::empty()),
                )
                &&& node.in_hash_form()
            },
            res matches Err(e) ==> match parse_node(rlp@) {
                Ok((node, rest)) => rest.len() != 0 && e == RLPDecodeError::InvalidLength,
                Err(cause) => e == cause,
            },
    {
        match Node::decode_unfinished(rlp) {
            Ok((node, rest)) => {
                if rest.len() != 0 {
                    Err(RLPDecodeError::InvalidLength)
                } else {
                    assert(rest@ =~= Seq::<u8>::empty());
                    Ok(node)
                }
            },
            Err(e) => Err(e),
        }
    }
}

} // verus!
