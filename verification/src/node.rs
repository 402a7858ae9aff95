//! The three shapes of trie nodes, and the form of a node whose digest names
//! it.

use vstd::prelude::*;
use crate::nibbles::{compact, is_nibbles, Nibbles};
use crate::node_hash::{content_hash, NodeHash};
use crate::primitives::extend_bytes;
use crate::rlp::{bytes_encoding, encode_bytes, encode_list, list_encoding};

verus! {

/// What a node holds in place of a child: the child itself, or a reference
/// to it.
#[derive(Debug, PartialEq, Eq)]
pub enum NodeRef {
    Node(Box<Node>),
    Hash(NodeHash),
}

/// A node with sixteen child slots, one for each half-byte, and a value.
#[derive(Debug, PartialEq, Eq)]
pub struct BranchNode {
    choices: Vec<NodeRef>,
    value: Vec<u8>,
}

/// A node that stands for a stretch of path shared by all that lies below
/// its one child.
#[derive(Debug, PartialEq, Eq)]
pub struct ExtensionNode {
    pub prefix: Nibbles,
    pub child: NodeRef,
}

/// A node that ends a path and holds the value stored under it.
#[derive(Debug, Clone, PartialEq, Eq)]
pub struct LeafNode {
    pub partial: Nibbles,
    pub value: Vec<u8>,
}

/// A node of the trie.
#[derive(Debug, PartialEq, Eq)]
pub enum Node {
    Branch(Box<BranchNode>),
    Extension(ExtensionNode),
    Leaf(LeafNode),
}

/// How a child with the reference `hash` stands in the hashed form of its
/// parent: a digest and the empty reference as byte strings, an inline
/// encoding as it is.
pub open spec fn child_raw(hash: Seq<u8>) -> Seq<u8> {
    if hash.len() == 0 || hash.len() == 32 {
        bytes_encoding(hash)
    } else {
        hash
    }
}

/// The first `n` of `refs` as they stand, one after the other, in the
/// hashed form of their parent.
pub open spec fn children_raw(refs: Seq<NodeRef>, n: nat) -> Seq<u8>
    decreases refs, n,
{
    if n == 0 || n > refs.len() {
        Seq::empty()
    } else {
        children_raw(refs, (n - 1) as nat) + child_raw(refs[n - 1].hash_spec())
    }
}

/// The references of `refs`, slot by slot.
pub open spec fn ref_hashes(refs: Seq<NodeRef>) -> Seq<Seq<u8>> {
    Seq::new(refs.len(), |i: int| refs[i].hash_spec())
}

/// What the store keeps of a node: its own fields, and of each child the
/// reference alone.
pub enum StoredNode {
    Branch { choices: Seq<Seq<u8>>, value: Seq<u8> },
    Extension { prefix: Seq<u8>, child: Seq<u8> },
    Leaf { partial: Seq<u8>, value: Seq<u8> },
}

impl StoredNode {
    /// Whether a branch has sixteen slots, every path is made of
    /// half-bytes, and no reference is longer than a digest.
    pub open spec fn wf(self) -> bool {
        match self {
            StoredNode::Branch { choices, value } => {
                &&& choices.len() == 16
                &&& forall|i: int| 0 <= i < choices.len() ==> (#[trigger] choices[i]).len() <= 32
            },
            StoredNode::Extension { prefix, child } => is_nibbles(prefix) && child.len() <= 32,
            StoredNode::Leaf { partial, value } => is_nibbles(partial),
        }
    }
}

impl NodeRef {
    /// Whether the slot holds a well-formed reference, and no node: a
    /// digest, or an inline encoding shorter than a digest.
    pub open spec fn holds_reference(self) -> bool {
        self matches NodeRef::Hash(held) && held.wf()
    }

    /// Whether the reference that the slot holds, if it holds one, is well
    /// formed.
    pub open spec fn reference_wf(self) -> bool {
        self matches NodeRef::Hash(held) ==> held.wf()
    }

    /// Two slots that hold well-formed references with the same bytes hold
    /// the same reference: both a digest, or both the same inline encoding.
    pub proof fn lemma_reference_determined(self, other: NodeRef)
        requires
            self.holds_reference(),
            other.holds_reference(),
            self.hash_spec() == other.hash_spec(),
        ensures
            self->Hash_0@ == other->Hash_0@,
            self->Hash_0 is Hashed <==> other->Hash_0 is Hashed,
    {
        self->Hash_0.lemma_wf_same_form(other->Hash_0);
    }

    /// The bytes of the reference to the child.
    pub open spec fn hash_spec(self) -> Seq<u8>
        decreases self,
    {
        match self {
            NodeRef::Hash(h) => h@,
            NodeRef::Node(n) => content_hash(n.raw_encoding()),
        }
    }
}

impl BranchNode {
    #[verifier::type_invariant]
    spec fn valid(self) -> bool {
        self.choices@.len() == 16
    }

    /// The child slots.
    pub closed spec fn choices_spec(self) -> Seq<NodeRef> {
        self.choices@
    }

    /// The value.
    pub closed spec fn value_spec(self) -> Seq<u8> {
        self.value@
    }

    /// What the store keeps of the branch.
    pub open spec fn stored(self) -> StoredNode {
        StoredNode::Branch { choices: ref_hashes(self.choices_spec()), value: self.value_spec() }
    }

    /// Whether every child slot holds a well-formed reference, and no node.
    pub open spec fn in_hash_form(self) -> bool {
        forall|i: int|
            0 <= i < self.choices_spec().len() ==> (#[trigger] self.choices_spec()[i]).holds_reference()
    }

    /// Whether every reference held in a child slot is well formed.
    pub open spec fn references_wf(self) -> bool {
        forall|i: int|
            0 <= i < self.choices_spec().len() ==> (#[trigger] self.choices_spec()[i]).reference_wf()
    }

    /// The branch with the child slots `choices` and the value `value`,
    /// where there are sixteen slots.
    pub fn new(choices: Vec<NodeRef>, value: Vec<u8>) -> (res: Option<BranchNode>)
        ensures
            res is Some <==> choices@.len() == 16,
            res matches Some(b) ==> b.choices_spec() == choices@ && b.value_spec() == value@,
    {
        if choices.len() == 16 {
            Some(BranchNode { choices, value })
        } else {
            None
        }
    }

    /// The sixteen child slots.
    pub fn choices(&self) -> (c: &Vec<NodeRef>)
        ensures
            c@ == self.choices_spec(),
            c@.len() == 16,
    {
        proof {
            use_type_invariant(self);
        }
        &self.choices
    }

    /// The value; empty where the branch holds none.
    pub fn value(&self) -> (v: &Vec<u8>)
        ensures
            v@ == self.value_spec(),
    {
        &self.value
    }
}

/// Appends a child's reference as it stands in the hashed form of its
/// parent.
fn push_child_raw(hash: &NodeHash, buf: &mut Vec<u8>)
    ensures
        final(buf)@ == old(buf)@ + child_raw(hash@),
{
    let bytes = hash.as_bytes();
    if bytes.len() == 0 || bytes.len() == 32 {
        encode_bytes(bytes, buf);
    } else {
        extend_bytes(buf, bytes);
    }
}

impl NodeRef {
    /// The reference to the child: the one held, or the one computed from
    /// the child's hashed form.
    pub fn compute_hash(&self) -> (h: NodeHash)
        ensures
            h@ == self.hash_spec(),
            self is Node ==> h.wf(),
            self matches NodeRef::Hash(held) ==> (h is Hashed <==> held is Hashed),
            self.reference_wf() ==> h.wf() && h@.len() <= 32,
        decreases self,
    {
        let h = match self {
            NodeRef::Hash(h) => h.clone(),
            NodeRef::Node(n) => {
                let raw = n.encode_raw();
                NodeHash::from_encoded_raw(raw.as_slice())
            },
        };
        proof {
            if h.wf() {
                h.lemma_wf_form();
            }
        }
        h
    }

    /// Whether the slot holds a child.
    pub fn is_valid(&self) -> (b: bool)
        ensures
            b == (self is Node || self.hash_spec().len() != 0),
    {
        match self {
            NodeRef::Hash(h) => h.is_valid(),
            NodeRef::Node(_) => true,
        }
    }
}

impl ExtensionNode {
    /// What the store keeps of the extension.
    pub open spec fn stored(self) -> StoredNode {
        StoredNode::Extension { prefix: self.prefix@, child: self.child.hash_spec() }
    }

    /// Whether the child slot holds a well-formed reference, and no node.
    pub open spec fn in_hash_form(self) -> bool {
        self.child.holds_reference()
    }

    /// Whether the reference held in the child slot, if one is held, is
    /// well formed.
    pub open spec fn references_wf(self) -> bool {
        self.child.reference_wf()
    }
}

impl LeafNode {
    /// What the store keeps of the leaf.
    pub open spec fn stored(self) -> StoredNode {
        StoredNode::Leaf { partial: self.partial@, value: self.value@ }
    }
}

impl Node {
    /// The hashed form of the node: the encoding whose digest names it.
    pub open spec fn raw_encoding(self) -> Seq<u8>
        decreases self,
    {
        match self {
            Node::Branch(b) => list_encoding(
                children_raw(b.choices_spec(), 16) + bytes_encoding(b.value_spec()),
            ),
            Node::Extension(e) => list_encoding(
                bytes_encoding(compact(e.prefix@, false)) + child_raw(e.child.hash_spec()),
            ),
            Node::Leaf(l) => list_encoding(
                bytes_encoding(compact(l.partial@, true)) + bytes_encoding(l.value@),
            ),
        }
    }

    /// The bytes of the reference to the node.
    pub open spec fn hash_spec(self) -> Seq<u8> {
        content_hash(self.raw_encoding())
    }

    /// What the store keeps of the node.
    pub open spec fn stored(self) -> StoredNode {
        match self {
            Node::Branch(b) => b.stored(),
            Node::Extension(e) => e.stored(),
            Node::Leaf(l) => l.stored(),
        }
    }

    /// Whether every child slot holds a well-formed reference, and no node.
    pub open spec fn in_hash_form(self) -> bool {
        match self {
            Node::Branch(b) => b.in_hash_form(),
            Node::Extension(e) => e.in_hash_form(),
            Node::Leaf(l) => true,
        }
    }

    /// Whether every reference held in a child slot is well formed. A node
    /// whose slots hold nodes and references made by the library is.
    pub open spec fn references_wf(self) -> bool {
        match self {
            Node::Branch(b) => b.references_wf(),
            Node::Extension(e) => e.references_wf(),
            Node::Leaf(l) => true,
        }
    }

    /// The hashed form of the node.
    #[verifier::loop_isolation(false)]
    pub fn encode_raw(&self) -> (out: Vec<u8>)
        ensures
            out@ == self.raw_encoding(),
        decreases self,
    {
        let mut payload: Vec<u8> = Vec::new();
        match self {
            Node::Branch(b) => {
                proof {
                    use_type_invariant(&**b);
                }
                let mut i: usize = 0;
                while i < 16
                    invariant
                        i <= 16,
                        b.choices@.len() == 16,
                        payload@ == children_raw(b.choices@, i as nat),
                    decreases 16 - i,
                {
                    let hash = b.choices[i].compute_hash();
                    push_child_raw(&hash, &mut payload);
                    i += 1;
                }
                encode_bytes(b.value.as_slice(), &mut payload);
            },
            Node::Extension(e) => {
                let path = e.prefix.encode_compact(false);
                encode_bytes(path.as_slice(), &mut payload);
                let hash = e.child.compute_hash();
                push_child_raw(&hash, &mut payload);
            },
            Node::Leaf(l) => {
                let path = l.partial.encode_compact(true);
                encode_bytes(path.as_slice(), &mut payload);
                encode_bytes(l.value.as_slice(), &mut payload);
            },
        }
        let mut out: Vec<u8> = Vec::new();
        encode_list(payload.as_slice(), &mut out);
        assert(out@ =~= list_encoding(payload@));
        out
    }

    /// The reference to the node: its hashed form where that is shorter
    /// than 32 bytes, else the digest of its hashed form.
    pub fn compute_hash(&self) -> (h: NodeHash)
        ensures
            h@ == self.hash_spec(),
            h is Hashed <==> self.raw_encoding().len() >= 32,
            h.wf(),
    {
        let raw = self.encode_raw();
        NodeHash::from_encoded_raw(raw.as_slice())
    }
}

} // verus!
