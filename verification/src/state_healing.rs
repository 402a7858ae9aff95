//! The decisions of state healing. A cycle walks the state trie from its
//! root and fetches every node that the store lacks. Here is decided what
//! follows from the nodes that the peers sent, which paths wait to be
//! fetched, how they are cut into batches, and when the cycle ends; asking
//! the peers and the store is left to the caller.

use vstd::prelude::*;
use crate::account::{parse_account, AccountState};
use crate::codec::node_encoding;
use crate::error::RLPDecodeError;
use crate::nibbles::{pack, Nibbles};
use crate::node::{BranchNode, Node, NodeRef};
use crate::node_hash::{keccak256, keccak256_digest, NodeHash};
use crate::primitives::H256;

verus! {

/// Why a batch of fetched nodes cannot be taken in.
#[derive(Clone, Copy, Debug, PartialEq, Eq, Structural)]
pub enum SyncError {
    /// The key of an account leaf, made of the path to the leaf and the
    /// leaf's own path, does not have 32 bytes.
    CorruptPath,
    /// More nodes came back than paths were asked for.
    UnexpectedNodes,
    /// The value of a leaf is not the encoding of an account.
    Rlp(RLPDecodeError),
}

/// The root hash of a trie that holds nothing: the digest of the encoding
/// of the empty byte string.
pub open spec fn empty_trie_hash() -> Seq<u8> {
    keccak256(seq![0x80u8])
}

/// The code hash of an account without code: the digest of no bytes.
pub open spec fn empty_code_hash() -> Seq<u8> {
    keccak256(Seq::<u8>::empty())
}

/// A child that a fetched node names by a digest, and the path that leads
/// to it. `present` is for the store's answer: whether it holds the child.
#[derive(Debug, PartialEq, Eq)]
pub struct ChildProbe {
    pub path: Nibbles,
    pub hash: H256,
    pub present: bool,
}

/// An account with storage. `present` is for the store's answer: whether it
/// holds the root of that storage.
#[derive(Clone, Copy, Debug, PartialEq, Eq)]
pub struct StorageProbe {
    pub account_hash: H256,
    pub storage_root: H256,
    pub present: bool,
}

/// The code hash of an account with code. `present` is for the store's
/// answer: whether it holds that code.
#[derive(Clone, Copy, Debug, PartialEq, Eq)]
pub struct CodeProbe {
    pub code_hash: H256,
    pub present: bool,
}

/// A fetched node as the store is to keep it: under its digest, in its
/// stored form.
#[derive(Debug, PartialEq, Eq)]
pub struct NodeRecord {
    pub hash: H256,
    pub encoded: Vec<u8>,
}

/// What follows from the nodes that came back for a batch, before the store
/// has been asked anything.
#[derive(Debug, PartialEq, Eq)]
pub struct BatchPlan {
    /// The paths of the batch for which no node came back.
    pub pending: Vec<Nibbles>,
    pub child_probes: Vec<ChildProbe>,
    pub storage_probes: Vec<StorageProbe>,
    pub code_probes: Vec<CodeProbe>,
    pub records: Vec<NodeRecord>,
}

/// The same, as plain sequences: a child by its path and digest, an account
/// by its key and storage root, a record by its digest and bytes.
#[verifier::ext_equal]
pub struct Findings {
    pub children: Seq<(Seq<u8>, Seq<u8>)>,
    pub storage: Seq<(Seq<u8>, Seq<u8>)>,
    pub code: Seq<Seq<u8>>,
    pub records: Seq<(Seq<u8>, Seq<u8>)>,
}

impl Findings {
    /// Nothing found.
    pub open spec fn none() -> Findings {
        Findings {
            children: Seq::empty(),
            storage: Seq::empty(),
            code: Seq::empty(),
            records: Seq::empty(),
        }
    }

    /// These findings, followed by `other`.
    pub open spec fn join(self, other: Findings) -> Findings {
        Findings {
            children: self.children + other.children,
            storage: self.storage + other.storage,
            code: self.code + other.code,
            records: self.records + other.records,
        }
    }
}

/// The views of `paths`, one by one.
pub open spec fn path_views(paths: Seq<Nibbles>) -> Seq<Seq<u8>> {
    Seq::new(paths.len(), |i: int| paths[i]@)
}

/// Each probe by the path and the digest of the child.
pub open spec fn child_keys(probes: Seq<ChildProbe>) -> Seq<(Seq<u8>, Seq<u8>)> {
    Seq::new(probes.len(), |i: int| (probes[i].path@, probes[i].hash@))
}

/// Each probe by the key and the storage root of the account.
pub open spec fn storage_keys(probes: Seq<StorageProbe>) -> Seq<(Seq<u8>, Seq<u8>)> {
    Seq::new(probes.len(), |i: int| (probes[i].account_hash@, probes[i].storage_root@))
}

/// Each probe by its code hash.
pub open spec fn code_keys(probes: Seq<CodeProbe>) -> Seq<Seq<u8>> {
    Seq::new(probes.len(), |i: int| probes[i].code_hash@)
}

/// Each record by its digest and its bytes.
pub open spec fn record_keys(records: Seq<NodeRecord>) -> Seq<(Seq<u8>, Seq<u8>)> {
    Seq::new(records.len(), |i: int| (records[i].hash@, records[i].encoded@))
}

impl BatchPlan {
    /// What the plan asks and records, as plain sequences.
    pub open spec fn findings(self) -> Findings {
        Findings {
            children: child_keys(self.child_probes@),
            storage: storage_keys(self.storage_probes@),
            code: code_keys(self.code_probes@),
            records: record_keys(self.records@),
        }
    }

    /// Whether no probe holds an answer yet.
    pub open spec fn unanswered(self) -> bool {
        &&& forall|i: int|
            0 <= i < self.child_probes@.len() ==> !(#[trigger] self.child_probes@[i]).present
        &&& forall|i: int|
            0 <= i < self.storage_probes@.len() ==> !(#[trigger] self.storage_probes@[i]).present
        &&& forall|i: int|
            0 <= i < self.code_probes@.len() ==> !(#[trigger] self.code_probes@[i]).present
    }
}

/// Whether the store is to be asked for the child in a slot: only for a
/// child named by a digest. An empty slot names none, an inline child
/// came with its parent.
pub open spec fn probed(slot: NodeRef) -> bool {
    slot matches NodeRef::Hash(hash) && hash is Hashed
}

/// The children to ask for among the first `n` slots of a branch at `path`.
pub open spec fn branch_probes(path: Seq<u8>, slots: Seq<NodeRef>, n: nat) -> Seq<
    (Seq<u8>, Seq<u8>),
>
    decreases n,
{
    if n == 0 {
        Seq::empty()
    } else {
        let before = branch_probes(path, slots, (n - 1) as nat);
        if n <= slots.len() && probed(slots[n - 1]) {
            before.push((path.push((n - 1) as u8), slots[n - 1].hash_spec()))
        } else {
            before
        }
    }
}

/// The children of the node at `path` to ask the store for: of a branch,
/// each child named by a digest, one half-byte further down; of an
/// extension, its child, the prefix further down; of a leaf, none.
pub open spec fn child_probes(path: Seq<u8>, node: Node) -> Seq<(Seq<u8>, Seq<u8>)> {
    match node {
        Node::Branch(b) => branch_probes(path, b.choices_spec(), 16),
        Node::Extension(e) => if probed(e.child) {
            seq![(path + e.prefix@, e.child.hash_spec())]
        } else {
            Seq::empty()
        },
        Node::Leaf(l) => Seq::empty(),
    }
}

/// What a leaf at `path` asks of the store: the value must be an account,
/// and the key spelled by the whole path must have 32 bytes. Then storage
/// is asked for unless the storage root is that of the empty trie, and code
/// unless the code hash is that of no code.
pub open spec fn leaf_probes(path: Seq<u8>, node: Node) -> Result<
    (Seq<(Seq<u8>, Seq<u8>)>, Seq<Seq<u8>>),
    SyncError,
> {
    match node {
        Node::Leaf(l) => match parse_account(l.value@) {
            Err(e) => Err(SyncError::Rlp(e)),
            Ok(account) => {
                let key = pack(path + l.partial@);
                if key.len() != 32 {
                    Err(SyncError::CorruptPath)
                } else {
                    Ok(
                        (
                            if account.storage_root != empty_trie_hash() {
                                seq![(key, account.storage_root)]
                            } else {
                                Seq::empty()
                            },
                            if account.code_hash != empty_code_hash() {
                                seq![account.code_hash]
                            } else {
                                Seq::empty()
                            },
                        ),
                    )
                }
            },
        },
        _ => Ok((Seq::empty(), Seq::empty())),
    }
}

/// The record to write for a node: one, under its digest, where the node is
/// named by a digest; none for a node short enough to stand inline in its
/// parent.
pub open spec fn node_record(node: Node) -> Seq<(Seq<u8>, Seq<u8>)> {
    if node.raw_encoding().len() >= 32 {
        seq![(node.hash_spec(), node_encoding(node.stored()))]
    } else {
        Seq::empty()
    }
}

/// All that follows from one fetched node and the path it was asked by.
pub open spec fn node_findings(path: Seq<u8>, node: Node) -> Result<Findings, SyncError> {
    match leaf_probes(path, node) {
        Err(e) => Err(e),
        Ok((storage, code)) => Ok(
            Findings { children: child_probes(path, node), storage, code, records: node_record(node) },
        ),
    }
}

/// All that follows from the first `n` nodes, each taken with the path at
/// its own position; the first node that is refused decides the error.
pub open spec fn batch_findings(paths: Seq<Seq<u8>>, nodes: Seq<Node>, n: nat) -> Result<
    Findings,
    SyncError,
>
    decreases n,
{
    if n == 0 {
        Ok(Findings::none())
    } else {
        match batch_findings(paths, nodes, (n - 1) as nat) {
            Err(e) => Err(e),
            Ok(before) => match node_findings(paths[n - 1], nodes[n - 1]) {
                Err(e) => Err(e),
                Ok(found) => Ok(before.join(found)),
            },
        }
    }
}

/// Appends the probes for the children of a branch at `path`.
fn push_branch_probes(path: &Nibbles, branch: &BranchNode, probes: &mut Vec<ChildProbe>)
    ensures
        child_keys(final(probes)@) == child_keys(old(probes)@) + branch_probes(
            path@,
            branch.choices_spec(),
            16,
        ),
        forall|i: int|
            old(probes)@.len() <= i < final(probes)@.len() ==> !(#[trigger] final(probes)@[i]).present,
        forall|i: int| 0 <= i < old(probes)@.len() ==> final(probes)@[i] == old(probes)@[i],
        final(probes)@.len() >= old(probes)@.len(),
{
    let slots = branch.choices();
    let mut j: usize = 0;
    assert(child_keys(probes@) + branch_probes(path@, slots@, 0) =~= child_keys(probes@));
    while j < 16
        invariant
            j <= 16,
            slots@.len() == 16,
            probes@.len() >= old(probes)@.len(),
            child_keys(probes@) == child_keys(old(probes)@) + branch_probes(
                path@,
                slots@,
                j as nat,
            ),
            forall|i: int| old(probes)@.len() <= i < probes@.len() ==> !(#[trigger] probes@[i]).present,
            forall|i: int| 0 <= i < old(probes)@.len() ==> probes@[i] == old(probes)@[i],
        decreases 16 - j,
    {
        let ghost before = probes@;
        match &slots[j] {
            NodeRef::Hash(NodeHash::Hashed(hash)) => {
                let child = path.append_new(j as u8).unwrap();
                probes.push(ChildProbe { path: child, hash: *hash, present: false });
                assert(child_keys(probes@) =~= child_keys(before).push(
                    (path@.push(j as u8), hash@),
                ));
            },
            _ => {},
        }
        j += 1;
        assert(child_keys(probes@) =~= child_keys(old(probes)@) + branch_probes(
            path@,
            slots@,
            j as nat,
        ));
    }
}

/// Appends the probes for the children of `node` at `path`.
fn push_child_probes(path: &Nibbles, node: &Node, probes: &mut Vec<ChildProbe>)
    ensures
        child_keys(final(probes)@) == child_keys(old(probes)@) + child_probes(path@, *node),
        forall|i: int|
            old(probes)@.len() <= i < final(probes)@.len() ==> !(#[trigger] final(probes)@[i]).present,
        forall|i: int| 0 <= i < old(probes)@.len() ==> final(probes)@[i] == old(probes)@[i],
        final(probes)@.len() >= old(probes)@.len(),
{
    match node {
        Node::Branch(b) => {
            push_branch_probes(path, b, probes);
        },
        Node::Extension(e) => {
            match &e.child {
                NodeRef::Hash(NodeHash::Hashed(hash)) => {
                    let child = path.concat(&e.prefix);
                    probes.push(ChildProbe { path: child, hash: *hash, present: false });
                    assert(child_keys(probes@) =~= child_keys(old(probes)@) + child_probes(
                        path@,
                        *node,
                    ));
                },
                _ => {
                    assert(child_keys(probes@) =~= child_keys(old(probes)@) + child_probes(
                        path@,
                        *node,
                    ));
                },
            }
        },
        Node::Leaf(_) => {
            assert(child_keys(probes@) =~= child_keys(old(probes)@) + child_probes(path@, *node));
        },
    }
}

/// Takes in one fetched node: adds to `plan` what follows from it.
fn inspect_node(
    path: &Nibbles,
    node: &Node,
    empty_trie: &H256,
    empty_code: &H256,
    plan: &mut BatchPlan,
) -> (res: Result<(), SyncError>)
    requires
        old(plan).unanswered(),
        empty_trie@ == empty_trie_hash(),
        empty_code@ == empty_code_hash(),
    ensures
        final(plan).pending == old(plan).pending,
        final(plan).unanswered(),
        match res {
            Ok(_) => node_findings(path@, *node) is Ok && final(plan).findings() == old(
                plan,
            ).findings().join(node_findings(path@, *node)->Ok_0),
            Err(e) => node_findings(path@, *node) == Err::<Findings, SyncError>(e),
        },
{
    let ghost before = plan.findings();
    match node {
        Node::Leaf(leaf) => {
            let account = match AccountState::decode(leaf.value.as_slice()) {
                Ok(account) => account,
                Err(e) => {
                    return Err(SyncError::Rlp(e));
                },
            };
            let key = path.concat(&leaf.partial).to_bytes();
            if key.len() != 32 {
                return Err(SyncError::CorruptPath);
            }
            let account_hash = H256::from_slice(key.as_slice());
            if !account.storage_root.same(empty_trie) {
                plan.storage_probes.push(
                    StorageProbe { account_hash, storage_root: account.storage_root, present: false },
                );
            }
            if !account.code_hash.same(empty_code) {
                plan.code_probes.push(CodeProbe { code_hash: account.code_hash, present: false });
            }
        },
        _ => {},
    }
    proof {
        let (storage, code) = leaf_probes(path@, *node)->Ok_0;
        assert(storage_keys(plan.storage_probes@) =~= before.storage + storage);
        assert(code_keys(plan.code_probes@) =~= before.code + code);
    }
    push_child_probes(path, node, &mut plan.child_probes);
    match node.compute_hash() {
        NodeHash::Hashed(hash) => {
            let encoded = node.encode_to_vec();
            plan.records.push(NodeRecord { hash, encoded });
        },
        NodeHash::Inline(_) => {},
    }
    proof {
        let found = node_findings(path@, *node)->Ok_0;
        assert(record_keys(plan.records@) =~= before.records + found.records);
        assert(plan.findings() =~= before.join(found));
    }
    Ok(())
}

/// Once a node is refused, the batch is refused for it, whatever follows.
pub proof fn lemma_batch_findings_error(paths: Seq<Seq<u8>>, nodes: Seq<Node>, n: nat, m: nat)
    requires
        n <= m,
        batch_findings(paths, nodes, n) is Err,
    ensures
        batch_findings(paths, nodes, m) == batch_findings(paths, nodes, n),
    decreases m,
{
    if n < m {
        lemma_batch_findings_error(paths, nodes, n, (m - 1) as nat);
    }
}

/// What came of one batch: the paths that go back to the queue, and whether
/// the pivot was found stale.
#[derive(Debug, PartialEq, Eq)]
pub struct BatchResult {
    pub paths: Vec<Nibbles>,
    pub stale: bool,
}

/// What the driver of a batch does next.
#[derive(Debug, PartialEq, Eq)]
pub enum BatchStep {
    /// The peers gave no answer: the pivot is stale. The paths of the batch
    /// go back to the queue as they are, and nothing is written.
    Stale(BatchResult),
    /// Nodes came back: the store is to answer the probes of the plan.
    Lookup(BatchPlan),
}

/// Decides what follows from the answer of the peers to the request for the
/// nodes at the paths of `batch`.
///
/// No answer means a stale pivot. Else the nodes are taken one by one, each
/// with the path at its own position from the front of the batch; more
/// nodes than paths are refused. Every node adds the probes for its
/// children named by a digest, a leaf those for its account's storage and
/// code, and every node named by a digest its record. A leaf whose value
/// is no account, or whose key does not have 32 bytes, refuses the whole
/// batch: no plan is made, so nothing of the batch is written.
#[verifier::loop_isolation(false)]
pub fn heal_state_batch(batch: Vec<Nibbles>, response: Option<Vec<Node>>) -> (res: Result<
    BatchStep,
    SyncError,
>)
    ensures
        match response {
            None => res == Ok::<BatchStep, SyncError>(
                BatchStep::Stale(BatchResult { paths: batch, stale: true }),
            ),
            Some(nodes) => if nodes@.len() > batch@.len() {
                res == Err::<BatchStep, SyncError>(SyncError::UnexpectedNodes)
            } else {
                match batch_findings(path_views(batch@), nodes@, nodes@.len()) {
                    Err(e) => res == Err::<BatchStep, SyncError>(e),
                    Ok(found) => {
                        &&& res matches Ok(BatchStep::Lookup(plan))
                        &&& plan.findings() == found
                        &&& plan.unanswered()
                        &&& plan.pending@ == batch@.subrange(
                            nodes@.len() as int,
                            batch@.len() as int,
                        )
                    },
                }
            },
        },
{
    let nodes = match response {
        None => {
            return Ok(BatchStep::Stale(BatchResult { paths: batch, stale: true }));
        },
        Some(nodes) => nodes,
    };
    if nodes.len() > batch.len() {
        return Err(SyncError::UnexpectedNodes);
    }
    let ghost paths = path_views(batch@);
    let mut asked = batch;
    let pending = asked.split_off(nodes.len());
    let marker = [0x80u8];
    assert(marker@ =~= seq![0x80u8]);
    let empty_trie = keccak256_digest(marker.as_slice());
    let nothing: Vec<u8> = Vec::new();
    assert(nothing@ =~= Seq::<u8>::empty());
    let empty_code = keccak256_digest(nothing.as_slice());
    let mut plan = BatchPlan {
        pending,
        child_probes: Vec::new(),
        storage_probes: Vec::new(),
        code_probes: Vec::new(),
        records: Vec::new(),
    };
    assert(plan.findings() =~= Findings::none());
    let mut i: usize = 0;
    while i < nodes.len()
        invariant
            i <= nodes@.len(),
            asked@.len() == nodes@.len(),
            forall|k: int| 0 <= k < asked@.len() ==> (#[trigger] asked@[k])@ == paths[k],
            empty_trie@ == empty_trie_hash(),
            empty_code@ == empty_code_hash(),
            plan.unanswered(),
            plan.pending == pending,
            batch_findings(paths, nodes@, i as nat) == Ok::<Findings, SyncError>(plan.findings()),
        decreases nodes@.len() - i,
    {
        match inspect_node(&asked[i], &nodes[i], &empty_trie, &empty_code, &mut plan) {
            Err(e) => {
                proof {
                    assert(batch_findings(paths, nodes@, (i + 1) as nat) == Err::<
                        Findings,
                        SyncError,
                    >(e));
                    lemma_batch_findings_error(paths, nodes@, (i + 1) as nat, nodes@.len());
                }
                return Err(e);
            },
            Ok(_) => {},
        }
        i += 1;
    }
    Ok(BatchStep::Lookup(plan))
}

/// An account whose storage is to be healed, and the paths to begin at.
#[derive(Debug, PartialEq, Eq)]
pub struct StorageHeal {
    pub account_hash: H256,
    pub paths: Vec<Nibbles>,
}

/// What a batch comes to once the store has answered.
#[derive(Debug, PartialEq, Eq)]
pub struct BatchOutcome {
    /// What goes back to the queue: the paths left unanswered, then those
    /// of the children that the store lacks. The pivot is not stale.
    pub result: BatchResult,
    /// The accounts whose storage the store lacks, each to be healed from
    /// the root of its storage; `None` where there is no such account.
    pub storage_heal: Option<Vec<StorageHeal>>,
    /// The code hashes to send to the bytecode fetcher: those whose code
    /// the store lacks; `None` where there is none. An empty batch is never
    /// sent from here: it would tell the fetcher to stop.
    pub code_hashes: Option<Vec<H256>>,
    /// The nodes to write.
    pub records: Vec<NodeRecord>,
}

/// The paths of the children that the store said it lacks.
pub open spec fn missing_children(probes: Seq<ChildProbe>) -> Seq<Seq<u8>>
    decreases probes.len(),
{
    if probes.len() == 0 {
        Seq::empty()
    } else {
        let before = missing_children(probes.drop_last());
        if probes.last().present {
            before
        } else {
            before.push(probes.last().path@)
        }
    }
}

/// The keys of the accounts whose storage the store said it lacks.
pub open spec fn missing_storage(probes: Seq<StorageProbe>) -> Seq<Seq<u8>>
    decreases probes.len(),
{
    if probes.len() == 0 {
        Seq::empty()
    } else {
        let before = missing_storage(probes.drop_last());
        if probes.last().present {
            before
        } else {
            before.push(probes.last().account_hash@)
        }
    }
}

/// The code hashes whose code the store said it lacks.
pub open spec fn missing_code(probes: Seq<CodeProbe>) -> Seq<Seq<u8>>
    decreases probes.len(),
{
    if probes.len() == 0 {
        Seq::empty()
    } else {
        let before = missing_code(probes.drop_last());
        if probes.last().present {
            before
        } else {
            before.push(probes.last().code_hash@)
        }
    }
}

/// Whether a message to the bytecode fetcher tells it that no more work
/// comes: the empty batch does.
pub open spec fn is_shutdown(message: Seq<H256>) -> bool {
    message.len() == 0
}

/// The message that ends the work of the bytecode fetcher. It is sent once,
/// when a cycle is over.
pub fn shutdown_signal() -> (message: Vec<H256>)
    ensures
        is_shutdown(message@),
{
    Vec::new()
}

/// The views of `hashes`, one by one.
pub open spec fn hash_views(hashes: Seq<H256>) -> Seq<Seq<u8>> {
    Seq::new(hashes.len(), |i: int| hashes[i]@)
}

/// The accounts of `heals`, one by one.
pub open spec fn heal_accounts(heals: Seq<StorageHeal>) -> Seq<Seq<u8>> {
    Seq::new(heals.len(), |i: int| heals[i].account_hash@)
}

impl BatchPlan {
    /// Draws the outcome of the batch from the answers that the store gave
    /// to the probes. A probe left without an answer counts as lacking.
    pub fn conclude(self) -> (out: BatchOutcome)
        ensures
            !out.result.stale,
            path_views(out.result.paths@) == path_views(self.pending@) + missing_children(
                self.child_probes@,
            ),
            match out.storage_heal {
                Some(heals) => {
                    &&& heals@.len() > 0
                    &&& heal_accounts(heals@) == missing_storage(self.storage_probes@)
                    &&& forall|i: int|
                        0 <= i < heals@.len() ==> path_views((#[trigger] heals@[i]).paths@)
                            == seq![Seq::<u8>::empty()]
                },
                None => missing_storage(self.storage_probes@).len() == 0,
            },
            match out.code_hashes {
                Some(hashes) => !is_shutdown(hashes@) && hash_views(hashes@) == missing_code(
                    self.code_probes@,
                ),
                None => missing_code(self.code_probes@).len() == 0,
            },
            out.records == self.records,
    {
        let mut paths = self.pending;
        let ghost pending = path_views(paths@);
        let mut i: usize = 0;
        assert(self.child_probes@.subrange(0, 0) =~= Seq::<ChildProbe>::empty());
        while i < self.child_probes.len()
            invariant
                i <= self.child_probes@.len(),
                path_views(paths@) == pending + missing_children(
                    self.child_probes@.subrange(0, i as int),
                ),
            decreases self.child_probes@.len() - i,
        {
            let ghost before = path_views(paths@);
            assert(self.child_probes@.subrange(0, i + 1).drop_last() =~= self.child_probes@.subrange(
                0,
                i as int,
            ));
            if !self.child_probes[i].present {
                paths.push(self.child_probes[i].path.clone());
                assert(path_views(paths@) =~= before.push(self.child_probes@[i as int].path@));
            }
            i += 1;
            assert(path_views(paths@) =~= pending + missing_children(
                self.child_probes@.subrange(0, i as int),
            ));
        }
        assert(self.child_probes@.subrange(0, i as int) =~= self.child_probes@);
        let mut storage_heal: Vec<StorageHeal> = Vec::new();
        let mut j: usize = 0;
        assert(self.storage_probes@.subrange(0, 0) =~= Seq::<StorageProbe>::empty());
        assert(heal_accounts(storage_heal@) =~= Seq::<Seq<u8>>::empty());
        while j < self.storage_probes.len()
            invariant
                j <= self.storage_probes@.len(),
                heal_accounts(storage_heal@) == missing_storage(
                    self.storage_probes@.subrange(0, j as int),
                ),
                forall|i: int|
                    0 <= i < storage_heal@.len() ==> path_views(
                        (#[trigger] storage_heal@[i]).paths@,
                    ) == seq![Seq::<u8>::empty()],
            decreases self.storage_probes@.len() - j,
        {
            let ghost before = heal_accounts(storage_heal@);
            assert(self.storage_probes@.subrange(0, j + 1).drop_last()
                =~= self.storage_probes@.subrange(0, j as int));
            if !self.storage_probes[j].present {
                let mut seed: Vec<Nibbles> = Vec::new();
                seed.push(Nibbles::new());
                assert(path_views(seed@) =~= seq![Seq::<u8>::empty()]);
                storage_heal.push(
                    StorageHeal { account_hash: self.storage_probes[j].account_hash, paths: seed },
                );
                assert(heal_accounts(storage_heal@) =~= before.push(
                    self.storage_probes@[j as int].account_hash@,
                ));
            }
            j += 1;
        }
        assert(self.storage_probes@.subrange(0, j as int) =~= self.storage_probes@);
        let mut code_hashes: Vec<H256> = Vec::new();
        let mut k: usize = 0;
        assert(self.code_probes@.subrange(0, 0) =~= Seq::<CodeProbe>::empty());
        assert(hash_views(code_hashes@) =~= Seq::<Seq<u8>>::empty());
        while k < self.code_probes.len()
            invariant
                k <= self.code_probes@.len(),
                hash_views(code_hashes@) == missing_code(self.code_probes@.subrange(0, k as int)),
            decreases self.code_probes@.len() - k,
        {
            let ghost before = hash_views(code_hashes@);
            assert(self.code_probes@.subrange(0, k + 1).drop_last() =~= self.code_probes@.subrange(
                0,
                k as int,
            ));
            if !self.code_probes[k].present {
                code_hashes.push(self.code_probes[k].code_hash);
                assert(hash_views(code_hashes@) =~= before.push(
                    self.code_probes@[k as int].code_hash@,
                ));
            }
            k += 1;
        }
        assert(self.code_probes@.subrange(0, k as int) =~= self.code_probes@);
        let storage_heal = if storage_heal.len() == 0 {
            None
        } else {
            Some(storage_heal)
        };
        let code_hashes = if code_hashes.len() == 0 {
            None
        } else {
            Some(code_hashes)
        };
        BatchOutcome {
            result: BatchResult { paths, stale: false },
            storage_heal,
            code_hashes,
            records: self.records,
        }
    }
}

/// How many batches run at once, unless a cycle is told otherwise.
pub const MAX_PARALLEL_FETCHES: usize = 10;

/// How many paths one request asks for, unless a cycle is told otherwise.
pub const NODE_BATCH_SIZE: usize = 900;

/// How many messages the channel to the bytecode fetcher holds.
pub const MAX_CHANNEL_MESSAGES: usize = 500;

/// How many seconds pass between two reports of progress.
pub const SHOW_PROGRESS_INTERVAL_SECS: u64 = 30;

/// The limits of a round: how many batches, and how many paths in each.
/// Both are at least one.
#[derive(Clone, Copy, Debug, PartialEq, Eq)]
pub struct HealConfig {
    max_parallel_fetches: usize,
    node_batch_size: usize,
}

impl HealConfig {
    #[verifier::type_invariant]
    spec fn valid(self) -> bool {
        self.max_parallel_fetches >= 1 && self.node_batch_size >= 1
    }

    /// The greatest number of batches in a round.
    pub closed spec fn fetches(self) -> nat {
        self.max_parallel_fetches as nat
    }

    /// The greatest number of paths in a batch.
    pub closed spec fn batch_size(self) -> nat {
        self.node_batch_size as nat
    }

    /// The limits given, where neither is zero.
    pub fn new(max_parallel_fetches: usize, node_batch_size: usize) -> (res: Option<HealConfig>)
        ensures
            res is Some <==> max_parallel_fetches >= 1 && node_batch_size >= 1,
            res matches Some(config) ==> config.fetches() == max_parallel_fetches
                && config.batch_size() == node_batch_size,
    {
        if max_parallel_fetches >= 1 && node_batch_size >= 1 {
            Some(HealConfig { max_parallel_fetches, node_batch_size })
        } else {
            None
        }
    }

    /// The usual limits.
    pub fn standard() -> (config: HealConfig)
        ensures
            config.fetches() == MAX_PARALLEL_FETCHES,
            config.batch_size() == NODE_BATCH_SIZE,
    {
        HealConfig { max_parallel_fetches: MAX_PARALLEL_FETCHES, node_batch_size: NODE_BATCH_SIZE }
    }

    /// The greatest number of batches in a round.
    pub fn max_parallel_fetches(&self) -> (n: usize)
        ensures
            n == self.fetches(),
            n >= 1,
    {
        proof {
            use_type_invariant(self);
        }
        self.max_parallel_fetches
    }

    /// The greatest number of paths in a batch.
    pub fn node_batch_size(&self) -> (n: usize)
        ensures
            n == self.batch_size(),
            n >= 1,
    {
        proof {
            use_type_invariant(self);
        }
        self.node_batch_size
    }
}

/// The batches of a round: from the front of `paths`, at most `max`
/// batches of `size` paths each, the last one shorter where the paths run
/// out.
pub open spec fn round_batches<T>(paths: Seq<T>, size: nat, max: nat) -> Seq<Seq<T>>
    decreases max,
{
    if max == 0 || paths.len() == 0 {
        Seq::empty()
    } else {
        let n = if paths.len() < size {
            paths.len()
        } else {
            size
        };
        seq![paths.subrange(0, n as int)] + round_batches(
            paths.subrange(n as int, paths.len() as int),
            size,
            (max - 1) as nat,
        )
    }
}

/// The paths that a round leaves in the queue.
pub open spec fn round_rest<T>(paths: Seq<T>, size: nat, max: nat) -> Seq<T>
    decreases max,
{
    if max == 0 || paths.len() == 0 {
        paths
    } else {
        let n = if paths.len() < size {
            paths.len()
        } else {
            size
        };
        round_rest(paths.subrange(n as int, paths.len() as int), size, (max - 1) as nat)
    }
}

/// The batches laid end to end.
pub open spec fn joined<T>(batches: Seq<Seq<T>>) -> Seq<T>
    decreases batches.len(),
{
    if batches.len() == 0 {
        Seq::empty()
    } else {
        batches.first() + joined(batches.drop_first())
    }
}

/// A round loses no path and takes none twice: its batches, laid end to
/// end and followed by what it leaves, are the queue it began with.
pub proof fn lemma_round_keeps_paths<T>(paths: Seq<T>, size: nat, max: nat)
    ensures
        joined(round_batches(paths, size, max)) + round_rest(paths, size, max) == paths,
        forall|i: int|
            0 <= i < round_batches(paths, size, max).len() ==> (#[trigger] round_batches(
                paths,
                size,
                max,
            )[i]).len() <= size,
        round_batches(paths, size, max).len() <= max,
        size >= 1 && max >= 1 && paths.len() > 0 ==> round_batches(paths, size, max).len() >= 1
            && round_batches(paths, size, max)[0].len() >= 1,
    decreases max,
{
    if max == 0 || paths.len() == 0 {
        assert(joined(round_batches(paths, size, max)) + round_rest(paths, size, max) =~= paths);
    } else {
        let n = if paths.len() < size {
            paths.len()
        } else {
            size
        };
        let head = paths.subrange(0, n as int);
        let tail = paths.subrange(n as int, paths.len() as int);
        lemma_round_keeps_paths(tail, size, (max - 1) as nat);
        let batches = round_batches(paths, size, max);
        assert(batches.first() == head);
        assert(batches.drop_first() =~= round_batches(tail, size, (max - 1) as nat));
        assert(joined(batches) + round_rest(paths, size, max) =~= head + (joined(
            round_batches(tail, size, (max - 1) as nat),
        ) + round_rest(tail, size, (max - 1) as nat)));
        assert(head + tail =~= paths);
        assert forall|i: int| 0 <= i < batches.len() implies (#[trigger] batches[i]).len()
            <= size by {
            if i > 0 {
                assert(batches[i] == round_batches(tail, size, (max - 1) as nat)[i - 1]);
            }
        }
    }
}

/// The contents of `batches`, one by one.
pub open spec fn batch_views(batches: Seq<Vec<Nibbles>>) -> Seq<Seq<Nibbles>> {
    Seq::new(batches.len(), |i: int| batches[i]@)
}

/// The paths that the results give back, in the order of the results.
pub open spec fn returned_paths(results: Seq<BatchResult>) -> Seq<Nibbles>
    decreases results.len(),
{
    if results.len() == 0 {
        Seq::empty()
    } else {
        results.first().paths@ + returned_paths(results.drop_first())
    }
}

/// Whether one of the results found the pivot stale.
pub open spec fn any_stale(results: Seq<BatchResult>) -> bool {
    exists|i: int| 0 <= i < results.len() && (#[trigger] results[i]).stale
}

/// What is to become of the queue that was saved for the next cycle.
#[derive(Debug, PartialEq, Eq)]
pub enum Checkpoint {
    /// Save these paths.
    Persist(Vec<Nibbles>),
    /// Nothing is pending: remove what an earlier cycle saved.
    Clear,
}

/// What the driver of a cycle does next.
#[derive(Debug, PartialEq, Eq)]
pub enum HealAction {
    /// Run these batches, all of them, and report every result.
    Fetch(Vec<Vec<Nibbles>>),
    /// The cycle is over: settle the saved queue, tell the bytecode fetcher
    /// that no more work comes, and wait for it. `healed` tells whether
    /// nothing is left to fetch.
    Finish { checkpoint: Checkpoint, healed: bool },
}

/// The queue of paths still to be fetched in a cycle.
#[derive(Debug)]
pub struct HealState {
    queue: Vec<Nibbles>,
    config: HealConfig,
}

/// Takes the batches of a round from the front of `queue`.
fn take_round(queue: &mut Vec<Nibbles>, size: usize, max: usize) -> (batches: Vec<Vec<Nibbles>>)
    ensures
        batch_views(batches@) == round_batches(old(queue)@, size as nat, max as nat),
        final(queue)@ == round_rest(old(queue)@, size as nat, max as nat),
{
    let mut batches: Vec<Vec<Nibbles>> = Vec::new();
    let mut count: usize = 0;
    assert(batch_views(batches@) + round_batches(queue@, size as nat, max as nat)
        =~= round_batches(old(queue)@, size as nat, max as nat));
    while count < max && queue.len() > 0
        invariant
            count <= max,
            batch_views(batches@) + round_batches(queue@, size as nat, (max - count) as nat)
                == round_batches(old(queue)@, size as nat, max as nat),
            round_rest(queue@, size as nat, (max - count) as nat) == round_rest(
                old(queue)@,
                size as nat,
                max as nat,
            ),
        decreases max - count,
    {
        let ghost before = batch_views(batches@);
        let ghost current = queue@;
        let n = if queue.len() < size {
            queue.len()
        } else {
            size
        };
        let mut batch = queue.split_off(n);
        core::mem::swap(queue, &mut batch);
        batches.push(batch);
        count += 1;
        proof {
            let later = round_batches(queue@, size as nat, (max - count) as nat);
            assert(batch_views(batches@) =~= before.push(current.subrange(0, n as int)));
            assert(queue@ == current.subrange(n as int, current.len() as int));
            assert(before.push(current.subrange(0, n as int)) + later =~= before + (
            seq![current.subrange(0, n as int)] + later));
        }
    }
    assert(batch_views(batches@) + Seq::<Seq<Nibbles>>::empty() =~= batch_views(batches@));
    batches
}

/// Puts the paths that the results give back at the end of `queue`.
fn absorb_results(queue: &mut Vec<Nibbles>, results: Vec<BatchResult>) -> (stale: bool)
    ensures
        final(queue)@ == old(queue)@ + returned_paths(results@),
        stale == any_stale(results@),
{
    let mut left = results;
    let mut stale = false;
    let ghost mut taken: int = 0;
    assert(queue@ + returned_paths(left@) =~= old(queue)@ + returned_paths(results@));
    while left.len() > 0
        invariant
            0 <= taken <= results@.len(),
            left@ == results@.subrange(taken, results@.len() as int),
            queue@ + returned_paths(left@) == old(queue)@ + returned_paths(results@),
            stale == exists|i: int| 0 <= i < taken && (#[trigger] results@[i]).stale,
        decreases left@.len(),
    {
        let ghost before = queue@;
        let ghost rest = left@.drop_first();
        let result = left.remove(0);
        assert(left@ =~= rest);
        assert(result == results@[taken]);
        if result.stale {
            stale = true;
        }
        let mut paths = result.paths;
        queue.append(&mut paths);
        proof {
            assert(before + result.paths@ + returned_paths(rest) =~= before + (result.paths@
                + returned_paths(rest)));
            taken = taken + 1;
            assert(left@ =~= results@.subrange(taken, results@.len() as int));
        }
    }
    assert(queue@ + returned_paths(left@) =~= queue@);
    stale
}

impl HealState {
    /// The paths that wait in the queue.
    pub closed spec fn queue(self) -> Seq<Nibbles> {
        self.queue@
    }

    /// The limits of a round.
    pub closed spec fn config(self) -> HealConfig {
        self.config
    }

    /// Begins a cycle: the queue holds the paths saved by an earlier cycle,
    /// if any, and behind them the empty path, which leads to the root, so
    /// that the root is looked at in every cycle.
    pub fn new(persisted: Option<Vec<Nibbles>>, config: HealConfig) -> (state: HealState)
        ensures
            state.config() == config,
            state.queue().len() >= 1,
            state.queue().last()@ == Seq::<u8>::empty(),
            state.queue().drop_last() == match persisted {
                Some(paths) => paths@,
                None => Seq::<Nibbles>::empty(),
            },
    {
        let mut queue = match persisted {
            Some(paths) => paths,
            None => Vec::new(),
        };
        let ghost saved = queue@;
        queue.push(Nibbles::new());
        assert(queue@.drop_last() =~= saved);
        HealState { queue, config }
    }

    /// The number of paths that wait in the queue.
    pub fn pending(&self) -> (n: usize)
        ensures
            n == self.queue().len(),
    {
        self.queue.len()
    }

    /// Takes the batches of the next round from the front of the queue:
    /// slices that do not overlap, which together with what stays in the
    /// queue are the queue as it was.
    pub fn next_round(&mut self) -> (batches: Vec<Vec<Nibbles>>)
        ensures
            final(self).config() == old(self).config(),
            batch_views(batches@) == round_batches(
                old(self).queue(),
                old(self).config().batch_size(),
                old(self).config().fetches(),
            ),
            final(self).queue() == round_rest(
                old(self).queue(),
                old(self).config().batch_size(),
                old(self).config().fetches(),
            ),
            old(self).queue().len() > 0 ==> batches@.len() >= 1 && batches@[0]@.len() >= 1,
    {
        let size = self.config.node_batch_size();
        let max = self.config.max_parallel_fetches();
        proof {
            lemma_round_keeps_paths(self.queue@, size as nat, max as nat);
        }
        let batches = take_round(&mut self.queue, size, max);
        assert(batches@.len() >= 1 ==> batch_views(batches@)[0] == batches@[0]@);
        batches
    }

    /// Takes in the results of a round and decides how the cycle goes on.
    ///
    /// The paths that the batches give back join the queue, those of a
    /// batch that found the pivot stale as well as those of the others. If
    /// a batch found the pivot stale, or the queue is empty, the cycle is
    /// over: a queue that is not empty is handed out to be saved, an empty
    /// one asks for the saved queue to be removed. Else the next round is
    /// taken from the queue.
    pub fn round_done(&mut self, results: Vec<BatchResult>) -> (action: HealAction)
        ensures
            final(self).config() == old(self).config(),
            ({
                let merged = old(self).queue() + returned_paths(results@);
                let size = old(self).config().batch_size();
                let max = old(self).config().fetches();
                if merged.len() == 0 {
                    &&& action == (HealAction::Finish { checkpoint: Checkpoint::Clear, healed: true })
                    &&& final(self).queue() == merged
                } else if any_stale(results@) {
                    &&& action matches HealAction::Finish {
                        checkpoint: Checkpoint::Persist(saved),
                        healed: false,
                    }
                    &&& saved@ == merged
                    &&& final(self).queue().len() == 0
                } else {
                    &&& action matches HealAction::Fetch(batches)
                    &&& batch_views(batches@) == round_batches(merged, size, max)
                    &&& final(self).queue() == round_rest(merged, size, max)
                    &&& batches@.len() >= 1
                    &&& batches@[0]@.len() >= 1
                }
            }),
    {
        let stale = absorb_results(&mut self.queue, results);
        if self.queue.len() == 0 {
            assert(self.queue@ =~= old(self).queue() + returned_paths(results@));
            HealAction::Finish { checkpoint: Checkpoint::Clear, healed: true }
        } else if stale {
            let mut saved: Vec<Nibbles> = Vec::new();
            core::mem::swap(&mut self.queue, &mut saved);
            HealAction::Finish { checkpoint: Checkpoint::Persist(saved), healed: false }
        } else {
            HealAction::Fetch(self.next_round())
        }
    }
}

} // verus!
