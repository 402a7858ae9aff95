//! What holds of a batch whatever the store holds: its outcome is decided by
//! the state of the store, and cutting a batch in two changes nothing.

use vstd::prelude::*;
use crate::account::parse_account;
use crate::nibbles::pack;
use crate::node::Node;
use crate::state_healing::{
    batch_findings, child_keys, code_keys, leaf_probes, missing_children, missing_code,
    missing_storage, node_findings, storage_keys, BatchPlan, ChildProbe, CodeProbe, Findings,
    StorageProbe, SyncError,
};

verus! {

/// What the store holds, as far as healing asks: the digests of its nodes,
/// the accounts and storage roots of the storage tries it has, and the
/// hashes of its code.
pub struct StoreModel {
    pub nodes: Set<Seq<u8>>,
    pub storage: Set<(Seq<u8>, Seq<u8>)>,
    pub code: Set<Seq<u8>>,
}

/// The paths of the children that a store with the nodes `held` lacks.
pub open spec fn lacking_children(children: Seq<(Seq<u8>, Seq<u8>)>, held: Set<Seq<u8>>) -> Seq<
    Seq<u8>,
>
    decreases children.len(),
{
    if children.len() == 0 {
        Seq::empty()
    } else {
        let before = lacking_children(children.drop_last(), held);
        if held.contains(children.last().1) {
            before
        } else {
            before.push(children.last().0)
        }
    }
}

/// The accounts whose storage a store with the storage tries `held` lacks.
pub open spec fn lacking_storage(
    accounts: Seq<(Seq<u8>, Seq<u8>)>,
    held: Set<(Seq<u8>, Seq<u8>)>,
) -> Seq<Seq<u8>>
    decreases accounts.len(),
{
    if accounts.len() == 0 {
        Seq::empty()
    } else {
        let before = lacking_storage(accounts.drop_last(), held);
        if held.contains(accounts.last()) {
            before
        } else {
            before.push(accounts.last().0)
        }
    }
}

/// The code hashes whose code a store with the code `held` lacks.
pub open spec fn lacking_code(hashes: Seq<Seq<u8>>, held: Set<Seq<u8>>) -> Seq<Seq<u8>>
    decreases hashes.len(),
{
    if hashes.len() == 0 {
        Seq::empty()
    } else {
        let before = lacking_code(hashes.drop_last(), held);
        if held.contains(hashes.last()) {
            before
        } else {
            before.push(hashes.last())
        }
    }
}

/// Whether every probe holds the answer of `store`.
pub open spec fn answered_by(plan: BatchPlan, store: StoreModel) -> bool {
    &&& forall|i: int|
        0 <= i < plan.child_probes@.len() ==> (#[trigger] plan.child_probes@[i]).present
            == store.nodes.contains(plan.child_probes@[i].hash@)
    &&& forall|i: int|
        0 <= i < plan.storage_probes@.len() ==> (#[trigger] plan.storage_probes@[i]).present
            == store.storage.contains(
            (plan.storage_probes@[i].account_hash@, plan.storage_probes@[i].storage_root@),
        )
    &&& forall|i: int|
        0 <= i < plan.code_probes@.len() ==> (#[trigger] plan.code_probes@[i]).present
            == store.code.contains(plan.code_probes@[i].code_hash@)
}

proof fn lemma_missing_children(probes: Seq<ChildProbe>, held: Set<Seq<u8>>)
    requires
        forall|i: int|
            0 <= i < probes.len() ==> (#[trigger] probes[i]).present == held.contains(
                probes[i].hash@,
            ),
    ensures
        missing_children(probes) == lacking_children(child_keys(probes), held),
    decreases probes.len(),
{
    if probes.len() > 0 {
        lemma_missing_children(probes.drop_last(), held);
        assert(child_keys(probes).drop_last() =~= child_keys(probes.drop_last()));
        assert(child_keys(probes).last() == (probes.last().path@, probes.last().hash@));
    }
}

proof fn lemma_missing_storage(probes: Seq<StorageProbe>, held: Set<(Seq<u8>, Seq<u8>)>)
    requires
        forall|i: int|
            0 <= i < probes.len() ==> (#[trigger] probes[i]).present == held.contains(
                (probes[i].account_hash@, probes[i].storage_root@),
            ),
    ensures
        missing_storage(probes) == lacking_storage(storage_keys(probes), held),
    decreases probes.len(),
{
    if probes.len() > 0 {
        lemma_missing_storage(probes.drop_last(), held);
        assert(storage_keys(probes).drop_last() =~= storage_keys(probes.drop_last()));
        assert(storage_keys(probes).last() == (
            probes.last().account_hash@,
            probes.last().storage_root@,
        ));
    }
}

proof fn lemma_missing_code(probes: Seq<CodeProbe>, held: Set<Seq<u8>>)
    requires
        forall|i: int|
            0 <= i < probes.len() ==> (#[trigger] probes[i]).present == held.contains(
                probes[i].code_hash@,
            ),
    ensures
        missing_code(probes) == lacking_code(code_keys(probes), held),
    decreases probes.len(),
{
    if probes.len() > 0 {
        lemma_missing_code(probes.drop_last(), held);
        assert(code_keys(probes).drop_last() =~= code_keys(probes.drop_last()));
        assert(code_keys(probes).last() == probes.last().code_hash@);
    }
}

/// With the answers of a store in its probes, a plan comes to what that
/// store lacks: the outcome of a batch is decided by the paths asked, the
/// nodes that came back and the state of the store, and by nothing else.
pub proof fn lemma_outcome_by_store(plan: BatchPlan, store: StoreModel)
    requires
        answered_by(plan, store),
    ensures
        missing_children(plan.child_probes@) == lacking_children(
            plan.findings().children,
            store.nodes,
        ),
        missing_storage(plan.storage_probes@) == lacking_storage(
            plan.findings().storage,
            store.storage,
        ),
        missing_code(plan.code_probes@) == lacking_code(plan.findings().code, store.code),
{
    lemma_missing_children(plan.child_probes@, store.nodes);
    lemma_missing_storage(plan.storage_probes@, store.storage);
    lemma_missing_code(plan.code_probes@, store.code);
}

/// What a store lacks of two runs of children is what it lacks of the
/// first, then what it lacks of the second.
pub proof fn lemma_lacking_children_concat(
    first: Seq<(Seq<u8>, Seq<u8>)>,
    second: Seq<(Seq<u8>, Seq<u8>)>,
    held: Set<Seq<u8>>,
)
    ensures
        lacking_children(first + second, held) == lacking_children(first, held) + lacking_children(
            second,
            held,
        ),
    decreases second.len(),
{
    if second.len() == 0 {
        assert(first + second =~= first);
        assert(lacking_children(first, held) + lacking_children(second, held)
            =~= lacking_children(first, held));
    } else {
        lemma_lacking_children_concat(first, second.drop_last(), held);
        assert((first + second).drop_last() =~= first + second.drop_last());
        assert((first + second).last() == second.last());
        assert(lacking_children(first + second, held) =~= lacking_children(first, held)
            + lacking_children(second, held));
    }
}

/// The findings of the first `n` nodes depend on those nodes and their
/// paths alone.
pub proof fn lemma_batch_findings_prefix(
    paths_a: Seq<Seq<u8>>,
    nodes_a: Seq<Node>,
    paths_b: Seq<Seq<u8>>,
    nodes_b: Seq<Node>,
    n: nat,
)
    requires
        forall|i: int| 0 <= i < n ==> paths_a[i] == paths_b[i] && nodes_a[i] == nodes_b[i],
    ensures
        batch_findings(paths_a, nodes_a, n) == batch_findings(paths_b, nodes_b, n),
    decreases n,
{
    if n > 0 {
        lemma_batch_findings_prefix(paths_a, nodes_a, paths_b, nodes_b, (n - 1) as nat);
    }
}

/// The findings of a batch that was answered in full, followed by the
/// first `m` nodes of a second batch.
pub proof fn lemma_batch_findings_concat(
    paths_1: Seq<Seq<u8>>,
    nodes_1: Seq<Node>,
    paths_2: Seq<Seq<u8>>,
    nodes_2: Seq<Node>,
    m: nat,
)
    requires
        nodes_1.len() == paths_1.len(),
        m <= nodes_2.len() <= paths_2.len(),
        batch_findings(paths_1, nodes_1, nodes_1.len()) is Ok,
    ensures
        batch_findings(paths_1 + paths_2, nodes_1 + nodes_2, nodes_1.len() + m) == match batch_findings(
            paths_2,
            nodes_2,
            m,
        ) {
            Ok(second) => Ok::<Findings, SyncError>(
                (batch_findings(paths_1, nodes_1, nodes_1.len())->Ok_0).join(second),
            ),
            Err(e) => Err::<Findings, SyncError>(e),
        },
    decreases m,
{
    let first = batch_findings(paths_1, nodes_1, nodes_1.len())->Ok_0;
    let paths = paths_1 + paths_2;
    let nodes = nodes_1 + nodes_2;
    if m == 0 {
        lemma_batch_findings_prefix(paths, nodes, paths_1, nodes_1, nodes_1.len());
        assert(first.join(Findings::none()) =~= first);
    } else {
        lemma_batch_findings_concat(paths_1, nodes_1, paths_2, nodes_2, (m - 1) as nat);
        assert(paths[nodes_1.len() + m - 1] == paths_2[m - 1]);
        assert(nodes[nodes_1.len() + m - 1] == nodes_2[m - 1]);
        match batch_findings(paths_2, nodes_2, (m - 1) as nat) {
            Ok(before) => {
                match node_findings(paths_2[m - 1], nodes_2[m - 1]) {
                    Ok(found) => {
                        assert(first.join(before).join(found) =~= first.join(before.join(found)));
                    },
                    Err(e) => {},
                }
            },
            Err(e) => {},
        }
    }
}

/// However a run of paths is cut into batches, the same children are found
/// lacking: for a fixed store, one batch that is answered node for path
/// discovers what its two halves discover, in the same order.
pub proof fn lemma_split_batch(
    paths_1: Seq<Seq<u8>>,
    nodes_1: Seq<Node>,
    paths_2: Seq<Seq<u8>>,
    nodes_2: Seq<Node>,
    held: Set<Seq<u8>>,
)
    requires
        nodes_1.len() == paths_1.len(),
        nodes_2.len() <= paths_2.len(),
        batch_findings(paths_1, nodes_1, nodes_1.len()) is Ok,
        batch_findings(paths_2, nodes_2, nodes_2.len()) is Ok,
    ensures
        batch_findings(paths_1 + paths_2, nodes_1 + nodes_2, (nodes_1 + nodes_2).len()) is Ok,
        lacking_children(
            (batch_findings(
                paths_1 + paths_2,
                nodes_1 + nodes_2,
                (nodes_1 + nodes_2).len(),
            )->Ok_0).children,
            held,
        ) == lacking_children(
            (batch_findings(paths_1, nodes_1, nodes_1.len())->Ok_0).children,
            held,
        ) + lacking_children(
            (batch_findings(paths_2, nodes_2, nodes_2.len())->Ok_0).children,
            held,
        ),
{
    lemma_batch_findings_concat(paths_1, nodes_1, paths_2, nodes_2, nodes_2.len());
    lemma_lacking_children_concat(
        (batch_findings(paths_1, nodes_1, nodes_1.len())->Ok_0).children,
        (batch_findings(paths_2, nodes_2, nodes_2.len())->Ok_0).children,
        held,
    );
}

/// A batch is refused as corrupt for the first leaf that holds an account
/// under a key that does not have 32 bytes.
pub proof fn lemma_corrupt_path(paths: Seq<Seq<u8>>, nodes: Seq<Node>, k: nat)
    requires
        k < nodes.len(),
        batch_findings(paths, nodes, k) is Ok,
        nodes[k as int] matches Node::Leaf(leaf) && parse_account(leaf.value@) is Ok && pack(
            paths[k as int] + leaf.partial@,
        ).len() != 32,
    ensures
        batch_findings(paths, nodes, nodes.len()) == Err::<Findings, SyncError>(
            SyncError::CorruptPath,
        ),
{
    assert(leaf_probes(paths[k as int], nodes[k as int]) == Err::<
        (Seq<(Seq<u8>, Seq<u8>)>, Seq<Seq<u8>>),
        SyncError,
    >(SyncError::CorruptPath));
    assert(batch_findings(paths, nodes, (k + 1) as nat) == Err::<Findings, SyncError>(
        SyncError::CorruptPath,
    ));
    crate::state_healing::lemma_batch_findings_error(paths, nodes, (k + 1) as nat, nodes.len());
}

} // verus!
